use orderbook_merge::codec::Dec;
use orderbook_merge::ladder::Level;
use orderbook_merge::orderbook::{BookError, Config, MergeOutcome, OrderBook, ParsedUpdate};

fn dec_from_f64(v: f64) -> Dec {
    // test inputs carry at most one decimal digit
    Dec {
        mantissa: (v * 10.0).round() as u64,
        scale: 1,
    }
}

fn level(price: f64, amount: f64, exchange: &str) -> Level {
    Level {
        price: dec_from_f64(price),
        amount: dec_from_f64(amount),
        exchange: exchange.to_string(),
    }
}

fn price_to_price_map_index(price: f64) -> u64 {
    (price * 1_000_000_000.0) as u64
}

fn config(reporting_levels: u32) -> Config {
    Config {
        reporting_levels,
        sources: vec!["BINANCE".to_string(), "BITSTAMP".to_string()],
        scale_exp: 9,
        price_precision: 9,
        register_unknown_sources: false,
    }
}

#[test]
fn creates_an_orderbook() {
    let snapshots = ParsedUpdate {
        last_update_id: 100000,
        bids: vec![level(8.0, 1.0, "BITSTAMP")],
        asks: vec![level(10.0, 1.0, "BITSTAMP")],
    };
    let ob = OrderBook::new(config(5), snapshots).unwrap();
    assert_eq!(ob.best_ask_key, Some(price_to_price_map_index(10.0)));
    assert_eq!(ob.best_bid_key, Some(price_to_price_map_index(8.0)));
}

#[test]
fn creates_an_orderbook_and_deletes_best_bid_ask() {
    let snapshots = ParsedUpdate {
        last_update_id: 100000,
        bids: vec![level(7.0, 1.0, "BITSTAMP"), level(8.0, 1.0, "BITSTAMP")],
        asks: vec![level(10.0, 1.0, "BITSTAMP"), level(11.00, 1.0, "BITSTAMP")],
    };
    let mut ob = OrderBook::new(config(5), snapshots).unwrap();
    let new_update = ParsedUpdate {
        last_update_id: 110000,
        bids: vec![level(8.0, 0.0, "BITSTAMP")],
        asks: vec![level(10.0, 0.0, "BITSTAMP")],
    };
    ob.merge_parse_update(new_update).expect("broken merge update");
    assert_eq!(ob.best_bid_key, Some(price_to_price_map_index(7.0)));
    assert_eq!(ob.best_ask_key, Some(price_to_price_map_index(11.0)));
}

#[test]
fn creates_an_orderbook_and_adds_best_bid() {
    let snapshots = ParsedUpdate {
        last_update_id: 100000,
        bids: vec![level(7.0, 1.0, "BITSTAMP"), level(8.0, 1.0, "BITSTAMP")],
        asks: vec![level(10.0, 1.0, "BITSTAMP")],
    };
    let mut ob = OrderBook::new(config(5), snapshots).unwrap();
    let new_update = ParsedUpdate {
        last_update_id: 110000,
        bids: vec![level(9.0, 1.0, "BITSTAMP")],
        asks: vec![level(11.0, 1.0, "BITSTAMP")],
    };
    ob.merge_parse_update(new_update).expect("broken merge update");
    assert_eq!(ob.best_ask_key, Some(price_to_price_map_index(10.0)));
    assert_eq!(ob.best_bid_key, Some(price_to_price_map_index(9.0)));
}

#[test]
fn already_received_update() {
    let snapshots = ParsedUpdate {
        last_update_id: 100000,
        bids: vec![level(8.0, 1.0, "BITSTAMP")],
        asks: vec![level(10.0, 1.0, "BITSTAMP")],
    };
    let mut ob = OrderBook::new(config(5), snapshots).unwrap();
    let new_update = ParsedUpdate {
        last_update_id: 9000,
        bids: vec![level(9.0, 1.0, "BITSTAMP")],
        asks: vec![level(11.0, 1.0, "BITSTAMP")],
    };
    ob.merge_parse_update(new_update).expect("broken merge update");
    assert_eq!(ob.best_ask_key, Some(price_to_price_map_index(10.0)));
    assert_eq!(ob.best_bid_key, Some(price_to_price_map_index(8.0)));
}

#[test]
fn stale_update_is_reported_and_changes_nothing() {
    let snapshots = ParsedUpdate {
        last_update_id: 100000,
        bids: vec![level(8.0, 1.0, "BITSTAMP")],
        asks: vec![level(10.0, 1.0, "BITSTAMP")],
    };
    let mut ob = OrderBook::new(config(5), snapshots).unwrap();
    let before = ob.get_summary();
    let stale = ParsedUpdate {
        last_update_id: 100000,
        bids: vec![level(9.0, 1.0, "BITSTAMP")],
        asks: vec![],
    };
    let outcome = ob.merge_parse_update(stale).unwrap();
    assert_eq!(outcome, MergeOutcome::Stale);
    let after = ob.get_summary();
    assert_eq!(ob.best_bid_key, Some(price_to_price_map_index(8.0)));
    assert_eq!(before.spread, after.spread);
    assert_eq!(before.bids.len(), after.bids.len());
    assert_eq!(before.asks.len(), after.asks.len());
}

#[test]
fn removal_restores_next_best() {
    // levels at keys {700, 800} under a scale exponent of 2
    let cfg = Config {
        reporting_levels: 5,
        sources: vec!["BITSTAMP".to_string()],
        scale_exp: 2,
        price_precision: 1,
        register_unknown_sources: false,
    };
    let snapshots = ParsedUpdate {
        last_update_id: 1,
        bids: vec![level(7.0, 1.0, "BITSTAMP"), level(8.0, 1.0, "BITSTAMP")],
        asks: vec![level(9.0, 1.0, "BITSTAMP")],
    };
    let mut ob = OrderBook::new(cfg, snapshots).unwrap();
    assert_eq!(ob.best_bid_key, Some(800));
    let removal = ParsedUpdate {
        last_update_id: 2,
        bids: vec![level(8.0, 0.0, "BITSTAMP")],
        asks: vec![],
    };
    assert_eq!(ob.merge_parse_update(removal).unwrap(), MergeOutcome::Applied);
    assert_eq!(ob.best_bid_key, Some(700));
}

#[test]
fn cross_exchange_merge_at_shared_price() {
    let snapshots = ParsedUpdate {
        last_update_id: 100,
        bids: vec![level(8.0, 1.0, "BINANCE")],
        asks: vec![level(10.0, 1.0, "BINANCE")],
    };
    let mut ob = OrderBook::new(config(5), snapshots).unwrap();
    let other = ParsedUpdate {
        last_update_id: 50,
        bids: vec![level(8.0, 2.5, "BITSTAMP")],
        asks: vec![level(10.0, 0.5, "BITSTAMP")],
    };
    assert_eq!(ob.merge_parse_update(other).unwrap(), MergeOutcome::Applied);
    // both quotes rest at the shared price, largest amount first
    let bids = ob.get_bids_reporting_levels();
    assert_eq!(bids.len(), 2);
    assert_eq!(bids[0].exchange, "BITSTAMP");
    assert_eq!(bids[0].amount, dec_from_f64(2.5));
    assert_eq!(bids[1].exchange, "BINANCE");
    assert_eq!(bids[1].amount, dec_from_f64(1.0));
    let asks = ob.get_asks_reporting_levels();
    assert_eq!(asks.len(), 2);
    assert_eq!(asks[0].exchange, "BINANCE");
    assert_eq!(asks[1].exchange, "BITSTAMP");
}

#[test]
fn top_n_truncation() {
    let mut bids = Vec::new();
    let mut asks = Vec::new();
    for i in 0..8 {
        bids.push(level(1.0 + i as f64, 1.0, "BITSTAMP"));
        asks.push(level(10.0 + i as f64, 1.0, "BITSTAMP"));
    }
    let snapshots = ParsedUpdate {
        last_update_id: 1,
        bids,
        asks,
    };
    let ob = OrderBook::new(config(5), snapshots).unwrap();
    let summary = ob.get_summary();
    assert_eq!(summary.bids.len(), 5);
    assert_eq!(summary.asks.len(), 5);
    // the most aggressive levels survive: highest bids, lowest asks
    assert_eq!(summary.bids[0].price, dec_from_f64(8.0));
    assert_eq!(summary.bids[4].price, dec_from_f64(4.0));
    assert_eq!(summary.asks[0].price, dec_from_f64(10.0));
    assert_eq!(summary.asks[4].price, dec_from_f64(14.0));
}

#[test]
fn snapshot_round_trip() {
    let snapshots = ParsedUpdate {
        last_update_id: 100000,
        bids: vec![level(8.0, 1.0, "BITSTAMP")],
        asks: vec![level(10.0, 1.0, "BITSTAMP")],
    };
    let mut ob = OrderBook::new(config(5), snapshots).unwrap();
    assert_eq!(ob.best_bid_key, Some(8_000_000_000));
    assert_eq!(ob.best_ask_key, Some(10_000_000_000));
    let spread = ob.get_summary().spread.unwrap();
    assert_eq!(spread.mantissa, 2_000_000_000);
    assert_eq!(spread.scale, 9);
    let removal = ParsedUpdate {
        last_update_id: 110000,
        bids: vec![level(8.0, 0.0, "BITSTAMP")],
        asks: vec![],
    };
    assert_eq!(ob.merge_parse_update(removal).unwrap(), MergeOutcome::Applied);
    // no bid remains: the sentinel comes back and no spread is fabricated
    assert_eq!(ob.best_bid_key, None);
    assert!(ob.get_summary().spread.is_none());
    assert_eq!(ob.get_summary().bids.len(), 0);
    // the very same revision again is a no-op
    let again = ParsedUpdate {
        last_update_id: 110000,
        bids: vec![level(8.0, 0.0, "BITSTAMP")],
        asks: vec![],
    };
    assert_eq!(ob.merge_parse_update(again).unwrap(), MergeOutcome::Stale);
    assert_eq!(ob.best_bid_key, None);
    assert_eq!(ob.best_ask_key, Some(10_000_000_000));
}

#[test]
fn crossed_book_spread_is_negative() {
    let snapshots = ParsedUpdate {
        last_update_id: 1,
        bids: vec![level(10.0, 1.0, "BINANCE")],
        asks: vec![level(10.5, 1.0, "BINANCE")],
    };
    let mut ob = OrderBook::new(config(5), snapshots).unwrap();
    let crossing = ParsedUpdate {
        last_update_id: 1,
        bids: vec![],
        asks: vec![level(9.0, 1.0, "BITSTAMP")],
    };
    assert_eq!(ob.merge_parse_update(crossing).unwrap(), MergeOutcome::Applied);
    let spread = ob.get_summary().spread.unwrap();
    assert_eq!(spread.mantissa, -1_000_000_000);
    assert_eq!(spread.scale, 9);
}

#[test]
fn ambiguous_record_is_refused() {
    let snapshots = ParsedUpdate {
        last_update_id: 1,
        bids: vec![level(8.0, 1.0, "BITSTAMP")],
        asks: vec![],
    };
    let mut ob = OrderBook::new(config(5), snapshots).unwrap();
    let empty = ParsedUpdate {
        last_update_id: 2,
        bids: vec![],
        asks: vec![],
    };
    assert_eq!(ob.merge_parse_update(empty), Err(BookError::AmbiguousRecord));
    // quotes naming two exchanges cannot be attributed either
    let mixed = ParsedUpdate {
        last_update_id: 2,
        bids: vec![level(8.0, 1.0, "BITSTAMP"), level(8.5, 1.0, "BINANCE")],
        asks: vec![],
    };
    assert_eq!(ob.merge_parse_update(mixed), Err(BookError::AmbiguousRecord));
    assert_eq!(ob.best_bid_key, Some(8_000_000_000));
}

#[test]
fn unknown_source_is_refused_under_strict_policy() {
    let snapshots = ParsedUpdate {
        last_update_id: 1,
        bids: vec![level(8.0, 1.0, "BITSTAMP")],
        asks: vec![],
    };
    let mut ob = OrderBook::new(config(5), snapshots).unwrap();
    let foreign = ParsedUpdate {
        last_update_id: 2,
        bids: vec![level(9.0, 1.0, "KRAKEN")],
        asks: vec![],
    };
    assert_eq!(ob.merge_parse_update(foreign), Err(BookError::UnknownSource));
    assert_eq!(ob.best_bid_key, Some(8_000_000_000));
}

#[test]
fn unknown_source_is_registered_under_open_policy() {
    let cfg = Config {
        reporting_levels: 5,
        sources: vec!["BITSTAMP".to_string()],
        scale_exp: 9,
        price_precision: 9,
        register_unknown_sources: true,
    };
    let snapshots = ParsedUpdate {
        last_update_id: 1,
        bids: vec![level(8.0, 1.0, "BITSTAMP")],
        asks: vec![],
    };
    let mut ob = OrderBook::new(cfg, snapshots).unwrap();
    let foreign = ParsedUpdate {
        last_update_id: 7,
        bids: vec![level(9.0, 1.0, "KRAKEN")],
        asks: vec![],
    };
    assert_eq!(ob.merge_parse_update(foreign).unwrap(), MergeOutcome::Applied);
    assert_eq!(ob.best_bid_key, Some(9_000_000_000));
    // and the registered source is now gated like any other
    let stale = ParsedUpdate {
        last_update_id: 7,
        bids: vec![level(9.5, 1.0, "KRAKEN")],
        asks: vec![],
    };
    assert_eq!(ob.merge_parse_update(stale).unwrap(), MergeOutcome::Stale);
}

#[test]
fn oversized_price_is_refused_whole() {
    let snapshots = ParsedUpdate {
        last_update_id: 1,
        bids: vec![level(8.0, 1.0, "BITSTAMP")],
        asks: vec![],
    };
    let mut ob = OrderBook::new(config(5), snapshots).unwrap();
    let huge = Level {
        price: Dec {
            mantissa: u64::MAX,
            scale: 0,
        },
        amount: dec_from_f64(1.0),
        exchange: "BITSTAMP".to_string(),
    };
    let update = ParsedUpdate {
        last_update_id: 2,
        bids: vec![level(9.0, 1.0, "BITSTAMP"), huge],
        asks: vec![],
    };
    assert_eq!(ob.merge_parse_update(update), Err(BookError::QuoteOutOfRange));
    // no partial application: the acceptable quote of the record is absent too
    assert_eq!(ob.best_bid_key, Some(8_000_000_000));
}

#[test]
fn unrepresentable_scale_is_refused() {
    let snapshots = ParsedUpdate {
        last_update_id: 1,
        bids: vec![level(8.0, 1.0, "BITSTAMP")],
        asks: vec![],
    };
    let mut ob = OrderBook::new(config(5), snapshots).unwrap();
    let fine_grained = Level {
        price: Dec {
            mantissa: 1,
            scale: 19,
        },
        amount: dec_from_f64(1.0),
        exchange: "BITSTAMP".to_string(),
    };
    let update = ParsedUpdate {
        last_update_id: 2,
        bids: vec![fine_grained],
        asks: vec![],
    };
    assert_eq!(ob.merge_parse_update(update), Err(BookError::QuoteOutOfRange));
}

#[test]
fn scale_factor_collision_is_flagged_at_construction() {
    // feeds report ten decimals; a 10^9 scale factor would merge prices
    // that differ by less than one billionth
    let cfg = Config {
        reporting_levels: 5,
        sources: vec!["BITSTAMP".to_string()],
        scale_exp: 9,
        price_precision: 10,
        register_unknown_sources: false,
    };
    let snapshots = ParsedUpdate {
        last_update_id: 1,
        bids: vec![level(8.0, 1.0, "BITSTAMP")],
        asks: vec![],
    };
    assert!(matches!(
        OrderBook::new(cfg, snapshots),
        Err(BookError::PrecisionConfiguration)
    ));
}

#[test]
fn oversized_scale_exponent_is_refused_at_construction() {
    let cfg = Config {
        reporting_levels: 5,
        sources: vec!["BITSTAMP".to_string()],
        scale_exp: 19,
        price_precision: 1,
        register_unknown_sources: false,
    };
    let snapshots = ParsedUpdate {
        last_update_id: 1,
        bids: vec![level(8.0, 1.0, "BITSTAMP")],
        asks: vec![],
    };
    assert!(matches!(
        OrderBook::new(cfg, snapshots),
        Err(BookError::ScaleOutOfRange)
    ));
}

#[test]
fn duplicate_source_is_refused_at_construction() {
    let cfg = Config {
        reporting_levels: 5,
        sources: vec!["BITSTAMP".to_string(), "BITSTAMP".to_string()],
        scale_exp: 9,
        price_precision: 9,
        register_unknown_sources: false,
    };
    let snapshots = ParsedUpdate {
        last_update_id: 1,
        bids: vec![level(8.0, 1.0, "BITSTAMP")],
        asks: vec![],
    };
    assert!(matches!(
        OrderBook::new(cfg, snapshots),
        Err(BookError::DuplicateSource)
    ));
}

fn brute_force_best_bid(ob: &OrderBook) -> Option<u64> {
    // maximum key among bid levels holding at least one live quote
    ob.bid_ladder
        .entries
        .iter()
        .filter(|e| !e.quotes.is_empty())
        .map(|e| e.key)
        .max()
}

fn brute_force_best_ask(ob: &OrderBook) -> Option<u64> {
    ob.ask_ladder
        .entries
        .iter()
        .filter(|e| !e.quotes.is_empty())
        .map(|e| e.key)
        .min()
}

#[test]
fn best_price_tracks_full_rescan_over_update_sequence() {
    let snapshots = ParsedUpdate {
        last_update_id: 1,
        bids: vec![level(5.0, 1.0, "BINANCE"), level(6.0, 2.0, "BINANCE")],
        asks: vec![level(9.0, 1.0, "BINANCE"), level(8.0, 2.0, "BINANCE")],
    };
    let mut ob = OrderBook::new(config(10), snapshots).unwrap();
    // a scripted mix of inserts, overwrites and removals from both sources:
    // (revision, side is bid, price, amount, exchange)
    let steps: Vec<(u64, bool, f64, f64, &str)> = vec![
        (1, true, 6.5, 1.0, "BITSTAMP"),
        (2, true, 7.0, 1.0, "BINANCE"),
        (3, true, 7.0, 0.0, "BINANCE"),
        (2, false, 8.0, 3.0, "BITSTAMP"),
        (4, true, 6.0, 0.0, "BINANCE"),
        (5, false, 8.0, 0.0, "BINANCE"),
        (3, false, 8.0, 0.0, "BITSTAMP"),
        (6, true, 5.0, 0.0, "BINANCE"),
        (7, true, 4.0, 2.0, "BINANCE"),
        (4, true, 6.5, 0.0, "BITSTAMP"),
        (8, false, 7.5, 1.0, "BINANCE"),
        (9, false, 9.0, 0.0, "BINANCE"),
    ];
    for (revision, is_bid, price, amount, exchange) in steps {
        let quote = level(price, amount, exchange);
        let update = ParsedUpdate {
            last_update_id: revision,
            bids: if is_bid { vec![quote] } else { vec![] },
            asks: if is_bid {
                vec![]
            } else {
                vec![level(price, amount, exchange)]
            },
        };
        ob.merge_parse_update(update).unwrap();
        assert_eq!(ob.best_bid_key, brute_force_best_bid(&ob));
        assert_eq!(ob.best_ask_key, brute_force_best_ask(&ob));
    }
    assert_eq!(ob.best_bid_key, Some(4_000_000_000));
    assert_eq!(ob.best_ask_key, Some(7_500_000_000));
}
