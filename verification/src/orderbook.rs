//! The merge engine.
//!
//! An [`OrderBook`] owns one bid and one ask [`Ladder`], the current best key
//! of each side, and a per-source revision counter. Canonical update records
//! pass a staleness gate before any mutation; accepted quotes are keyed
//! through the codec and upserted into or removed from the ladders while the
//! best-price pointers are maintained incrementally.

use vstd::prelude::*;
use crate::codec::{key_of, price_to_key, MAX_SCALE};
use crate::ladder::{removed, upserted, views, Ladder, Level, LevelV};

verus! {

/// A canonical update record: one source's snapshot or diff, already
/// normalized from its wire shape. A quote with a zero amount orders the
/// removal of that (price, exchange) slot.
#[derive(Debug)]
pub struct ParsedUpdate {
    pub bids: Vec<Level>,
    pub asks: Vec<Level>,
    pub last_update_id: u64,
}

/// The mathematical value of a [`ParsedUpdate`].
pub struct ParsedUpdateV {
    pub bids: Seq<LevelV>,
    pub asks: Seq<LevelV>,
    pub last_update_id: u64,
}

impl View for ParsedUpdate {
    type V = ParsedUpdateV;

    open spec fn view(&self) -> ParsedUpdateV {
        ParsedUpdateV {
            bids: views(self.bids@),
            asks: views(self.asks@),
            last_update_id: self.last_update_id,
        }
    }
}

impl ParsedUpdateV {
    /// The source a record is attributed to: the exchange of its first quote.
    pub open spec fn source(self) -> Seq<char> {
        if self.bids.len() > 0 {
            self.bids[0].exchange
        } else {
            self.asks[0].exchange
        }
    }

    /// Every quote in the record belongs to the attributed source.
    pub open spec fn single_source(self) -> bool {
        &&& forall|i: int|
            0 <= i < self.bids.len() ==> (#[trigger] self.bids[i]).exchange == self.source()
        &&& forall|i: int|
            0 <= i < self.asks.len() ==> (#[trigger] self.asks[i]).exchange == self.source()
    }

    /// The record cannot be attributed to exactly one source: both sides are
    /// empty, or its quotes name more than one exchange.
    pub open spec fn ambiguous(self) -> bool {
        (self.bids.len() == 0 && self.asks.len() == 0) || !self.single_source()
    }

    /// Every quote carries representable decimals and a price that keys into
    /// a `u64` under scale exponent `e`.
    pub open spec fn quotes_valid(self, e: u32) -> bool {
        &&& forall|i: int|
            0 <= i < self.bids.len() ==> (#[trigger] self.bids[i]).wf() && key_of(
                self.bids[i].price,
                e,
            ) <= u64::MAX
        &&& forall|i: int|
            0 <= i < self.asks.len() ==> (#[trigger] self.asks[i]).wf() && key_of(
                self.asks[i].price,
                e,
            ) <= u64::MAX
    }
}

/// A single quote is acceptable under scale exponent `e`.
pub open spec fn quote_valid(q: LevelV, e: u32) -> bool {
    q.wf() && key_of(q.price, e) <= u64::MAX
}

/// Every way an update record or a configuration can be refused. Refusals
/// are reported, never panicked on, and leave the book untouched.
#[derive(Clone, Copy, Debug, PartialEq, Eq, Structural)]
pub enum BookError {
    /// Both sides empty, or quotes from more than one exchange: the record
    /// cannot be attributed to a source.
    AmbiguousRecord,
    /// The record's source is not configured and the book's policy is to
    /// reject sources it was not told about.
    UnknownSource,
    /// A quote's decimal scale is unrepresentable or its keyed price does
    /// not fit the key space.
    QuoteOutOfRange,
    /// The configured scale factor cannot resolve the declared price
    /// precision, so distinct prices would silently share a key.
    PrecisionConfiguration,
    /// The configured scale exponent exceeds what exact keying supports.
    ScaleOutOfRange,
    /// A source listed more than once in the configuration.
    DuplicateSource,
}

/// What became of an accepted call to the merge engine.
#[derive(Clone, Copy, Debug, PartialEq, Eq, Structural)]
pub enum MergeOutcome {
    /// The record was newer than everything seen from its source and is now
    /// reflected in the book.
    Applied,
    /// The record's revision was not newer: discarded whole, as a no-op.
    Stale,
}

/// Everything fixed at construction time.
#[derive(Debug)]
pub struct Config {
    /// How many aggregated quotes per side a summary reports.
    pub reporting_levels: u32,
    /// The exchanges the book accepts records from.
    pub sources: Vec<String>,
    /// Prices are keyed as `price * 10^scale_exp`, truncated.
    pub scale_exp: u32,
    /// The finest decimal scale any configured feed reports prices at.
    pub price_precision: u32,
    /// Whether a record from an unlisted exchange registers that exchange at
    /// its revision instead of being rejected.
    pub register_unknown_sources: bool,
}

impl Config {
    /// The configuration is coherent: exact keying is possible, the scale
    /// factor resolves every reported price digit, and no source repeats.
    pub open spec fn valid(self) -> bool {
        &&& self.scale_exp <= MAX_SCALE
        &&& self.price_precision <= self.scale_exp
        &&& forall|s1: int, s2: int|
            0 <= s1 < s2 < self.sources.len() ==> (#[trigger] self.sources[s1])@ != (
            #[trigger] self.sources[s2])@
    }

    /// The configuration lists source `x`.
    pub open spec fn lists_source(self, x: Seq<char>) -> bool {
        exists|s: int| 0 <= s < self.sources.len() && (#[trigger] self.sources[s])@ == x
    }
}

/// The slot in a source registry that holds name `x`.
pub open spec fn slot_of(sources: Seq<String>, x: Seq<char>) -> int {
    choose|s: int| 0 <= s < sources.len() && (#[trigger] sources[s])@ == x
}

/// The merged book for one trading pair.
#[derive(Debug)]
pub struct OrderBook {
    /// Greatest bid key with live interest, or `None` on an empty side.
    pub best_bid_key: Option<u64>,
    /// Least ask key with live interest, or `None` on an empty side.
    pub best_ask_key: Option<u64>,
    pub bid_ladder: Ladder,
    pub ask_ladder: Ladder,
    pub reporting_levels: u32,
    pub scale_exp: u32,
    pub register_unknown_sources: bool,
    /// Recognized sources; grows only under the registration policy.
    pub sources: Vec<String>,
    /// Per source, the revision of the last accepted record, if any.
    pub last_update_ids: Vec<Option<u64>>,
}

impl OrderBook {
    /// The book recognizes source `x`.
    pub open spec fn knows_source(self, x: Seq<char>) -> bool {
        exists|s: int| 0 <= s < self.sources.len() && (#[trigger] self.sources[s])@ == x
    }

    /// The slot source `x` occupies.
    pub open spec fn source_slot(self, x: Seq<char>) -> int {
        slot_of(self.sources@, x)
    }

    /// The revision of the last record accepted from `x`, if any.
    pub open spec fn revision_of(self, x: Seq<char>) -> Option<u64> {
        if self.knows_source(x) {
            self.last_update_ids[self.source_slot(x)]
        } else {
            None
        }
    }

    /// The record is not newer than the last accepted from its source.
    pub open spec fn stale(self, u: ParsedUpdateV) -> bool {
        match self.revision_of(u.source()) {
            Some(r0) => u.last_update_id <= r0,
            None => false,
        }
    }

    /// Fields fixed at construction are shared with `o`.
    pub open spec fn same_config(self, o: OrderBook) -> bool {
        &&& self.reporting_levels == o.reporting_levels
        &&& self.scale_exp == o.scale_exp
        &&& self.register_unknown_sources == o.register_unknown_sources
    }

    /// Source registry and revision counters are shared with `o`.
    pub open spec fn same_sources(self, o: OrderBook) -> bool {
        self.sources@ == o.sources@ && self.last_update_ids@ == o.last_update_ids@
    }

    /// The book's invariant. Both ladders are well-formed, the source table
    /// is rectangular and duplicate-free, and each best pointer names the
    /// most aggressive key with live interest of its side — the greatest for
    /// bids, the least for asks — or nothing on an empty side.
    pub open spec fn wf(self) -> bool {
        &&& self.bid_ladder.wf()
        &&& self.ask_ladder.wf()
        &&& self.scale_exp <= MAX_SCALE
        &&& self.sources.len() == self.last_update_ids.len()
        &&& forall|s1: int, s2: int|
            0 <= s1 < s2 < self.sources.len() ==> (#[trigger] self.sources[s1])@ != (
            #[trigger] self.sources[s2])@
        &&& match self.best_bid_key {
            None => forall|k: int| !self.bid_ladder.has_key(k),
            Some(b) => self.bid_ladder.has_key(b as int) && forall|k: int|
                #[trigger] self.bid_ladder.has_key(k) ==> k <= b,
        }
        &&& match self.best_ask_key {
            None => forall|k: int| !self.ask_ladder.has_key(k),
            Some(a) => self.ask_ladder.has_key(a as int) && forall|k: int|
                #[trigger] self.ask_ladder.has_key(k) ==> k >= a,
        }
    }

    /// With a duplicate-free registry, any slot holding `x` is its slot.
    pub proof fn lemma_source_slot_is(self, s: int)
        requires
            self.wf(),
            0 <= s < self.sources.len(),
        ensures
            self.knows_source(self.sources[s]@),
            self.source_slot(self.sources[s]@) == s,
    {
        let x = self.sources[s]@;
        assert(self.knows_source(x));
        let s2 = self.source_slot(x);
        if s2 < s {
            assert(self.sources[s2]@ != self.sources[s]@);
        } else if s < s2 {
            assert(self.sources[s]@ != self.sources[s2]@);
        }
    }

    /// Finds the registry slot of source `x`, if known.
    fn find_source_slot(&self, x: &String) -> (r: Option<usize>)
        ensures
            match r {
                Some(s) => s < self.sources.len() && self.sources[s as int]@ == x@,
                None => !self.knows_source(x@),
            },
    {
        let mut s: usize = 0;
        while s < self.sources.len()
            invariant
                s <= self.sources.len(),
                forall|s0: int| 0 <= s0 < s ==> (#[trigger] self.sources[s0])@ != x@,
            decreases self.sources.len() - s,
        {
            if self.sources[s] == *x {
                return Some(s);
            }
            s = s + 1;
        }
        None
    }

    /// Builds the book for one trading pair from its configuration and one
    /// initial snapshot record. Configuration faults are fatal here, before
    /// any data flows: a scale exponent beyond exact arithmetic, one too
    /// coarse for the declared price precision — distinct prices would then
    /// silently share a key — or a repeated source name. The snapshot then
    /// passes the same gates as any later record, and a book is returned
    /// only if the snapshot applied.
    pub fn new(config: Config, parsed_update: ParsedUpdate) -> (r: Result<OrderBook, BookError>)
        ensures
            match r {
                Ok(book) => ({
                    let u = parsed_update@;
                    let src = u.source();
                    let e = config.scale_exp;
                    &&& book.wf()
                    &&& book.reporting_levels == config.reporting_levels
                    &&& book.scale_exp == config.scale_exp
                    &&& book.register_unknown_sources == config.register_unknown_sources
                    &&& config.valid()
                    &&& !u.ambiguous()
                    &&& u.quotes_valid(e)
                    &&& config.lists_source(src) || config.register_unknown_sources
                    &&& forall|x: Seq<char>|
                        #[trigger] book.knows_source(x) <==> (config.lists_source(x) || x == src)
                    &&& book.revision_of(src) == Some(u.last_update_id)
                    &&& forall|x: Seq<char>|
                        x != src ==> #[trigger] book.revision_of(x) == Option::<u64>::None
                    &&& side_from_snapshot(book.bid_ladder, u.bids, src, e)
                    &&& side_from_snapshot(book.ask_ladder, u.asks, src, e)
                }),
                Err(err) => match err {
                    BookError::ScaleOutOfRange => config.scale_exp > MAX_SCALE,
                    BookError::PrecisionConfiguration => config.scale_exp <= MAX_SCALE
                        && config.price_precision > config.scale_exp,
                    BookError::DuplicateSource => config.scale_exp <= MAX_SCALE
                        && config.price_precision <= config.scale_exp && exists|s1: int, s2: int|
                        0 <= s1 < s2 < config.sources.len() && (#[trigger] config.sources[s1])@
                            == (#[trigger] config.sources[s2])@,
                    BookError::AmbiguousRecord => config.valid() && parsed_update@.ambiguous(),
                    BookError::UnknownSource => config.valid() && !parsed_update@.ambiguous()
                        && !config.lists_source(parsed_update@.source())
                        && !config.register_unknown_sources,
                    BookError::QuoteOutOfRange => config.valid() && !parsed_update@.ambiguous()
                        && (config.lists_source(parsed_update@.source())
                        || config.register_unknown_sources) && !parsed_update@.quotes_valid(
                        config.scale_exp,
                    ),
                },
            },
    {
        if config.scale_exp > MAX_SCALE {
            return Err(BookError::ScaleOutOfRange);
        }
        if config.price_precision > config.scale_exp {
            return Err(BookError::PrecisionConfiguration);
        }
        let n = config.sources.len();
        let mut s1: usize = 0;
        while s1 < n
            invariant
                n == config.sources.len(),
                s1 <= n,
                config.scale_exp <= MAX_SCALE,
                config.price_precision <= config.scale_exp,
                forall|a: int, b: int|
                    0 <= a < b < n && a < s1 ==> (#[trigger] config.sources[a])@ != (
                    #[trigger] config.sources[b])@,
            decreases n - s1,
        {
            let mut s2: usize = s1 + 1;
            while s2 < n
                invariant
                    n == config.sources.len(),
                    s1 < n,
                    s1 < s2 <= n,
                    config.scale_exp <= MAX_SCALE,
                    config.price_precision <= config.scale_exp,
                    forall|b: int|
                        s1 < b < s2 ==> (#[trigger] config.sources[b])@ != config.sources[
                            s1 as int]@,
                decreases n - s2,
            {
                if config.sources[s1] == config.sources[s2] {
                    proof {
                        assert(config.sources[s1 as int]@ == config.sources[s2 as int]@);
                    }
                    return Err(BookError::DuplicateSource);
                }
                s2 = s2 + 1;
            }
            s1 = s1 + 1;
        }
        let mut last_update_ids: Vec<Option<u64>> = Vec::new();
        let mut i: usize = 0;
        while i < n
            invariant
                last_update_ids@.len() == i,
                i <= n,
                forall|s: int| 0 <= s < i ==> #[trigger] last_update_ids@[s] == Option::<u64>::None,
            decreases n - i,
        {
            last_update_ids.push(None);
            i = i + 1;
        }
        let mut book = OrderBook {
            best_bid_key: None,
            best_ask_key: None,
            bid_ladder: Ladder::empty(),
            ask_ladder: Ladder::empty(),
            reporting_levels: config.reporting_levels,
            scale_exp: config.scale_exp,
            register_unknown_sources: config.register_unknown_sources,
            sources: config.sources,
            last_update_ids,
        };
        proof {
            assert(book.wf());
            assert forall|x: Seq<char>| #[trigger]
                book.revision_of(x) == Option::<u64>::None by {
                if book.knows_source(x) {
                    let sx = book.source_slot(x);
                    assert(book.last_update_ids@[sx] == Option::<u64>::None);
                }
            }
            // A fresh book has seen nothing, so nothing can be stale for it,
            // and a listed configured source is a known one.
            assert(!book.stale(parsed_update@));
            let src = parsed_update@.source();
            if config.lists_source(src) {
                let sx = choose|s: int|
                    0 <= s < config.sources.len() && (#[trigger] config.sources[s])@ == src;
                assert(book.sources[sx]@ == src);
                assert(book.knows_source(src));
            }
            if book.knows_source(src) {
                let sx = book.source_slot(src);
                assert(config.sources[sx]@ == src);
                assert(config.lists_source(src));
            }
        }
        let ghost book0 = book;
        match book.merge_parse_update(parsed_update) {
            Ok(MergeOutcome::Applied) => {
                proof {
                    let u = parsed_update@;
                    let src = u.source();
                    let e = config.scale_exp;
                    assert forall|k: int| #[trigger]
                        snapshot_at(book.bid_ladder, u.bids, k, src, e) by {
                        assert(applied_at(book0.bid_ladder, book.bid_ladder, u.bids, k, src, e));
                        assert(!book0.bid_ladder.has_quote(k, src));
                    }
                    assert forall|k: int, x2: Seq<char>|
                        x2 != src implies !(#[trigger] book.bid_ladder.has_quote(k, x2)) by {
                        assert(slot_kept(book0.bid_ladder, book.bid_ladder, k, x2));
                        assert(!book0.bid_ladder.has_quote(k, x2));
                    }
                    assert forall|k: int| #[trigger]
                        snapshot_at(book.ask_ladder, u.asks, k, src, e) by {
                        assert(applied_at(book0.ask_ladder, book.ask_ladder, u.asks, k, src, e));
                        assert(!book0.ask_ladder.has_quote(k, src));
                    }
                    assert forall|k: int, x2: Seq<char>|
                        x2 != src implies !(#[trigger] book.ask_ladder.has_quote(k, x2)) by {
                        assert(slot_kept(book0.ask_ladder, book.ask_ladder, k, x2));
                        assert(!book0.ask_ladder.has_quote(k, x2));
                    }
                    assert forall|x: Seq<char>| #[trigger]
                        book.knows_source(x) <==> (config.lists_source(x) || x == src) by {
                        assert(book.knows_source(x) <==> (book0.knows_source(x) || x == src));
                        if config.lists_source(x) {
                            let sx = choose|s: int|
                                0 <= s < config.sources.len() && (#[trigger] config.sources[s])@
                                    == x;
                            assert(book0.sources[sx]@ == x);
                        }
                        if book0.knows_source(x) {
                            let sx = book0.source_slot(x);
                            assert(config.sources[sx]@ == x);
                        }
                    }
                }
                Ok(book)
            },
            Ok(MergeOutcome::Stale) => {
                // Unreachable: a fresh book has no revision to be behind.
                proof {
                    assert(false);
                }
                Err(BookError::AmbiguousRecord)
            },
            Err(err) => Err(err),
        }
    }

    /// Applies one canonical record to the book. The gates run in order —
    /// attribution (both sides empty or mixed exchanges: ambiguous), source
    /// policy, staleness, quote validation — and only a record that passes
    /// them all mutates the book: the source's revision is committed and the
    /// bid and ask quotes are applied in order. A stale record is a no-op
    /// reported as such, never an error; every refusal leaves the book
    /// exactly as it was.
    pub fn merge_parse_update(&mut self, parsed_update: ParsedUpdate) -> (r: Result<
        MergeOutcome,
        BookError,
    >)
        requires
            old(self).wf(),
        ensures
            final(self).wf(),
            final(self).same_config(*old(self)),
            revisions_monotone(*old(self), *final(self)),
            match r {
                Ok(outcome) => !parsed_update@.ambiguous() && match outcome {
                    MergeOutcome::Stale => *final(self) == *old(self) && old(self).stale(
                        parsed_update@,
                    ),
                    MergeOutcome::Applied => ({
                        let u = parsed_update@;
                        let src = u.source();
                        let e = old(self).scale_exp;
                        &&& !old(self).stale(u)
                        &&& u.quotes_valid(e)
                        &&& old(self).knows_source(src) || old(self).register_unknown_sources
                        &&& final(self).revision_of(src) == Some(u.last_update_id)
                        &&& forall|x: Seq<char>|
                            x != src ==> #[trigger] final(self).revision_of(x) == old(
                                self,
                            ).revision_of(x)
                        &&& forall|x: Seq<char>|
                            #[trigger] final(self).knows_source(x) <==> (old(self).knows_source(x)
                                || x == src)
                        &&& side_applied(
                            old(self).bid_ladder,
                            final(self).bid_ladder,
                            u.bids,
                            src,
                            e,
                        )
                        &&& side_applied(
                            old(self).ask_ladder,
                            final(self).ask_ladder,
                            u.asks,
                            src,
                            e,
                        )
                    }),
                },
                Err(err) => *final(self) == *old(self) && match err {
                    BookError::AmbiguousRecord => parsed_update@.ambiguous(),
                    BookError::UnknownSource => !parsed_update@.ambiguous() && !old(
                        self,
                    ).knows_source(parsed_update@.source()) && !old(self).register_unknown_sources,
                    BookError::QuoteOutOfRange => !parsed_update@.ambiguous() && (old(
                        self,
                    ).knows_source(parsed_update@.source()) || old(self).register_unknown_sources)
                        && !old(self).stale(parsed_update@) && !parsed_update@.quotes_valid(
                        old(self).scale_exp,
                    ),
                    _ => false,
                },
            },
    {
        let ghost u = parsed_update@;
        // Attribution: a record with no quotes names no source.
        if parsed_update.bids.len() == 0 && parsed_update.asks.len() == 0 {
            return Err(BookError::AmbiguousRecord);
        }
        let source: String = if parsed_update.bids.len() > 0 {
            parsed_update.bids[0].exchange.clone()
        } else {
            parsed_update.asks[0].exchange.clone()
        };
        proof {
            assert(source@ == u.source());
        }
        // Attribution: every quote must agree on the source.
        let mut i: usize = 0;
        while i < parsed_update.bids.len()
            invariant
                i <= parsed_update.bids.len(),
                source@ == u.source(),
                u == parsed_update@,
                *self == *old(self),
                old(self).wf(),
                forall|i0: int|
                    0 <= i0 < i ==> (#[trigger] u.bids[i0]).exchange == u.source(),
            decreases parsed_update.bids.len() - i,
        {
            if !(parsed_update.bids[i].exchange == source) {
                proof {
                    assert(u.bids[i as int].exchange != u.source());
                }
                return Err(BookError::AmbiguousRecord);
            }
            i = i + 1;
        }
        let mut i: usize = 0;
        while i < parsed_update.asks.len()
            invariant
                i <= parsed_update.asks.len(),
                source@ == u.source(),
                u == parsed_update@,
                *self == *old(self),
                old(self).wf(),
                forall|i0: int|
                    0 <= i0 < i ==> (#[trigger] u.asks[i0]).exchange == u.source(),
            decreases parsed_update.asks.len() - i,
        {
            if !(parsed_update.asks[i].exchange == source) {
                proof {
                    assert(u.asks[i as int].exchange != u.source());
                }
                return Err(BookError::AmbiguousRecord);
            }
            i = i + 1;
        }
        proof {
            assert(u.single_source());
        }
        // Source policy.
        let slot_found = self.find_source_slot(&source);
        match slot_found {
            Some(s0) => {
                proof {
                    self.lemma_source_slot_is(s0 as int);
                }
                // Staleness gate: discard whole, report a no-op.
                match self.last_update_ids[s0] {
                    Some(r0) => {
                        if parsed_update.last_update_id <= r0 {
                            return Ok(MergeOutcome::Stale);
                        }
                    },
                    None => {},
                }
            },
            None => {
                if !self.register_unknown_sources {
                    return Err(BookError::UnknownSource);
                }
            },
        }
        proof {
            assert(!self.stale(u));
        }
        // Quote validation: the whole record is admitted or none of it.
        let mut i: usize = 0;
        while i < parsed_update.bids.len()
            invariant
                i <= parsed_update.bids.len(),
                u == parsed_update@,
                *self == *old(self),
                old(self).wf(),
                !u.ambiguous(),
                old(self).knows_source(u.source()) || old(self).register_unknown_sources,
                !old(self).stale(u),
                forall|i0: int|
                    0 <= i0 < i ==> quote_valid(#[trigger] u.bids[i0], self.scale_exp),
            decreases parsed_update.bids.len() - i,
        {
            if parsed_update.bids[i].price.scale > MAX_SCALE || parsed_update.bids[i].amount.scale
                > MAX_SCALE {
                proof {
                    assert(!quote_valid(u.bids[i as int], old(self).scale_exp));
                }
                return Err(BookError::QuoteOutOfRange);
            }
            match crate::codec::price_to_key(&parsed_update.bids[i].price, self.scale_exp) {
                Some(_) => {},
                None => {
                    proof {
                        assert(!quote_valid(u.bids[i as int], old(self).scale_exp));
                    }
                    return Err(BookError::QuoteOutOfRange);
                },
            }
            i = i + 1;
        }
        let mut i: usize = 0;
        while i < parsed_update.asks.len()
            invariant
                i <= parsed_update.asks.len(),
                u == parsed_update@,
                *self == *old(self),
                old(self).wf(),
                !u.ambiguous(),
                old(self).knows_source(u.source()) || old(self).register_unknown_sources,
                !old(self).stale(u),
                forall|i0: int|
                    0 <= i0 < i ==> quote_valid(#[trigger] u.asks[i0], self.scale_exp),
            decreases parsed_update.asks.len() - i,
        {
            if parsed_update.asks[i].price.scale > MAX_SCALE || parsed_update.asks[i].amount.scale
                > MAX_SCALE {
                proof {
                    assert(!quote_valid(u.asks[i as int], old(self).scale_exp));
                }
                return Err(BookError::QuoteOutOfRange);
            }
            match crate::codec::price_to_key(&parsed_update.asks[i].price, self.scale_exp) {
                Some(_) => {},
                None => {
                    proof {
                        assert(!quote_valid(u.asks[i as int], old(self).scale_exp));
                    }
                    return Err(BookError::QuoteOutOfRange);
                },
            }
            i = i + 1;
        }
        proof {
            assert(u.quotes_valid(self.scale_exp));
        }
        let ghost b0 = *self;
        // Commit the source's revision; register the source first if new.
        let s: usize = match slot_found {
            Some(s0) => s0,
            None => {
                let ns = self.sources.len();
                self.sources.push(source.clone());
                self.last_update_ids.push(None);
                ns
            },
        };
        let _ = self.last_update_ids.remove(s);
        self.last_update_ids.insert(s, Some(parsed_update.last_update_id));
        proof {
            let src = u.source();
            match slot_found {
                Some(s0) => {
                    assert(self.sources@ == b0.sources@);
                    assert(self.last_update_ids@ =~= b0.last_update_ids@.update(
                        s0 as int,
                        Some(parsed_update.last_update_id),
                    ));
                },
                None => {
                    assert(self.sources@ == b0.sources@.push(source));
                    assert(self.last_update_ids@ =~= b0.last_update_ids@.push(
                        Some(parsed_update.last_update_id),
                    ));
                },
            }
            assert(self.wf()) by {
                assert forall|s1: int, s2: int|
                    0 <= s1 < s2 < self.sources.len() implies (#[trigger] self.sources[s1])@ != (
                #[trigger] self.sources[s2])@ by {
                    if s2 < b0.sources.len() {
                        assert(b0.sources[s1]@ != b0.sources[s2]@);
                    } else {
                        assert(b0.sources[s1]@ != src);
                    }
                }
            }
            self.lemma_source_slot_is(s as int);
            assert(self.revision_of(src) == Some(parsed_update.last_update_id));
            assert forall|x: Seq<char>|
                x != src implies #[trigger] self.revision_of(x) == b0.revision_of(x) by {
                if b0.knows_source(x) {
                    let sx = b0.source_slot(x);
                    b0.lemma_source_slot_is(sx);
                    assert(self.sources[sx]@ == x);
                    self.lemma_source_slot_is(sx);
                    assert(sx != s as int);
                }
                if self.knows_source(x) {
                    let sx = self.source_slot(x);
                    assert(sx != s as int || self.sources[sx]@ == src);
                    assert(sx < b0.sources.len());
                    assert(b0.sources[sx]@ == x);
                }
            }
            assert forall|x: Seq<char>|
                #[trigger] self.knows_source(x) <==> (b0.knows_source(x) || x == src) by {
                if self.knows_source(x) {
                    let sx = self.source_slot(x);
                    if sx < b0.sources.len() {
                        assert(b0.sources[sx]@ == x);
                    }
                }
                if b0.knows_source(x) {
                    let sx = b0.source_slot(x);
                    b0.lemma_source_slot_is(sx);
                    assert(self.sources[sx]@ == x);
                }
            }
        }
        let ghost b1 = *self;
        let ghost src = u.source();
        let ghost e = self.scale_exp;
        // Apply the bid quotes in order.
        let mut i: usize = 0;
        while i < parsed_update.bids.len()
            invariant
                i <= parsed_update.bids.len(),
                self.wf(),
                self.same_config(b1),
                self.same_sources(b1),
                self.ask_ladder == b1.ask_ladder,
                self.best_ask_key == b1.best_ask_key,
                side_applied(b1.bid_ladder, self.bid_ladder, u.bids.take(i as int), src, e),
                u == parsed_update@,
                src == u.source(),
                e == b1.scale_exp,
                b1.wf(),
                u.quotes_valid(e),
                u.single_source(),
            decreases parsed_update.bids.len() - i,
        {
            let q = parsed_update.bids[i].duplicate();
            let ghost prev = *self;
            let res = self.merge_bid(q);
            proof {
                assert(q@ == u.bids[i as int]);
                assert(quote_valid(u.bids[i as int], e));
            }
            match res {
                Ok(()) => {},
                Err(_) => {
                    proof {
                        assert(false);
                    }
                },
            }
            proof {
                assert(u.bids[i as int].exchange == src);
                lemma_side_applied_step(
                    b1.bid_ladder,
                    prev.bid_ladder,
                    self.bid_ladder,
                    u.bids,
                    i as int,
                    src,
                    e,
                );
            }
            i = i + 1;
        }
        proof {
            assert(u.bids.take(parsed_update.bids.len() as int) =~= u.bids);
        }
        let ghost b2 = *self;
        // Apply the ask quotes in order.
        let mut i: usize = 0;
        while i < parsed_update.asks.len()
            invariant
                i <= parsed_update.asks.len(),
                self.wf(),
                self.same_config(b2),
                self.same_sources(b2),
                self.bid_ladder == b2.bid_ladder,
                self.best_bid_key == b2.best_bid_key,
                side_applied(b2.ask_ladder, self.ask_ladder, u.asks.take(i as int), src, e),
                u == parsed_update@,
                src == u.source(),
                e == b2.scale_exp,
                b2.wf(),
                u.quotes_valid(e),
                u.single_source(),
            decreases parsed_update.asks.len() - i,
        {
            let q = parsed_update.asks[i].duplicate();
            let ghost prev = *self;
            let res = self.merge_ask(q);
            proof {
                assert(q@ == u.asks[i as int]);
                assert(quote_valid(u.asks[i as int], e));
            }
            match res {
                Ok(()) => {},
                Err(_) => {
                    proof {
                        assert(false);
                    }
                },
            }
            proof {
                assert(u.asks[i as int].exchange == src);
                lemma_side_applied_step(
                    b2.ask_ladder,
                    prev.ask_ladder,
                    self.ask_ladder,
                    u.asks,
                    i as int,
                    src,
                    e,
                );
            }
            i = i + 1;
        }
        proof {
            assert(u.asks.take(parsed_update.asks.len() as int) =~= u.asks);
            assert(self.bid_ladder == b2.bid_ladder);
            assert(b0 == *old(self));
            // The registry reads as it did right after the commit.
            assert(self.sources@ == b1.sources@ && self.last_update_ids@ == b1.last_update_ids@);
            assert forall|x: Seq<char>| #[trigger]
                self.knows_source(x) <==> b1.knows_source(x) by {
                if self.knows_source(x) {
                    let sx = self.source_slot(x);
                    assert(b1.sources[sx]@ == x);
                }
                if b1.knows_source(x) {
                    let sx = b1.source_slot(x);
                    assert(self.sources[sx]@ == x);
                }
            }
            assert forall|x: Seq<char>| #[trigger]
                self.revision_of(x) == b1.revision_of(x) by {
                if self.knows_source(x) {
                    let sx = self.source_slot(x);
                    assert(b1.sources[sx]@ == x);
                }
                if b1.knows_source(x) {
                    let sx = b1.source_slot(x);
                    assert(self.sources[sx]@ == x);
                }
            }
            assert(self.revision_of(src) == Some(parsed_update.last_update_id));
            assert forall|x: Seq<char>|
                x != src implies #[trigger] self.revision_of(x) == old(self).revision_of(x) by {
                assert(self.revision_of(x) == b1.revision_of(x));
                assert(b1.revision_of(x) == b0.revision_of(x));
            }
            assert forall|x: Seq<char>| #[trigger]
                self.knows_source(x) <==> (old(self).knows_source(x) || x == src) by {
                assert(self.knows_source(x) <==> b1.knows_source(x));
                assert(b1.knows_source(x) <==> (b0.knows_source(x) || x == src));
            }
            // Neither the commit nor the other side's loop touched a ladder.
            assert(b1.bid_ladder == b0.bid_ladder && b1.ask_ladder == b0.ask_ladder);
            assert(b2.ask_ladder == b1.ask_ladder);
            assert(side_applied(old(self).bid_ladder, self.bid_ladder, u.bids, src, e)) by {
                assert(u.bids.take(parsed_update.bids.len() as int) =~= u.bids);
                assert(side_applied(
                    b1.bid_ladder,
                    b2.bid_ladder,
                    u.bids.take(parsed_update.bids.len() as int),
                    src,
                    e,
                ));
            }
            assert(side_applied(old(self).ask_ladder, self.ask_ladder, u.asks, src, e)) by {
                assert(side_applied(
                    b2.ask_ladder,
                    self.ask_ladder,
                    u.asks.take(parsed_update.asks.len() as int),
                    src,
                    e,
                ));
            }
            // Revisions moved only at the committed source, and upward.
            assert(revisions_monotone(b0, *self)) by {
                assert forall|x: Seq<char>|
                    match #[trigger] b0.revision_of(x) {
                        Some(r0) => match self.revision_of(x) {
                            Some(r1) => r1 >= r0,
                            None => false,
                        },
                        None => true,
                    } by {
                    if x != src {
                        assert(self.revision_of(x) == b1.revision_of(x));
                        assert(b1.revision_of(x) == b0.revision_of(x));
                    } else {
                        assert(self.revision_of(x) == b1.revision_of(x));
                    }
                }
            }
        }
        Ok(MergeOutcome::Applied)
    }

    /// Applies one bid quote: a removal when the amount is exactly zero, an
    /// upsert otherwise, raising or rescanning `best_bid_key` as needed. A
    /// quote whose decimals cannot be keyed is refused with the book
    /// untouched.
    pub fn merge_bid(&mut self, level: Level) -> (r: Result<(), BookError>)
        requires
            old(self).wf(),
        ensures
            final(self).wf(),
            final(self).same_config(*old(self)),
            final(self).same_sources(*old(self)),
            final(self).ask_ladder == old(self).ask_ladder,
            final(self).best_ask_key == old(self).best_ask_key,
            match r {
                Ok(()) => quote_valid(level@, old(self).scale_exp) && (if level@.amount.is_zero() {
                    removed(
                        old(self).bid_ladder,
                        final(self).bid_ladder,
                        key_of(level@.price, old(self).scale_exp),
                        level@.exchange,
                    )
                } else {
                    upserted(
                        old(self).bid_ladder,
                        final(self).bid_ladder,
                        key_of(level@.price, old(self).scale_exp),
                        level@,
                    )
                }),
                Err(err) => err == BookError::QuoteOutOfRange && *final(self) == *old(self)
                    && !quote_valid(level@, old(self).scale_exp),
            },
    {
        if level.price.scale > MAX_SCALE || level.amount.scale > MAX_SCALE {
            return Err(BookError::QuoteOutOfRange);
        }
        let key = match price_to_key(&level.price, self.scale_exp) {
            Some(k) => k,
            None => {
                return Err(BookError::QuoteOutOfRange);
            },
        };
        if is_zero_amount_level(&level) {
            self.bid_ladder.remove(key, &level.exchange);
            match self.best_bid_key {
                Some(b) => {
                    if b == key && !self.bid_ladder.has_level(key) {
                        self.best_bid_key = self.bid_ladder.max_key();
                    }
                },
                None => {},
            }
        } else {
            self.bid_ladder.upsert(key, level);
            match self.best_bid_key {
                Some(b) => {
                    if key > b {
                        self.best_bid_key = Some(key);
                    }
                },
                None => {
                    self.best_bid_key = Some(key);
                },
            }
        }
        Ok(())
    }

    /// Applies one ask quote; the mirror image of [`Self::merge_bid`], with
    /// `best_ask_key` following the least live key.
    pub fn merge_ask(&mut self, level: Level) -> (r: Result<(), BookError>)
        requires
            old(self).wf(),
        ensures
            final(self).wf(),
            final(self).same_config(*old(self)),
            final(self).same_sources(*old(self)),
            final(self).bid_ladder == old(self).bid_ladder,
            final(self).best_bid_key == old(self).best_bid_key,
            match r {
                Ok(()) => quote_valid(level@, old(self).scale_exp) && (if level@.amount.is_zero() {
                    removed(
                        old(self).ask_ladder,
                        final(self).ask_ladder,
                        key_of(level@.price, old(self).scale_exp),
                        level@.exchange,
                    )
                } else {
                    upserted(
                        old(self).ask_ladder,
                        final(self).ask_ladder,
                        key_of(level@.price, old(self).scale_exp),
                        level@,
                    )
                }),
                Err(err) => err == BookError::QuoteOutOfRange && *final(self) == *old(self)
                    && !quote_valid(level@, old(self).scale_exp),
            },
    {
        if level.price.scale > MAX_SCALE || level.amount.scale > MAX_SCALE {
            return Err(BookError::QuoteOutOfRange);
        }
        let key = match price_to_key(&level.price, self.scale_exp) {
            Some(k) => k,
            None => {
                return Err(BookError::QuoteOutOfRange);
            },
        };
        if is_zero_amount_level(&level) {
            self.ask_ladder.remove(key, &level.exchange);
            match self.best_ask_key {
                Some(a) => {
                    if a == key && !self.ask_ladder.has_level(key) {
                        self.best_ask_key = self.ask_ladder.min_key();
                    }
                },
                None => {},
            }
        } else {
            self.ask_ladder.upsert(key, level);
            match self.best_ask_key {
                Some(a) => {
                    if key < a {
                        self.best_ask_key = Some(key);
                    }
                },
                None => {
                    self.best_ask_key = Some(key);
                },
            }
        }
        Ok(())
    }
}

/// The index of the last quote in `qs` whose price keys to `k` under scale
/// exponent `e`, or `-1` when no quote lands there. Applying `qs` in order
/// leaves slot `k` governed by that quote alone.
pub open spec fn last_touch(qs: Seq<LevelV>, k: int, e: u32) -> int
    decreases qs.len(),
{
    if qs.len() == 0 {
        -1
    } else if key_of(qs.last().price, e) == k {
        qs.len() - 1
    } else {
        last_touch(qs.drop_last(), k, e)
    }
}

pub proof fn lemma_last_touch_in_range(qs: Seq<LevelV>, k: int, e: u32)
    ensures
        -1 <= last_touch(qs, k, e) < qs.len(),
        last_touch(qs, k, e) >= 0 ==> key_of(qs[last_touch(qs, k, e)].price, e) == k,
    decreases qs.len(),
{
    if qs.len() > 0 && key_of(qs.last().price, e) != k {
        lemma_last_touch_in_range(qs.drop_last(), k, e);
        assert(qs.drop_last().len() == qs.len() - 1);
        let j = last_touch(qs.drop_last(), k, e);
        if j >= 0 {
            assert(qs.drop_last()[j] == qs[j]);
        }
    }
}

pub proof fn lemma_last_touch_extend(qs: Seq<LevelV>, i: int, k: int, e: u32)
    requires
        0 <= i < qs.len(),
    ensures
        last_touch(qs.take(i + 1), k, e) == (if key_of(qs[i].price, e) == k {
            i
        } else {
            last_touch(qs.take(i), k, e)
        }),
{
    let t = qs.take(i + 1);
    assert(t.drop_last() =~= qs.take(i));
    assert(t.last() == qs[i]);
}

/// Slot `(k, x)` of `l1` reads as slot `(k, x)` of `l0`.
pub open spec fn slot_kept(l0: Ladder, l1: Ladder, k: int, x: Seq<char>) -> bool {
    &&& (l1.has_quote(k, x) <==> l0.has_quote(k, x))
    &&& (l0.has_quote(k, x) ==> l1.quote_at(k, x) == l0.quote_at(k, x))
}

/// Slot `(k, x)` of `l1` is governed by the last quote of `qs` landing on
/// key `k` — removed if that quote's amount is zero, equal to it otherwise —
/// or reads as in `l0` when no quote of `qs` lands on `k`.
pub open spec fn applied_at(
    l0: Ladder,
    l1: Ladder,
    qs: Seq<LevelV>,
    k: int,
    x: Seq<char>,
    e: u32,
) -> bool {
    let j = last_touch(qs, k, e);
    if j >= 0 {
        if qs[j].amount.is_zero() {
            !l1.has_quote(k, x)
        } else {
            l1.has_quote(k, x) && l1.quote_at(k, x) == qs[j]
        }
    } else {
        slot_kept(l0, l1, k, x)
    }
}

/// How one side's ladder reads after the quotes `qs` — all of exchange `x` —
/// are applied in order to `l0` under scale exponent `e`: each key is
/// governed by the last quote of `qs` landing on it, and other exchanges'
/// slots read exactly as in `l0`.
pub open spec fn side_applied(l0: Ladder, l1: Ladder, qs: Seq<LevelV>, x: Seq<char>, e: u32) -> bool {
    &&& forall|k: int| #[trigger] applied_at(l0, l1, qs, k, x, e)
    &&& forall|k: int, x2: Seq<char>| x2 != x ==> #[trigger] slot_kept(l0, l1, k, x2)
}

/// Slot `(k, x)` of `l1` holds exactly the last quote of `qs` landing on `k`
/// if that quote is live, and nothing otherwise.
pub open spec fn snapshot_at(l1: Ladder, qs: Seq<LevelV>, k: int, x: Seq<char>, e: u32) -> bool {
    let j = last_touch(qs, k, e);
    if j >= 0 && !qs[j].amount.is_zero() {
        l1.has_quote(k, x) && l1.quote_at(k, x) == qs[j]
    } else {
        !l1.has_quote(k, x)
    }
}

/// How one side's ladder reads when the quotes `qs` — all of exchange `x` —
/// are applied in order to an empty side.
pub open spec fn side_from_snapshot(l1: Ladder, qs: Seq<LevelV>, x: Seq<char>, e: u32) -> bool {
    &&& forall|k: int| #[trigger] snapshot_at(l1, qs, k, x, e)
    &&& forall|k: int, x2: Seq<char>| x2 != x ==> !(#[trigger] l1.has_quote(k, x2))
}

/// Applying one more quote of the record keeps the side characterized.
proof fn lemma_side_applied_step(
    l0: Ladder,
    l1: Ladder,
    l2: Ladder,
    qs: Seq<LevelV>,
    i: int,
    x: Seq<char>,
    e: u32,
)
    requires
        0 <= i < qs.len(),
        qs[i].exchange == x,
        side_applied(l0, l1, qs.take(i), x, e),
        if qs[i].amount.is_zero() {
            removed(l1, l2, key_of(qs[i].price, e), x)
        } else {
            upserted(l1, l2, key_of(qs[i].price, e), qs[i])
        },
    ensures
        side_applied(l0, l2, qs.take(i + 1), x, e),
{
    let ki = key_of(qs[i].price, e);
    let t0 = qs.take(i);
    let t1 = qs.take(i + 1);
    assert forall|k: int| #[trigger] applied_at(l0, l2, t1, k, x, e) by {
        lemma_last_touch_extend(qs, i, k, e);
        lemma_last_touch_in_range(t0, k, e);
        assert(applied_at(l0, l1, t0, k, x, e));
        if k == ki {
            assert(last_touch(t1, k, e) == i);
            assert(t1[i] == qs[i]);
        } else {
            assert(last_touch(t1, k, e) == last_touch(t0, k, e));
            // the per-quote operation left slot (k, x) alone
            assert(l2.has_quote(k, x) <==> l1.has_quote(k, x));
            if l1.has_quote(k, x) {
                assert(l2.quote_at(k, x) == l1.quote_at(k, x));
            }
            let j = last_touch(t0, k, e);
            if j >= 0 {
                assert(t1[j] == t0[j]);
            }
        }
    }
    assert forall|k: int, x2: Seq<char>| x2 != x implies #[trigger] slot_kept(l0, l2, k, x2) by {
        assert(slot_kept(l0, l1, k, x2));
        assert(l2.has_quote(k, x2) <==> l1.has_quote(k, x2));
        if l1.has_quote(k, x2) {
            assert(l2.quote_at(k, x2) == l1.quote_at(k, x2));
        }
    }
}

/// Revision counters never move backwards between two book states.
pub open spec fn revisions_monotone(o: OrderBook, n: OrderBook) -> bool {
    forall|x: Seq<char>|
        match #[trigger] o.revision_of(x) {
            Some(r0) => match n.revision_of(x) {
                Some(r1) => r1 >= r0,
                None => false,
            },
            None => true,
        }
}

/// Best-price correctness: in a well-formed book each best pointer names
/// exactly the most aggressive key carrying at least one live quote — the
/// greatest for bids, the least for asks — or nothing while the side is
/// empty. Every constructor and mutator of [`OrderBook`] ensures `wf`, so
/// this holds after any sequence of updates.
pub proof fn lemma_best_price_correct(book: OrderBook)
    requires
        book.wf(),
    ensures
        match book.best_bid_key {
            None => forall|k: int| !book.bid_ladder.has_key(k),
            Some(b) => book.bid_ladder.has_key(b as int) && forall|k: int|
                #[trigger] book.bid_ladder.has_key(k) ==> k <= b,
        },
        match book.best_ask_key {
            None => forall|k: int| !book.ask_ladder.has_key(k),
            Some(a) => book.ask_ladder.has_key(a as int) && forall|k: int|
                #[trigger] book.ask_ladder.has_key(k) ==> k >= a,
        },
{
}

/// The removal test of the codec, applied to a quote.
fn is_zero_amount_level(level: &Level) -> (r: bool)
    ensures
        r == level@.amount.is_zero(),
{
    crate::codec::is_zero_amount(&level.amount)
}

} // verus!
