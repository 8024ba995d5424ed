use orderbook_merge::codec::{is_zero_amount, key_to_dec, price_to_key, spread_from_keys, Dec};

#[test]
fn price_keys_by_scaling_and_truncating() {
    // 8.0 under a 10^9 scale factor
    assert_eq!(
        price_to_key(
            &Dec {
                mantissa: 80,
                scale: 1
            },
            9
        ),
        Some(8_000_000_000)
    );
    // a price finer than the scale factor is truncated, not rounded
    assert_eq!(
        price_to_key(
            &Dec {
                mantissa: 123456789012,
                scale: 10
            },
            9
        ),
        Some(12_345_678_901)
    );
    // a scaled price beyond the key space is reported, not wrapped
    assert_eq!(
        price_to_key(
            &Dec {
                mantissa: u64::MAX,
                scale: 0
            },
            9
        ),
        None
    );
}

#[test]
fn numerically_equal_prices_share_a_key() {
    let a = Dec {
        mantissa: 8,
        scale: 0,
    };
    let b = Dec {
        mantissa: 800,
        scale: 2,
    };
    assert_eq!(price_to_key(&a, 9), price_to_key(&b, 9));
}

#[test]
fn zero_test_is_exact() {
    assert!(is_zero_amount(&Dec {
        mantissa: 0,
        scale: 5
    }));
    // one part in 10^18 is not zero
    assert!(!is_zero_amount(&Dec {
        mantissa: 1,
        scale: 18
    }));
}

#[test]
fn keys_convert_back_to_decimals() {
    let d = key_to_dec(8_000_000_000, 9);
    assert_eq!(d.mantissa, 8_000_000_000);
    assert_eq!(d.scale, 9);
    let s = spread_from_keys(10_000_000_000, 8_000_000_000, 9);
    assert_eq!(s.mantissa, 2_000_000_000);
    assert_eq!(s.scale, 9);
    // a crossed pair gives a negative spread, never a wrapped one
    let neg = spread_from_keys(8_000_000_000, 10_000_000_000, 9);
    assert_eq!(neg.mantissa, -2_000_000_000);
}
