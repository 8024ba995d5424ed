//! Price and volume codec.
//!
//! Prices and amounts enter the book as non-negative fixed-point decimals
//! (`Dec`), a mantissa with a decimal scale. A price becomes a ladder key by
//! scaling it with a configured power of ten and truncating; an amount is a
//! removal instruction exactly when its mantissa is zero. Keeping all of this
//! in integers isolates every precision concern in one place.

use vstd::prelude::*;
use vstd::arithmetic::div_mod::{
    lemma_div_by_multiple, lemma_div_denominator, lemma_div_multiples_vanish,
    lemma_fundamental_div_mod, lemma_mod_multiples_basic,
};
use vstd::arithmetic::mul::{
    lemma_mul_inequality, lemma_mul_is_associative, lemma_mul_is_commutative,
    lemma_mul_strict_inequality, lemma_mul_upper_bound,
};

verus! {

/// Largest decimal scale a well-formed `Dec` may carry; bounded so that every
/// cross-multiplied comparison fits comfortably in `u128` arithmetic.
pub const MAX_SCALE: u32 = 18;

/// A non-negative fixed-point decimal: the number `mantissa / 10^scale`.
#[derive(Clone, Copy, Debug, PartialEq, Eq, Structural)]
pub struct Dec {
    pub mantissa: u64,
    pub scale: u32,
}

/// A signed fixed-point decimal: the number `mantissa / 10^scale`.
/// Used for the inside spread, which is negative when the book is crossed.
#[derive(Clone, Copy, Debug, PartialEq, Eq, Structural)]
pub struct SignedDec {
    pub mantissa: i128,
    pub scale: u32,
}

/// `10^n`.
pub open spec fn pow10(n: nat) -> nat
    decreases n,
{
    if n == 0 {
        1
    } else {
        10 * pow10((n - 1) as nat)
    }
}

impl Dec {
    /// Well-formed: the scale is small enough for exact integer comparison.
    pub open spec fn wf(self) -> bool {
        self.scale <= MAX_SCALE
    }

    /// The decimal is exactly zero. Truncated-to-zero values such as
    /// `1 / 10^9` have a non-zero mantissa and are not zero.
    pub open spec fn is_zero(self) -> bool {
        self.mantissa == 0
    }

    /// `self` and `other` denote the same number (cross-multiplication).
    pub open spec fn same_value(self, other: Dec) -> bool {
        self.mantissa * pow10(other.scale as nat) == other.mantissa * pow10(self.scale as nat)
    }

    /// `self` denotes a strictly smaller number than `other`.
    pub open spec fn lt_value(self, other: Dec) -> bool {
        self.mantissa * pow10(other.scale as nat) < other.mantissa * pow10(self.scale as nat)
    }
}

/// The ladder key of price `p` under scale exponent `e`: `p` scaled by `10^e`
/// and truncated toward zero.
pub open spec fn key_of(p: Dec, e: u32) -> int {
    (p.mantissa * pow10(e as nat)) as int / pow10(p.scale as nat) as int
}

/// The scale exponent `e` resolves `p` exactly: scaling loses no digits.
pub open spec fn exactly_keyed(p: Dec, e: u32) -> bool {
    (p.mantissa * pow10(e as nat)) as int % (pow10(p.scale as nat) as int) == 0
}

pub proof fn lemma_pow10_pos(n: nat)
    ensures
        pow10(n) >= 1,
    decreases n,
{
    if n > 0 {
        lemma_pow10_pos((n - 1) as nat);
    }
}

pub proof fn lemma_pow10_mono(m: nat, n: nat)
    requires
        m <= n,
    ensures
        pow10(m) <= pow10(n),
    decreases n,
{
    if m < n {
        lemma_pow10_mono(m, (n - 1) as nat);
        lemma_pow10_pos((n - 1) as nat);
    }
}

pub proof fn lemma_pow10_adds(m: nat, n: nat)
    ensures
        pow10(m + n) == pow10(m) * pow10(n),
    decreases m,
{
    if m == 0 {
        assert(pow10(n) == 1 * pow10(n));
    } else {
        lemma_pow10_adds((m - 1) as nat, n);
        lemma_mul_is_associative(10, pow10((m - 1) as nat) as int, pow10(n) as int);
    }
}

pub proof fn lemma_pow10_18_value()
    ensures
        pow10(18) == 1000000000000000000,
{
    reveal_with_fuel(pow10, 19);
}

/// `10^n` for `n` up to `MAX_SCALE`.
pub fn pow10_u64(n: u32) -> (r: u64)
    requires
        n <= MAX_SCALE,
    ensures
        r == pow10(n as nat),
{
    let mut r: u64 = 1;
    let mut i: u32 = 0;
    while i < n
        invariant
            i <= n,
            n <= MAX_SCALE,
            r == pow10(i as nat),
        decreases n - i,
    {
        proof {
            lemma_pow10_mono((i + 1) as nat, n as nat);
            lemma_pow10_18_value();
            lemma_pow10_mono(n as nat, 18);
        }
        r = r * 10;
        i = i + 1;
    }
    r
}

/// Bound used to rule out overflow in `u128` cross-multiplications.
proof fn lemma_scaled_product_bound(m: u64, s: u32)
    requires
        s <= MAX_SCALE,
    ensures
        m * pow10(s as nat) <= u64::MAX * pow10(18),
        u64::MAX * pow10(18) < u128::MAX,
{
    lemma_pow10_mono(s as nat, 18);
    lemma_mul_upper_bound(m as int, u64::MAX as int, pow10(s as nat) as int, pow10(18) as int);
    lemma_pow10_18_value();
}

/// Exact zero test on the decimal representation: only a mantissa of zero is
/// zero; no epsilon is involved.
pub fn is_zero_amount(amount: &Dec) -> (r: bool)
    ensures
        r == amount.is_zero(),
{
    amount.mantissa == 0
}

/// Strict numeric comparison of two well-formed decimals.
pub fn dec_lt(a: &Dec, b: &Dec) -> (r: bool)
    requires
        a.wf(),
        b.wf(),
    ensures
        r == a.lt_value(*b),
{
    proof {
        lemma_scaled_product_bound(a.mantissa, b.scale);
        lemma_scaled_product_bound(b.mantissa, a.scale);
    }
    let left: u128 = (a.mantissa as u128) * (pow10_u64(b.scale) as u128);
    let right: u128 = (b.mantissa as u128) * (pow10_u64(a.scale) as u128);
    left < right
}

/// Converts a well-formed decimal price into its ladder key under scale
/// exponent `e`, or reports that the scaled value does not fit a `u64`.
pub fn price_to_key(price: &Dec, e: u32) -> (r: Option<u64>)
    requires
        price.wf(),
        e <= MAX_SCALE,
    ensures
        match r {
            Some(k) => k == key_of(*price, e),
            None => key_of(*price, e) > u64::MAX,
        },
{
    proof {
        lemma_scaled_product_bound(price.mantissa, e);
        lemma_pow10_pos(price.scale as nat);
    }
    let num: u128 = (price.mantissa as u128) * (pow10_u64(e) as u128);
    let den: u128 = pow10_u64(price.scale) as u128;
    let q: u128 = num / den;
    if q <= u64::MAX as u128 {
        Some(q as u64)
    } else {
        None
    }
}

/// Converts a ladder key back to the decimal it stands for: `key / 10^e`.
pub fn key_to_dec(key: u64, e: u32) -> (r: Dec)
    ensures
        r == (Dec { mantissa: key, scale: e }),
{
    Dec { mantissa: key, scale: e }
}

/// The inside spread as a signed decimal: `(ask_key - bid_key) / 10^e`.
pub fn spread_from_keys(ask_key: u64, bid_key: u64, e: u32) -> (r: SignedDec)
    ensures
        r.mantissa == ask_key - bid_key,
        r.scale == e,
{
    SignedDec { mantissa: ask_key as i128 - bid_key as i128, scale: e }
}

/// A scale exponent at least as fine as the price's own scale loses nothing.
pub proof fn lemma_fine_scale_is_exact(p: Dec, e: u32)
    requires
        p.scale <= e,
    ensures
        exactly_keyed(p, e),
        key_of(p, e) == p.mantissa * pow10((e - p.scale) as nat),
{
    let s = p.scale as nat;
    let d = (e - p.scale) as nat;
    lemma_pow10_adds(d, s);
    lemma_pow10_pos(s);
    lemma_pow10_pos(d);
    assert(pow10(e as nat) == pow10(d) * pow10(s));
    assert(p.mantissa * pow10(e as nat) == (p.mantissa * pow10(d)) * pow10(s)) by {
        lemma_mul_is_associative(p.mantissa as int, pow10(d) as int, pow10(s) as int);
    }
    lemma_mod_multiples_basic((p.mantissa * pow10(d)) as int, pow10(s) as int);
    lemma_div_by_multiple((p.mantissa * pow10(d)) as int, pow10(s) as int);
}

/// The numeric order of decimals composes: `c <= a` and `a < b` give
/// `c < b`.
pub proof fn lemma_le_lt_trans(c: Dec, a: Dec, b: Dec)
    requires
        !a.lt_value(c),
        a.lt_value(b),
    ensures
        c.lt_value(b),
{
    lemma_pow10_pos(a.scale as nat);
    lemma_pow10_pos(b.scale as nat);
    lemma_pow10_pos(c.scale as nat);
    let pa = pow10(a.scale as nat) as int;
    let pb = pow10(b.scale as nat) as int;
    let pc = pow10(c.scale as nat) as int;
    let ma = a.mantissa as int;
    let mb = b.mantissa as int;
    let mc = c.mantissa as int;
    assert(mc * pb < mb * pc) by (nonlinear_arith)
        requires
            mc * pa <= ma * pc,
            ma * pb < mb * pa,
            pa > 0,
            pb > 0,
            pc > 0,
    {}
}

/// Two numerically equal decimals always receive the same key: the key
/// depends on the number a `Dec` denotes, not on its representation.
pub proof fn lemma_equal_values_equal_keys(a: Dec, b: Dec, e: u32)
    requires
        a.same_value(b),
    ensures
        key_of(a, e) == key_of(b, e),
{
    let pe = pow10(e as nat) as int;
    let pa = pow10(a.scale as nat) as int;
    let pb = pow10(b.scale as nat) as int;
    let ma = a.mantissa as int;
    let mb = b.mantissa as int;
    lemma_pow10_pos(a.scale as nat);
    lemma_pow10_pos(b.scale as nat);
    lemma_pow10_pos(e as nat);
    // key_of(a, e) == (ma * pe * pb) / (pa * pb)
    assert((ma * pe) / pa == (ma * pe * pb) / (pa * pb)) by {
        lemma_div_denominator(ma * pe * pb, pb, pa);
        lemma_div_multiples_vanish(ma * pe, pb);
        lemma_mul_is_commutative(pb, pa);
    }
    // and symmetrically for b, with the two numerators equal.
    assert((mb * pe) / pb == (mb * pe * pa) / (pb * pa)) by {
        lemma_div_denominator(mb * pe * pa, pa, pb);
        lemma_div_multiples_vanish(mb * pe, pa);
        lemma_mul_is_commutative(pa, pb);
    }
    assert(ma * pe * pb == mb * pe * pa) by {
        assert(ma * pb == mb * pa);
        lemma_mul_is_associative(ma, pe, pb);
        lemma_mul_is_commutative(pe, pb);
        lemma_mul_is_associative(ma, pb, pe);
        lemma_mul_is_associative(mb, pe, pa);
        lemma_mul_is_commutative(pe, pa);
        lemma_mul_is_associative(mb, pa, pe);
    }
    assert(pa * pb == pb * pa) by {
        lemma_mul_is_commutative(pa, pb);
    }
}

/// Distinct prices that the configured scale resolves exactly never collide:
/// under-scaling is a configuration fault, not something keying may hide.
pub proof fn lemma_exact_keys_injective(a: Dec, b: Dec, e: u32)
    requires
        exactly_keyed(a, e),
        exactly_keyed(b, e),
        !a.same_value(b),
    ensures
        key_of(a, e) != key_of(b, e),
{
    let pe = pow10(e as nat) as int;
    let pa = pow10(a.scale as nat) as int;
    let pb = pow10(b.scale as nat) as int;
    let ma = a.mantissa as int;
    let mb = b.mantissa as int;
    lemma_pow10_pos(a.scale as nat);
    lemma_pow10_pos(b.scale as nat);
    lemma_pow10_pos(e as nat);
    let ka = key_of(a, e) as int;
    let kb = key_of(b, e) as int;
    lemma_fundamental_div_mod(ma * pe, pa);
    lemma_fundamental_div_mod(mb * pe, pb);
    assert(ma * pe == pa * ka);
    assert(mb * pe == pb * kb);
    if ka == kb {
        // Then ma * pb * pe == mb * pa * pe, and pe > 0 cancels.
        assert((ma * pb) * pe == (mb * pa) * pe) by {
            lemma_mul_is_associative(ma, pb, pe);
            lemma_mul_is_commutative(pb, pe);
            lemma_mul_is_associative(ma, pe, pb);
            assert(ma * pb * pe == (ma * pe) * pb);
            lemma_mul_is_associative(mb, pa, pe);
            lemma_mul_is_commutative(pa, pe);
            lemma_mul_is_associative(mb, pe, pa);
            assert(mb * pa * pe == (mb * pe) * pa);
            assert((pa * ka) * pb == (pb * kb) * pa) by {
                lemma_mul_is_associative(pa, ka, pb);
                lemma_mul_is_commutative(ka, pb);
                lemma_mul_is_associative(pa, pb, ka);
                lemma_mul_is_associative(pb, kb, pa);
                lemma_mul_is_commutative(kb, pa);
                lemma_mul_is_associative(pb, pa, ka);
                lemma_mul_is_commutative(pb, pa);
            }
        }
        assert(ma * pb == mb * pa) by {
            if ma * pb < mb * pa {
                lemma_mul_strict_inequality(ma * pb, mb * pa, pe);
                lemma_mul_is_commutative(ma * pb, pe);
                lemma_mul_is_commutative(mb * pa, pe);
            }
            if mb * pa < ma * pb {
                lemma_mul_strict_inequality(mb * pa, ma * pb, pe);
                lemma_mul_is_commutative(ma * pb, pe);
                lemma_mul_is_commutative(mb * pa, pe);
            }
        }
        assert(a.same_value(b));
    }
}

} // verus!
