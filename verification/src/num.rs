//! Fixed-point arithmetic helpers shared by the indicator engine and the
//! report assembler.

use vstd::prelude::*;
use vstd::arithmetic::div_mod::{
    lemma_fundamental_div_mod, lemma_fundamental_div_mod_converse,
};

verus! {

/// Number of fixed-point units in 1.0: values carry eight decimal places.
pub const SCALE: i64 = 100_000_000;

/// Largest magnitude a candle field may carry, leaving headroom for windowed
/// sums and products.
pub const VAL_LIMIT: i64 = 1_000_000_000_000_000;

/// Floor division of `a` by a positive `b`, exactly the mathematical
/// (Euclidean) quotient that spec-level `/` denotes.
pub fn div_floor(a: i128, b: i128) -> (q: i128)
    requires
        0 < b,
        i128::MIN < a,
    ensures
        q == a as int / b as int,
{
    if a >= 0 {
        let q = (a as u128) / (b as u128);
        proof {
            assert(a as int / b as int <= a as int && 0 <= a as int / b as int) by {
                lemma_fundamental_div_mod(a as int, b as int);
                let qq = a as int / b as int;
                let r = a as int % b as int;
                assert(a as int == b as int * qq + r);
                assert(qq <= a as int) by (nonlinear_arith)
                    requires a as int == b as int * qq + r, 0 <= r, 0 < b as int, 0 <= a as int
                {}
                assert(0 <= qq) by (nonlinear_arith)
                    requires a as int == b as int * qq + r, 0 <= r < b as int, 0 < b as int, 0 <= a as int
                {}
            }
        }
        q as i128
    } else {
        let na = (-a) as u128;
        let nb = b as u128;
        let uq = (na + nb - 1) / nb;
        proof {
            let n = na as int;
            let d = b as int;
            let q = uq as int;
            lemma_fundamental_div_mod(n + d - 1, d);
            let r = (n + d - 1) % d;
            assert(n + d - 1 == d * q + r);
            // a == -n, and  -n == d * (-q) + (d - 1 - r)  with 0 <= d - 1 - r < d
            assert(0 <= q) by (nonlinear_arith)
                requires n + d - 1 == d * q + r, 0 <= r < d, 0 < d, 1 <= n
            {}
            assert(q <= n) by (nonlinear_arith)
                requires n + d - 1 == d * q + r, 0 <= r < d, 0 < d, 1 <= n
            {}
            assert(d * (-q) == -(d * q)) by (nonlinear_arith) {}
            lemma_fundamental_div_mod_converse(-n, d, -q, d - 1 - r);
        }
        -(uq as i128)
    }
}

/// Integer square root: the greatest `r` with `r * r <= x`.
pub fn isqrt(x: u128) -> (r: u128)
    ensures
        r * r <= x < (r + 1) * (r + 1),
{
    if x == 0 {
        return 0;
    }
    let mut lo: u128 = 0;
    let mut hi: u128 = 0x1_0000_0000_0000_0000;
    proof {
        assert((0x1_0000_0000_0000_0000 as int) * (0x1_0000_0000_0000_0000 as int) > x as int)
            by (nonlinear_arith)
            requires x <= u128::MAX
        {}
    }
    while lo + 1 < hi
        invariant
            lo < hi <= 0x1_0000_0000_0000_0000,
            lo * lo <= x,
            x < hi * hi,
        decreases hi - lo,
    {
        let mid = lo + (hi - lo) / 2;
        proof {
            assert(mid < 0x1_0000_0000_0000_0000);
            assert(mid as int * mid as int <= u128::MAX) by (nonlinear_arith)
                requires mid as int <= 0xffff_ffff_ffff_ffff
            {}
        }
        if mid * mid <= x {
            lo = mid;
        } else {
            hi = mid;
        }
    }
    lo
}

/// A quotient with positive divisor is at most any `b` whose multiple
/// bounds the dividend from above.
pub proof fn lemma_div_le(a: int, d: int, b: int)
    requires
        0 < d,
        a <= d * b,
    ensures
        a / d <= b,
{
    vstd::arithmetic::div_mod::lemma_div_is_ordered(a, d * b, d);
    vstd::arithmetic::div_mod::lemma_div_multiples_vanish(b, d);
}

/// A quotient with positive divisor is at least any `b` whose multiple
/// bounds the dividend from below.
pub proof fn lemma_div_ge(a: int, d: int, b: int)
    requires
        0 < d,
        d * b <= a,
    ensures
        b <= a / d,
{
    vstd::arithmetic::div_mod::lemma_div_is_ordered(d * b, a, d);
    vstd::arithmetic::div_mod::lemma_div_multiples_vanish(b, d);
}

/// What [`clamp_i64`] returns: `x` saturated to the `i64` range.
pub open spec fn spec_clamp_i64(x: int) -> int {
    if x > i64::MAX {
        i64::MAX as int
    } else if x < i64::MIN {
        i64::MIN as int
    } else {
        x
    }
}

/// Saturate a wide intermediate to the `i64` range.
pub fn clamp_i64(x: i128) -> (r: i64)
    ensures
        r == spec_clamp_i64(x as int),
{
    if x > i64::MAX as i128 {
        i64::MAX
    } else if x < i64::MIN as i128 {
        i64::MIN
    } else {
        x as i64
    }
}

/// What [`scaled_percent`] returns: `part / whole` as a fixed-point
/// percentage, floor-divided by `max(whole, 1)` so that a zero or negative
/// denominator never aborts, then saturated to `i64`.
pub open spec fn spec_scaled_percent(part: int, whole: int) -> int {
    let den = if whole < 1 { 1int } else { whole };
    spec_clamp_i64((part * 100 * SCALE as int) / den)
}

/// Fixed-point percentage of `part` relative to `whole`, with the minimum
/// denominator of one unit guarding division by zero.
pub fn scaled_percent(part: i128, whole: i128) -> (r: i64)
    requires
        -0x1_0000_0000_0000_0000_0000 < part < 0x1_0000_0000_0000_0000_0000,
    ensures
        r == spec_scaled_percent(part as int, whole as int),
{
    let den: i128 = if whole < 1 { 1 } else { whole };
    let num: i128 = part * 10_000_000_000;
    proof {
        assert(num == part as int * 100 * (SCALE as int));
    }
    clamp_i64(div_floor(num, den))
}

} // verus!
