//! Fixed-point score arithmetic.
//!
//! Objective scores are decimal fixed-point numbers: an `i64` counting
//! millionths. All arithmetic saturates at the representable bounds, and
//! division truncates toward zero, so every operation is total on its
//! stated domain.

use vstd::prelude::*;

verus! {

/// One whole unit: scores count millionths.
pub const SCALE: i64 = 1_000_000;

/// Clamps a mathematical integer into the representable score range.
pub open spec fn clamp(x: int) -> int {
    if x > i64::MAX {
        i64::MAX as int
    } else if x < i64::MIN {
        i64::MIN as int
    } else {
        x
    }
}

/// Division truncating toward zero, as the executable `/` does.
pub open spec fn div_trunc(a: int, b: int) -> int
    recommends
        b > 0,
{
    if a >= 0 {
        a / b
    } else {
        -((-a) / b)
    }
}

/// Saturating sum.
pub open spec fn sat_add(a: int, b: int) -> int {
    clamp(a + b)
}

/// Saturating fixed-point product: `a * b` rescaled, truncated toward zero.
pub open spec fn fp_mul_spec(a: int, b: int) -> int {
    clamp(div_trunc(a * b, SCALE as int))
}

/// Saturating fixed-point quotient: `a / b` rescaled, truncated toward zero.
pub open spec fn fp_div_spec(a: int, b: int) -> int
    recommends
        b != 0,
{
    if b >= 0 {
        clamp(div_trunc(a * (SCALE as int), b))
    } else {
        clamp(div_trunc(-(a * (SCALE as int)), -b))
    }
}

/// Saturating addition of two scores.
pub fn add_score(a: i64, b: i64) -> (r: i64)
    ensures
        r == sat_add(a as int, b as int),
{
    let s: i128 = a as i128 + b as i128;
    if s > i64::MAX as i128 {
        i64::MAX
    } else if s < i64::MIN as i128 {
        i64::MIN
    } else {
        s as i64
    }
}

/// Truncated-toward-zero division of a wide intermediate by a positive
/// divisor, then clamping into score range.
fn narrow_quotient(p: i128, q: i128) -> (r: i64)
    requires
        q > 0,
        p > i128::MIN,
    ensures
        r == clamp(div_trunc(p as int, q as int)),
{
    let neg = p < 0;
    let m: i128 = if neg {
        -p
    } else {
        p
    };
    let d: i128 = m / q;
    proof {
        assert(0 <= d <= m) by (nonlinear_arith)
            requires
                m >= 0,
                q > 0,
                d == m as int / q as int,
        ;
    }
    if neg {
        if d > -(i64::MIN as i128) {
            i64::MIN
        } else {
            (-d) as i64
        }
    } else {
        if d > i64::MAX as i128 {
            i64::MAX
        } else {
            d as i64
        }
    }
}

/// Saturating fixed-point multiplication.
pub fn mul_score(a: i64, b: i64) -> (r: i64)
    ensures
        r == fp_mul_spec(a as int, b as int),
{
    proof {
        assert((a as int) * (b as int) <= 0x4000_0000_0000_0000_0000_0000_0000_0000 && (a as int) * (b as int) >= -0x4000_0000_0000_0000_0000_0000_0000_0000) by (nonlinear_arith)
            requires
                i64::MIN <= a <= i64::MAX,
                i64::MIN <= b <= i64::MAX,
        ;
    }
    let p: i128 = (a as i128) * (b as i128);
    narrow_quotient(p, SCALE as i128)
}

/// Saturating fixed-point division; the divisor must be nonzero.
pub fn div_score(a: i64, b: i64) -> (r: i64)
    requires
        b != 0,
    ensures
        r == fp_div_spec(a as int, b as int),
{
    proof {
        assert((a as int) * (SCALE as int) <= 0x4000_0000_0000_0000_0000_0000_0000_0000 && (a as int) * (SCALE as int) >= -0x4000_0000_0000_0000_0000_0000_0000_0000) by (nonlinear_arith)
            requires
                i64::MIN <= a <= i64::MAX,
        ;
    }
    let p: i128 = (a as i128) * (SCALE as i128);
    if b >= 0 {
        narrow_quotient(p, b as i128)
    } else {
        narrow_quotient(-p, -(b as i128))
    }
}

/// Floor square root of a nonnegative score, in fixed-point: the greatest
/// `r` with `r * r <= a` as fixed-point quantities.
pub fn sqrt_score(a: i64) -> (r: i64)
    requires
        a >= 0,
    ensures
        r >= 0,
        (r as int) * (r as int) <= (a as int) * (SCALE as int),
        (r as int + 1) * (r as int + 1) > (a as int) * (SCALE as int),
{
    proof {
        assert((a as int) * (SCALE as int) < 0x8_0000_0000_0000_0000_0000) by (nonlinear_arith)
            requires
                0 <= a <= i64::MAX,
        ;
    }
    let v: u128 = (a as u128) * (SCALE as u128);
    let mut lo: u128 = 0;
    let mut hi: u128 = 0x400_0000_0000;
    proof {
        assert((hi as int) * (hi as int) > v as int) by (nonlinear_arith)
            requires
                hi == 0x400_0000_0000,
                v < 0x8_0000_0000_0000_0000_0000,
        ;
    }
    while lo + 1 < hi
        invariant
            lo < hi <= 0x400_0000_0000,
            (lo as int) * (lo as int) <= v as int,
            (hi as int) * (hi as int) > v as int,
            v == (a as int) * (SCALE as int),
        decreases hi - lo,
    {
        let mid: u128 = lo + (hi - lo) / 2;
        proof {
            assert((mid as int) * (mid as int) <= 0x10_0000_0000_0000_0000_0000_0000)
                by (nonlinear_arith)
                requires
                    mid <= 0x400_0000_0000,
            ;
        }
        if mid * mid <= v {
            lo = mid;
        } else {
            hi = mid;
        }
    }
    proof {
        assert(lo as int + 1 == hi as int);
        assert(lo <= 0x400_0000_0000);
    }
    lo as i64
}

} // verus!
