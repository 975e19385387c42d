//! Saturating fixed-point arithmetic on `i64` values scaled by `SCALE`.
//!
//! A value `v: i64` stands for the real number `v / SCALE`. Results that
//! would leave the representable range saturate to `FIX_MAX` or `FIX_MIN`,
//! which thereby play the role of the non-finite values of a floating-point
//! representation.

use vstd::prelude::*;

verus! {

/// One whole unit: the representation of 1.0.
pub const SCALE: i64 = 1_000_000_000;

/// Largest representable value; stands in for "plus infinity" on overflow.
pub const FIX_MAX: i64 = i64::MAX;

/// Smallest representable value; stands in for "minus infinity" on overflow.
/// Symmetric to `FIX_MAX`, so that negation never overflows.
pub const FIX_MIN: i64 = -i64::MAX;

/// Magnitude of an integer.
pub open spec fn mag(a: int) -> int {
    if a >= 0 {
        a
    } else {
        -a
    }
}

/// Clamp to the representable range.
pub open spec fn sat(v: int) -> int {
    if v > FIX_MAX as int {
        FIX_MAX as int
    } else if v < FIX_MIN as int {
        FIX_MIN as int
    } else {
        v
    }
}

/// Division truncated toward zero, the rounding of the executable code.
pub open spec fn tdiv(a: int, b: int) -> int
    recommends
        b != 0,
{
    if (a >= 0) == (b >= 0) {
        mag(a) / mag(b)
    } else {
        -(mag(a) / mag(b))
    }
}

/// The value of a fixed-point product.
pub open spec fn spec_mul(a: int, b: int) -> int {
    sat(tdiv(a * b, SCALE as int))
}

/// The value of a fixed-point quotient. Division by zero yields the
/// saturated value of the sign of the dividend, zero for a zero dividend.
pub open spec fn spec_div(a: int, b: int) -> int {
    if b == 0 {
        if a > 0 {
            FIX_MAX as int
        } else if a < 0 {
            FIX_MIN as int
        } else {
            0
        }
    } else {
        sat(tdiv(a * SCALE, b))
    }
}

/// Magnitudes multiply: |a * b| == |a| * |b|.
pub proof fn lemma_mag_mul(a: int, b: int)
    by (nonlinear_arith)
    ensures
        mag(a * b) == mag(a) * mag(b),
{
}

/// A product of bounded factors is bounded.
pub proof fn lemma_mul_mag_bound(a: int, b: int, ax: int, bx: int)
    by (nonlinear_arith)
    requires
        mag(a) <= ax,
        mag(b) <= bx,
    ensures
        mag(a * b) <= ax * bx,
{
}

/// Multiplication of non-negative numbers is monotone in both factors.
pub proof fn lemma_mul_le(a: int, b: int, a2: int, b2: int)
    by (nonlinear_arith)
    requires
        0 <= a <= a2,
        0 <= b <= b2,
    ensures
        a * b <= a2 * b2,
{
}

/// A product of non-negative factors keeps the product non-negative and
/// below saturation from above.
pub proof fn lemma_spec_mul_nonneg(a: int, b: int)
    requires
        0 <= a,
        0 <= b,
    ensures
        0 <= spec_mul(a, b) <= FIX_MAX as int,
{
    assert(0 <= a * b) by (nonlinear_arith)
        requires
            0 <= a,
            0 <= b,
    ;
    vstd::arithmetic::div_mod::lemma_div_pos_is_pos(a * b, SCALE as int);
}

/// The fixed-point product is monotone for non-negative operands.
pub proof fn lemma_spec_mul_monotone(a: int, b: int, a2: int, b2: int)
    requires
        0 <= a <= a2,
        0 <= b <= b2,
    ensures
        spec_mul(a, b) <= spec_mul(a2, b2),
{
    lemma_mul_le(a, b, a2, b2);
    vstd::arithmetic::div_mod::lemma_div_is_ordered(a * b, a2 * b2, SCALE as int);
    assert(0 <= a * b) by (nonlinear_arith)
        requires
            0 <= a,
            0 <= b,
    ;
    vstd::arithmetic::div_mod::lemma_div_pos_is_pos(a * b, SCALE as int);
}

/// Rounding toward zero loses less than one divisor unit.
pub proof fn lemma_tdiv_err(p: int)
    ensures
        mag(p - tdiv(p, SCALE as int) * (SCALE as int)) < SCALE as int,
        mag(tdiv(p, SCALE as int)) == mag(p) / (SCALE as int),
{
    let s = SCALE as int;
    vstd::arithmetic::div_mod::lemma_fundamental_div_mod(mag(p), s);
    let q = mag(p) / s;
    if p >= 0 {
        assert(p - q * s == mag(p) % s);
    } else {
        assert(tdiv(p, s) == -q);
        assert((-q) * s == -(q * s)) by (nonlinear_arith);
        assert(p - (-q) * s == -(mag(p) % s));
    }
}

/// A fixed-point product of a non-negative value with a value of bounded
/// magnitude does not saturate when the bound keeps the true product
/// within range.
pub proof fn lemma_mul_in_range(a: int, b: int, bm: int)
    requires
        0 <= a,
        mag(b) <= bm,
        a * bm <= (FIX_MAX as int) * (SCALE as int),
    ensures
        spec_mul(a, b) == tdiv(a * b, SCALE as int),
        mag(spec_mul(a, b)) <= FIX_MAX as int,
        mag(a * b) <= a * bm,
{
    let s = SCALE as int;
    lemma_mag_mul(a, b);
    lemma_mul_le(a, mag(b), a, bm);
    vstd::arithmetic::div_mod::lemma_div_is_ordered(mag(a * b), (FIX_MAX as int) * s, s);
    vstd::arithmetic::div_mod::lemma_div_multiples_vanish(FIX_MAX as int, s);
    assert((FIX_MAX as int) * s == s * (FIX_MAX as int)) by (nonlinear_arith);
    vstd::arithmetic::div_mod::lemma_div_pos_is_pos(mag(a * b), s);
}

/// Saturating addition.
pub fn fadd(a: i64, b: i64) -> (r: i64)
    ensures
        r as int == sat(a + b),
{
    let s: i128 = a as i128 + b as i128;
    if s > FIX_MAX as i128 {
        FIX_MAX
    } else if s < FIX_MIN as i128 {
        FIX_MIN
    } else {
        s as i64
    }
}

/// Saturating subtraction.
pub fn fsub(a: i64, b: i64) -> (r: i64)
    ensures
        r as int == sat(a - b),
{
    let s: i128 = a as i128 - b as i128;
    if s > FIX_MAX as i128 {
        FIX_MAX
    } else if s < FIX_MIN as i128 {
        FIX_MIN
    } else {
        s as i64
    }
}

/// Saturating negation.
pub fn fneg(a: i64) -> (r: i64)
    ensures
        r as int == sat(-a),
{
    if a == i64::MIN {
        FIX_MAX
    } else {
        -a
    }
}

/// Fixed-point multiplication: (a * b) / SCALE, truncated toward zero,
/// saturated to the representable range.
pub fn fmul(a: i64, b: i64) -> (r: i64)
    ensures
        r as int == spec_mul(a as int, b as int),
{
    proof {
        lemma_mul_mag_bound(a as int, b as int, 0x8000_0000_0000_0000, 0x8000_0000_0000_0000);
    }
    let p: i128 = (a as i128) * (b as i128);
    let neg: bool = p < 0;
    let magp: u128 = if p >= 0 {
        p as u128
    } else {
        (-p) as u128
    };
    proof {
        lemma_mag_mul(a as int, b as int);
        assert(magp as int == mag((a as int) * (b as int)));
    }
    let q: u128 = magp / (SCALE as u128);
    let lim: u128 = FIX_MAX as u128;
    let qc: u128 = if q > lim {
        lim
    } else {
        q
    };
    let r: i64 = if neg {
        -(qc as i64)
    } else {
        qc as i64
    };
    proof {
        assert(q as int == mag((a as int) * (b as int)) / (SCALE as int));
    }
    r
}

/// Fixed-point division: (a * SCALE) / b, truncated toward zero,
/// saturated; division by zero yields the signed saturated value.
pub fn fdiv(a: i64, b: i64) -> (r: i64)
    ensures
        r as int == spec_div(a as int, b as int),
{
    if b == 0 {
        if a > 0 {
            FIX_MAX
        } else if a < 0 {
            FIX_MIN
        } else {
            0
        }
    } else {
        proof {
            lemma_mul_mag_bound(a as int, SCALE as int, 0x8000_0000_0000_0000, SCALE as int);
        }
        let p: i128 = (a as i128) * (SCALE as i128);
        let neg: bool = (a < 0) != (b < 0);
        let magp: u128 = if p >= 0 {
            p as u128
        } else {
            (-p) as u128
        };
        let magb: u128 = if b >= 0 {
            b as u128
        } else {
            ((-(b as i128)) as u128)
        };
        proof {
            lemma_mag_mul(a as int, SCALE as int);
            assert(magp as int == mag((a as int) * (SCALE as int)));
        }
        let q: u128 = magp / magb;
        let lim: u128 = FIX_MAX as u128;
        let qc: u128 = if q > lim {
            lim
        } else {
            q
        };
        proof {
            assert(q as int == mag((a as int) * (SCALE as int)) / mag(b as int));
        }
        if neg {
            -(qc as i64)
        } else {
            qc as i64
        }
    }
}

/// Whether `r` is the floor of the square root of `n`.
pub open spec fn is_sqrt_floor(n: int, r: int) -> bool {
    0 <= r && r * r <= n && n < (r + 1) * (r + 1)
}

/// The floor of the square root of a non-negative integer.
pub open spec fn sqrt_floor(n: int) -> int {
    choose|r: int| is_sqrt_floor(n, r)
}

/// Every non-negative integer has a floor square root.
pub proof fn lemma_sqrt_exists(n: int)
    requires
        n >= 0,
    ensures
        is_sqrt_floor(n, sqrt_floor(n)),
    decreases n,
{
    if n == 0 {
        assert(is_sqrt_floor(0, 0));
    } else {
        lemma_sqrt_exists(n - 1);
        let r = sqrt_floor(n - 1);
        if (r + 1) * (r + 1) <= n {
            assert(n == (r + 1) * (r + 1));
            assert(is_sqrt_floor(n, r + 1)) by (nonlinear_arith)
                requires
                    n == (r + 1) * (r + 1),
                    r >= 0,
            ;
        } else {
            assert(is_sqrt_floor(n, r));
        }
    }
}

/// The floor square root is unique.
pub proof fn lemma_sqrt_unique(n: int, r: int)
    by (nonlinear_arith)
    requires
        is_sqrt_floor(n, r),
        is_sqrt_floor(n, sqrt_floor(n)),
    ensures
        r == sqrt_floor(n),
{
}

/// The floor square root is monotone.
pub proof fn lemma_sqrt_monotone(a: int, b: int)
    requires
        0 <= a <= b,
    ensures
        sqrt_floor(a) <= sqrt_floor(b),
{
    lemma_sqrt_exists(a);
    lemma_sqrt_exists(b);
    let ra = sqrt_floor(a);
    let rb = sqrt_floor(b);
    assert(ra <= rb) by (nonlinear_arith)
        requires
            is_sqrt_floor(a, ra),
            is_sqrt_floor(b, rb),
            a <= b,
    ;
}

/// Floor square root of an unsigned 128-bit integer, by binary search.
pub fn sqrt_u128(n: u128) -> (r: u64)
    ensures
        is_sqrt_floor(n as int, r as int),
        r as int == sqrt_floor(n as int),
{
    let mut lo: u128 = 0;
    let mut hi: u128 = 0xffff_ffff_ffff_ffff;
    while lo < hi
        invariant
            lo <= hi <= 0xffff_ffff_ffff_ffff,
            lo * lo <= n,
            n < (hi + 1) * (hi + 1),
        decreases hi - lo,
    {
        let mid: u128 = lo + (hi - lo + 1) / 2;
        assert(lo < mid <= hi);
        proof {
            lemma_mul_le(mid as int, mid as int, 0xffff_ffff_ffff_ffff, 0xffff_ffff_ffff_ffff);
        }
        if mid * mid <= n {
            lo = mid;
        } else {
            hi = mid - 1;
        }
    }
    proof {
        lemma_sqrt_exists(n as int);
        lemma_sqrt_unique(n as int, lo as int);
    }
    lo as u64
}

/// The fixed-point value of a square root: `sqrt_floor(x * SCALE)` for a
/// non-negative argument, the saturated negative value otherwise (the
/// analogue of a NaN result for a negative radicand).
pub open spec fn spec_sqrt(x: int) -> int {
    if x < 0 {
        FIX_MIN as int
    } else {
        sqrt_floor(x * SCALE)
    }
}

/// Fixed-point square root.
pub fn fsqrt(x: i64) -> (r: i64)
    ensures
        r as int == spec_sqrt(x as int),
{
    if x < 0 {
        FIX_MIN
    } else {
        proof {
            lemma_mul_le(x as int, SCALE as int, 0x7fff_ffff_ffff_ffff, SCALE as int);
        }
        let n: u128 = (x as u128) * (SCALE as u128);
        let r: u64 = sqrt_u128(n);
        proof {
            lemma_sqrt_exists(n as int);
            assert((r as int) * (r as int) <= n < (0x1_0000_0000_0000 * 0x1_0000_0000_0000))
                by (nonlinear_arith)
                requires
                    is_sqrt_floor(n as int, r as int),
                    n as int <= 0x7fff_ffff_ffff_ffff * 0x3b9a_ca00,
            ;
            assert(r < 0x1_0000_0000_0000) by (nonlinear_arith)
                requires
                    (r as int) * (r as int) < (0x1_0000_0000_0000 * 0x1_0000_0000_0000),
                    r >= 0,
            ;
        }
        r as i64
    }
}

} // verus!
