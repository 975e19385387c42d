//! Verified fixed-point exponential and logarithm.
//!
//! `expneg` computes `exp(-y)` for `y >= 0` from a cubic series at `y / 256`
//! followed by eight squarings; `fexp` extends it to positive arguments
//! through the reciprocal, and `fln` computes the logarithm from a binary
//! normalization and an arctanh series. Each function is specified by an
//! exact integer-level mirror of its computation, and the mirror of
//! `expneg` is proved non-increasing, which carries the monotonicity of
//! the normal CDF built on it.

use vstd::arithmetic::power2::*;
use vstd::prelude::*;

use crate::fixed::{
    fdiv, fmul, lemma_mul_le, sat, spec_div, spec_mul, FIX_MAX, FIX_MIN, SCALE,
};

verus! {

/// Arguments of `exp` at or beyond this magnitude underflow to zero
/// (negative side) or saturate (positive side).
pub const EXP_CUT: i64 = 32_000_000_000;

/// Natural logarithm of two, in fixed-point units.
pub const LN2: i64 = 693_147_180;

/// Cubic series for `exp(-z)` on `0 <= z <= SCALE / 8`:
/// `SCALE - z + z^2/2 - z^3/6`, with each power truncated at the scale.
pub open spec fn spec_small(z: int) -> int {
    let w = (z * z) / (SCALE as int);
    let v = (w * z) / (SCALE as int);
    (SCALE as int) - z + w / 2 - v / 6
}

/// `k` successive fixed-point squarings of `b`.
pub open spec fn sq_iter(b: int, k: nat) -> int
    decreases k,
{
    if k == 0 {
        b
    } else {
        let s = sq_iter(b, (k - 1) as nat);
        (s * s) / (SCALE as int)
    }
}

/// The value computed for `exp(-y)`, `y >= 0`.
pub open spec fn spec_expneg(y: int) -> int {
    if y >= EXP_CUT as int {
        0
    } else {
        let z = if y >= 0 {
            y / 256
        } else {
            0
        };
        sq_iter(spec_small(z), 8)
    }
}

/// The series stays within `[0, SCALE]` on its domain.
pub proof fn lemma_small_bounds(z: int)
    requires
        0 <= z <= 125_000_000,
    ensures
        0 <= spec_small(z) <= SCALE as int,
{
    let s = SCALE as int;
    let w = (z * z) / s;
    let v = (w * z) / s;
    lemma_mul_le(z, z, 125_000_000, 125_000_000);
    assert(0 <= z * z) by (nonlinear_arith)
        requires
            z >= 0,
    ;
    assert(w <= 15_625_000);
    assert(w >= 0);
    lemma_mul_le(w, z, 15_625_000, 125_000_000);
    assert(0 <= w * z) by (nonlinear_arith)
        requires
            w >= 0,
            z >= 0,
    ;
    assert(v <= 1_953_125);
    assert(v >= 0);
    // upper bound: w <= z, hence w / 2 <= z
    lemma_mul_le(z, z, z, 1_000_000_000);
    vstd::arithmetic::div_mod::lemma_div_multiples_vanish(z, s);
    assert(z * 1_000_000_000 == 1_000_000_000 * z) by (nonlinear_arith);
    assert(w <= z);
}

/// One-unit step of the series is non-increasing.
pub proof fn lemma_small_step(z: int)
    requires
        0 <= z,
        z + 1 <= 125_000_000,
    ensures
        spec_small(z + 1) <= spec_small(z),
{
    let s = SCALE as int;
    let w = (z * z) / s;
    let w2 = ((z + 1) * (z + 1)) / s;
    let v = ((z * z) / s * z) / s;
    let v2 = (((z + 1) * (z + 1)) / s * (z + 1)) / s;
    assert((z + 1) * (z + 1) <= z * z + s) by (nonlinear_arith)
        requires
            0 <= z <= 125_000_000,
            s == 1_000_000_000,
    ;
    assert(z * z <= (z + 1) * (z + 1)) by (nonlinear_arith)
        requires
            z >= 0,
    ;
    vstd::arithmetic::div_mod::lemma_div_is_ordered(z * z, (z + 1) * (z + 1), s);
    vstd::arithmetic::div_mod::lemma_div_is_ordered((z + 1) * (z + 1), z * z + s, s);
    vstd::arithmetic::div_mod::lemma_div_plus_one(z * z, s);
    assert(w2 <= w + 1);
    assert(w <= w2);
    // halves differ by at most one
    vstd::arithmetic::div_mod::lemma_div_is_ordered(w2, w + 1, 2);
    vstd::arithmetic::div_mod::lemma_div_is_ordered(w + 1, w + 2, 2);
    vstd::arithmetic::div_mod::lemma_div_plus_one(w, 2);
    assert(w2 / 2 <= w / 2 + 1);
    // cubic term grows
    assert(0 <= z * z) by (nonlinear_arith)
        requires
            z >= 0,
    ;
    assert(w >= 0);
    lemma_mul_le(w, z, w2, z + 1);
    vstd::arithmetic::div_mod::lemma_div_is_ordered(w * z, w2 * (z + 1), s);
    assert(v <= v2);
    vstd::arithmetic::div_mod::lemma_div_is_ordered(v, v2, 6);
}

/// The series is non-increasing on its domain.
pub proof fn lemma_small_anti(z1: int, z2: int)
    requires
        0 <= z1 <= z2 <= 125_000_000,
    ensures
        spec_small(z2) <= spec_small(z1),
    decreases z2 - z1,
{
    if z1 < z2 {
        lemma_small_step(z2 - 1);
        lemma_small_anti(z1, z2 - 1);
    }
}

/// Squaring keeps values in `[0, SCALE]`.
pub proof fn lemma_sq_iter_bounds(b: int, k: nat)
    requires
        0 <= b <= SCALE as int,
    ensures
        0 <= sq_iter(b, k) <= SCALE as int,
    decreases k,
{
    if k > 0 {
        lemma_sq_iter_bounds(b, (k - 1) as nat);
        let s = sq_iter(b, (k - 1) as nat);
        lemma_mul_le(s, s, SCALE as int, SCALE as int);
        assert(0 <= s * s) by (nonlinear_arith)
            requires
                s >= 0,
        ;
        vstd::arithmetic::div_mod::lemma_div_multiples_vanish(SCALE as int, SCALE as int);
        vstd::arithmetic::div_mod::lemma_div_is_ordered(
            s * s,
            (SCALE as int) * (SCALE as int),
            SCALE as int,
        );
    }
}

/// Squaring is monotone on `[0, SCALE]`.
pub proof fn lemma_sq_iter_monotone(b1: int, b2: int, k: nat)
    requires
        0 <= b1 <= b2 <= SCALE as int,
    ensures
        sq_iter(b1, k) <= sq_iter(b2, k),
    decreases k,
{
    if k > 0 {
        lemma_sq_iter_monotone(b1, b2, (k - 1) as nat);
        lemma_sq_iter_bounds(b1, (k - 1) as nat);
        lemma_sq_iter_bounds(b2, (k - 1) as nat);
        let s1 = sq_iter(b1, (k - 1) as nat);
        let s2 = sq_iter(b2, (k - 1) as nat);
        lemma_mul_le(s1, s1, s2, s2);
        vstd::arithmetic::div_mod::lemma_div_is_ordered(s1 * s1, s2 * s2, SCALE as int);
    }
}

/// One is a fixed point of squaring.
pub proof fn lemma_sq_iter_one(k: nat)
    ensures
        sq_iter(SCALE as int, k) == SCALE as int,
    decreases k,
{
    if k > 0 {
        lemma_sq_iter_one((k - 1) as nat);
        vstd::arithmetic::div_mod::lemma_div_multiples_vanish(SCALE as int, SCALE as int);
    }
}

/// `exp(-y)` stays within `[0, SCALE]`.
pub proof fn lemma_expneg_bounds(y: int)
    ensures
        0 <= spec_expneg(y) <= SCALE as int,
{
    if y < EXP_CUT as int {
        let z = if y >= 0 {
            y / 256
        } else {
            0
        };
        if y >= 0 {
            vstd::arithmetic::div_mod::lemma_div_is_ordered(y, 31_999_999_999, 256);
            vstd::arithmetic::div_mod::lemma_div_pos_is_pos(y, 256);
        }
        lemma_small_bounds(z);
        lemma_sq_iter_bounds(spec_small(z), 8);
    }
}

/// `exp(-y)` is non-increasing in `y`.
pub proof fn lemma_expneg_anti(y1: int, y2: int)
    requires
        0 <= y1 <= y2,
    ensures
        spec_expneg(y2) <= spec_expneg(y1),
{
    lemma_expneg_bounds(y1);
    lemma_expneg_bounds(y2);
    if y2 < EXP_CUT as int {
        let z1 = y1 / 256;
        let z2 = y2 / 256;
        vstd::arithmetic::div_mod::lemma_div_is_ordered(y1, y2, 256);
        vstd::arithmetic::div_mod::lemma_div_is_ordered(y2, 31_999_999_999, 256);
        vstd::arithmetic::div_mod::lemma_div_pos_is_pos(y1, 256);
        lemma_small_anti(z1, z2);
        lemma_small_bounds(z1);
        lemma_small_bounds(z2);
        lemma_sq_iter_monotone(spec_small(z2), spec_small(z1), 8);
    }
}

/// `exp(-y)` for a non-negative fixed-point `y`.
pub fn expneg(y: i64) -> (r: i64)
    requires
        y >= 0,
    ensures
        r as int == spec_expneg(y as int),
        0 <= r <= SCALE,
{
    proof {
        lemma_expneg_bounds(y as int);
    }
    if y >= EXP_CUT {
        0
    } else {
        let z: u64 = (y as u64) / 256;
        assert(z <= 124_999_999);
        proof {
            lemma_mul_le(z as int, z as int, 125_000_000, 125_000_000);
        }
        let w: u64 = (z * z) / 1_000_000_000;
        let q2: u64 = w / 2;
        proof {
            lemma_mul_le(w as int, z as int, 15_625_000, 125_000_000);
        }
        let v: u64 = (w * z) / 1_000_000_000;
        let q3: u64 = v / 6;
        proof {
            lemma_small_bounds(z as int);
        }
        let a0: u64 = 1_000_000_000 - z + q2 - q3;
        assert(a0 as int == spec_small(z as int));
        let mut b: u64 = a0;
        let mut i: u64 = 0;
        while i < 8
            invariant
                i <= 8,
                z <= 124_999_999,
                b as int == sq_iter(spec_small(z as int), i as nat),
                b <= 1_000_000_000,
            decreases 8 - i,
        {
            proof {
                lemma_mul_le(b as int, b as int, 1_000_000_000, 1_000_000_000);
                lemma_small_bounds(z as int);
                lemma_sq_iter_bounds(spec_small(z as int), (i + 1) as nat);
            }
            b = (b * b) / 1_000_000_000;
            i = i + 1;
        }
        b as i64
    }
}

/// `k` successive saturating fixed-point squarings of `b`.
pub open spec fn fsq_iter(b: int, k: nat) -> int
    decreases k,
{
    if k == 0 {
        b
    } else {
        let s = fsq_iter(b, (k - 1) as nat);
        spec_mul(s, s)
    }
}

/// The value computed for `exp(x)`: for a negative argument, `exp(-|x|)`
/// directly; for a non-negative one, the reciprocal of `exp(-x/16)`
/// raised to the sixteenth power by four squarings.
pub open spec fn spec_exp(x: int) -> int {
    if x < 0 {
        spec_expneg(sat(-x))
    } else {
        fsq_iter(spec_div(SCALE as int, spec_expneg(x / 16)), 4)
    }
}

/// Fixed-point exponential.
pub fn fexp(x: i64) -> (r: i64)
    ensures
        r as int == spec_exp(x as int),
{
    if x < 0 {
        let nx: i64 = if x == i64::MIN {
            FIX_MAX
        } else {
            -x
        };
        assert(nx as int == sat(-(x as int)));
        expneg(nx)
    } else {
        let q: i64 = ((x as u64) / 16) as i64;
        assert(q as int == x as int / 16);
        let e0: i64 = expneg(q);
        let mut b: i64 = fdiv(SCALE, e0);
        let ghost b0 = b as int;
        let mut i: u64 = 0;
        while i < 4
            invariant
                i <= 4,
                b as int == fsq_iter(b0, i as nat),
            decreases 4 - i,
        {
            b = fmul(b, b);
            i = i + 1;
        }
        b
    }
}

/// Saturating squarings keep a representable non-negative value
/// representable and non-negative.
pub proof fn lemma_fsq_iter_range(b: int, k: nat)
    requires
        0 <= b <= FIX_MAX as int,
    ensures
        0 <= fsq_iter(b, k) <= FIX_MAX as int,
    decreases k,
{
    if k > 0 {
        lemma_fsq_iter_range(b, (k - 1) as nat);
        let s = fsq_iter(b, (k - 1) as nat);
        crate::fixed::lemma_spec_mul_nonneg(s, s);
    }
}

/// The exponential is non-negative and representable.
pub proof fn lemma_exp_range(x: int)
    ensures
        0 <= spec_exp(x) <= FIX_MAX as int,
{
    if x < 0 {
        lemma_expneg_bounds(sat(-x));
    } else {
        let en = spec_expneg(x / 16);
        lemma_expneg_bounds(x / 16);
        let b = spec_div(SCALE as int, en);
        if en != 0 {
            vstd::arithmetic::div_mod::lemma_div_pos_is_pos((SCALE as int) * (SCALE as int), en);
            assert(0 <= (SCALE as int) * (SCALE as int)) by (nonlinear_arith);
        }
        lemma_fsq_iter_range(b, 4);
    }
}

/// Binary normalization for the logarithm: halvings and doublings that
/// bring a positive value into `[SCALE, 2 * SCALE)`; the result is the
/// count of halvings (negative for doublings) and the mantissa.
pub open spec fn ln_norm(m: int) -> (int, int)
    decreases
            (if m >= 2 * (SCALE as int) {
                m
            } else {
                2 * (SCALE as int) - m
            }),
{
    if m <= 0 {
        (0, SCALE as int)
    } else if m >= 2 * (SCALE as int) {
        let p = ln_norm(m / 2);
        (p.0 + 1, p.1)
    } else if m < SCALE as int {
        let p = ln_norm(2 * m);
        (p.0 - 1, p.1)
    } else {
        (0, m)
    }
}

/// Arctanh series for the logarithm of a mantissa `m` in
/// `[SCALE, 2 * SCALE)`: with `z = (m - SCALE) / (m + SCALE)`, half the
/// logarithm is `z + z^3/3 + z^5/5 + ... + z^13/13`.
pub open spec fn spec_ln_series(m: int) -> int {
    let s = SCALE as int;
    let z = ((m - s) * s) / (m + s);
    let zz = (z * z) / s;
    let p3 = (z * zz) / s;
    let p5 = (p3 * zz) / s;
    let p7 = (p5 * zz) / s;
    let p9 = (p7 * zz) / s;
    let p11 = (p9 * zz) / s;
    let p13 = (p11 * zz) / s;
    z + p3 / 3 + p5 / 5 + p7 / 7 + p9 / 9 + p11 / 11 + p13 / 13
}

/// The value computed for `ln(x)`: the saturated negative value for a
/// non-positive argument (the analogue of the non-finite result), else
/// the halvings times `ln 2` plus the mantissa series.
pub open spec fn spec_ln(x: int) -> int {
    if x <= 0 {
        FIX_MIN as int
    } else {
        let p = ln_norm(x);
        p.0 * (LN2 as int) + 2 * spec_ln_series(p.1)
    }
}

/// Fixed-point natural logarithm.
pub fn fln(x: i64) -> (r: i64)
    ensures
        r as int == spec_ln(x as int),
{
    if x <= 0 {
        return FIX_MIN;
    }
    let ghost x0 = x as int;
    let mut m: u64 = x as u64;
    let mut e: i64 = 0;
    proof {
        lemma2_to64();
        assert((m as int) * pow2(0) == m as int) by (nonlinear_arith)
            requires
                pow2(0) == 1,
        ;
    }
    while m >= 2_000_000_000
        invariant
            1 <= m,
            0 <= e <= 63,
            ln_norm(x0).0 == ln_norm(m as int).0 + e,
            ln_norm(x0).1 == ln_norm(m as int).1,
            (m as int) * pow2(e as nat) <= x0 < 0x8000_0000_0000_0000,
        decreases m,
    {
        proof {
            lemma_pow2_pos(e as nat);
            // the power bound keeps the halving count small
            if e >= 33 {
                if e > 33 {
                    lemma_pow2_strictly_increases(33, e as nat);
                }
                lemma2_to64_rest();
                lemma_mul_le(2_000_000_000, 0x200000000, m as int, pow2(e as nat) as int);
                assert(false);
            }
            lemma_pow2_adds(e as nat, 1);
            lemma2_to64();
            lemma_mul_le((m as int / 2) * 2, pow2(e as nat) as int, m as int, pow2(
                e as nat,
            ) as int);
            assert((m as int / 2) * pow2((e + 1) as nat) == ((m as int / 2) * 2) * pow2(e as nat))
                by (nonlinear_arith)
                requires
                    pow2((e + 1) as nat) == pow2(e as nat) * 2,
            ;
        }
        m = m / 2;
        e = e + 1;
    }
    let ghost m1 = m as int;
    let ghost e1 = e as int;
    proof {
        lemma2_to64();
        assert(m as int == m1 * pow2(0)) by (nonlinear_arith)
            requires
                pow2(0) == 1,
                m as int == m1,
        ;
    }
    while m < 1_000_000_000
        invariant
            1 <= m < 2_000_000_000,
            0 <= e1 <= 63,
            e <= e1,
            0 <= e1 - e <= 31,
            m1 >= 1,
            ln_norm(x0).0 == ln_norm(m as int).0 + e,
            ln_norm(x0).1 == ln_norm(m as int).1,
            m as int == m1 * pow2((e1 - e) as nat),
        decreases 2_000_000_000 - m,
    {
        proof {
            lemma_pow2_pos((e1 - e) as nat);
            if e1 - e >= 30 {
                if e1 - e > 30 {
                    lemma_pow2_strictly_increases(30, (e1 - e) as nat);
                }
                lemma2_to64();
                lemma_mul_le(1, 0x40000000, m1, pow2((e1 - e) as nat) as int);
                assert(false);
            }
            lemma_pow2_adds((e1 - e) as nat, 1);
            lemma2_to64();
            assert(2 * (m1 * pow2((e1 - e) as nat)) == m1 * pow2((e1 - e + 1) as nat))
                by (nonlinear_arith)
                requires
                    pow2((e1 - e + 1) as nat) == pow2((e1 - e) as nat) * 2,
            ;
        }
        m = m * 2;
        e = e - 1;
    }
    assert(ln_norm(m as int) == (0int, m as int));
    proof {
        lemma_mul_le((m as int) - 1_000_000_000, 1_000_000_000, 999_999_999, 1_000_000_000);
        assert(0 <= ((m as int) - 1_000_000_000) * 1_000_000_000) by (nonlinear_arith)
            requires
                m >= 1_000_000_000,
        ;
    }
    let z: u64 = ((m - 1_000_000_000) * 1_000_000_000) / (m + 1_000_000_000);
    proof {
        vstd::arithmetic::div_mod::lemma_div_is_ordered_by_denominator(
            ((m as int) - 1_000_000_000) * 1_000_000_000,
            2_000_000_000,
            (m as int) + 1_000_000_000,
        );
    }
    assert(z <= 499_999_999);
    proof {
        lemma_mul_le(z as int, z as int, 499_999_999, 499_999_999);
    }
    let zz: u64 = (z * z) / 1_000_000_000;
    assert(zz <= 249_999_999);
    proof {
        lemma_mul_le(z as int, zz as int, 499_999_999, 249_999_999);
    }
    let p3: u64 = (z * zz) / 1_000_000_000;
    assert(p3 <= 124_999_999);
    proof {
        lemma_mul_le(p3 as int, zz as int, 124_999_999, 249_999_999);
    }
    let p5: u64 = (p3 * zz) / 1_000_000_000;
    assert(p5 <= 124_999_999);
    proof {
        lemma_mul_le(p5 as int, zz as int, 124_999_999, 249_999_999);
    }
    let p7: u64 = (p5 * zz) / 1_000_000_000;
    assert(p7 <= 124_999_999);
    proof {
        lemma_mul_le(p7 as int, zz as int, 124_999_999, 249_999_999);
    }
    let p9: u64 = (p7 * zz) / 1_000_000_000;
    assert(p9 <= 124_999_999);
    proof {
        lemma_mul_le(p9 as int, zz as int, 124_999_999, 249_999_999);
    }
    let p11: u64 = (p9 * zz) / 1_000_000_000;
    assert(p11 <= 124_999_999);
    proof {
        lemma_mul_le(p11 as int, zz as int, 124_999_999, 249_999_999);
    }
    let p13: u64 = (p11 * zz) / 1_000_000_000;
    let ssum: u64 = z + p3 / 3 + p5 / 5 + p7 / 7 + p9 / 9 + p11 / 11 + p13 / 13;
    assert(ssum as int == spec_ln_series(m as int));
    let r: i64 = e * LN2 + 2 * (ssum as i64);
    r
}

} // verus!
