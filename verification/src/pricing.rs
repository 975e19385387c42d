//! The pricing engine: the normal-CDF approximation and the
//! Black-Scholes-Merton closed form, with the laws of the CDF.

use vstd::prelude::*;

use crate::domain::{CallOrPut, PricingInput, ValidationError};
use crate::fixed::{
    fadd, fdiv, fmul, fneg, fsqrt, fsub, lemma_mul_in_range, lemma_spec_mul_monotone,
    lemma_spec_mul_nonneg, lemma_sqrt_exists, lemma_sqrt_monotone, lemma_sqrt_unique,
    lemma_tdiv_err, mag, sat, spec_div, spec_mul, spec_sqrt, sqrt_floor, FIX_MAX, FIX_MIN, SCALE,
};
use crate::transcend::{
    expneg, fexp, fln, lemma_exp_range, lemma_expneg_anti, lemma_expneg_bounds, lemma_sq_iter_one,
    spec_exp, spec_expneg, spec_ln, spec_small, sq_iter,
};

verus! {

/// Two over pi, in fixed-point units.
pub const C2PI: i64 = 636_619_772;

/// One half, in fixed-point units.
pub const HALF: i64 = 500_000_000;

/// Twice `SCALE`.
pub const TWO_SCALE: i64 = 2_000_000_000;

/// The CDF value for a non-negative argument `a`:
/// `(1 + sqrt(1 - exp(-(2/pi) * a^2))) / 2`.
pub open spec fn spec_cdf_mag(a: int) -> int {
    let y = spec_mul(spec_mul(a, a), C2PI as int);
    let g = spec_sqrt((SCALE as int) - spec_expneg(y));
    ((SCALE as int) + g) / 2
}

/// The approximate standard normal CDF: the magnitude form above for a
/// non-negative argument, its exact complement for a negative one, so
/// that `cdf(-x) == SCALE - cdf(x)` holds by construction.
pub open spec fn spec_cdf(x: int) -> int {
    if x >= 0 {
        spec_cdf_mag(x)
    } else {
        (SCALE as int) - spec_cdf_mag(sat(-x))
    }
}

/// The magnitude form is at least one half and at most one, and it is
/// monotone.
pub proof fn lemma_cdf_mag_mono(a: int, b: int)
    requires
        0 <= a <= b,
    ensures
        spec_cdf_mag(a) <= spec_cdf_mag(b),
        (HALF as int) <= spec_cdf_mag(a) <= SCALE as int,
        (HALF as int) <= spec_cdf_mag(b) <= SCALE as int,
{
    let ya = spec_mul(spec_mul(a, a), C2PI as int);
    let yb = spec_mul(spec_mul(b, b), C2PI as int);
    lemma_spec_mul_nonneg(a, a);
    lemma_spec_mul_nonneg(b, b);
    lemma_spec_mul_monotone(a, a, b, b);
    lemma_spec_mul_nonneg(spec_mul(a, a), C2PI as int);
    lemma_spec_mul_monotone(spec_mul(a, a), C2PI as int, spec_mul(b, b), C2PI as int);
    lemma_expneg_bounds(ya);
    lemma_expneg_bounds(yb);
    lemma_expneg_anti(ya, yb);
    let s = SCALE as int;
    let da = s - spec_expneg(ya);
    let db = s - spec_expneg(yb);
    crate::fixed::lemma_mul_le(da, s, db, s);
    crate::fixed::lemma_mul_le(db, s, s, s);
    assert(0 <= da * s) by (nonlinear_arith)
        requires
            0 <= da,
            0 <= s,
    ;
    lemma_sqrt_monotone(da * s, db * s);
    lemma_sqrt_monotone(db * s, s * s);
    lemma_sqrt_exists(s * s);
    assert(s * s < (s + 1) * (s + 1)) by (nonlinear_arith)
        requires
            s > 0,
    ;
    lemma_sqrt_unique(s * s, s);
    lemma_sqrt_exists(da * s);
    lemma_sqrt_exists(db * s);
    vstd::arithmetic::div_mod::lemma_div_is_ordered(s + sqrt_floor(da * s), s + sqrt_floor(db * s), 2);
    vstd::arithmetic::div_mod::lemma_div_is_ordered(s + 0, s + sqrt_floor(da * s), 2);
    vstd::arithmetic::div_mod::lemma_div_is_ordered(s + sqrt_floor(db * s), s + s, 2);
}

/// The CDF stays within `[0, SCALE]`.
pub proof fn lemma_cdf_bounds(x: int)
    ensures
        0 <= spec_cdf(x) <= SCALE as int,
{
    if x >= 0 {
        lemma_cdf_mag_mono(0, x);
    } else {
        lemma_cdf_mag_mono(0, sat(-x));
    }
}

/// The CDF of zero is exactly one half.
pub proof fn lemma_cdf_at_zero()
    ensures
        spec_cdf(0) == HALF as int,
{
    let s = SCALE as int;
    assert(spec_mul(0, 0) == 0);
    assert(spec_mul(0, C2PI as int) == 0);
    assert(spec_small(0) == s);
    lemma_sq_iter_one(8);
    assert(spec_expneg(0) == s);
    lemma_sqrt_exists(0);
    lemma_sqrt_unique(0, 0);
    assert(spec_cdf_mag(0) == (s + 0) / 2);
}

/// The reflection law of the CDF: `cdf(-x) == 1 - cdf(x)`.
pub proof fn lemma_cdf_symmetry(x: int)
    requires
        -(FIX_MAX as int) <= x <= FIX_MAX as int,
    ensures
        spec_cdf(-x) == (SCALE as int) - spec_cdf(x),
{
    if x > 0 {
        assert(sat(x) == x);
    } else if x < 0 {
        assert(sat(-x) == -x);
    } else {
        lemma_cdf_at_zero();
    }
}

/// The CDF is monotone, non-decreasing.
pub proof fn lemma_cdf_monotone(x: int, y: int)
    requires
        x <= y,
    ensures
        spec_cdf(x) <= spec_cdf(y),
{
    if 0 <= x {
        lemma_cdf_mag_mono(x, y);
    } else if y < 0 {
        assert(0 <= sat(-y) <= sat(-x));
        lemma_cdf_mag_mono(sat(-y), sat(-x));
    } else {
        lemma_cdf_mag_mono(0, sat(-x));
        lemma_cdf_mag_mono(0, y);
    }
}

/// The approximate standard normal CDF.
pub fn cdf(x: i64) -> (r: i64)
    ensures
        r as int == spec_cdf(x as int),
        0 <= r <= SCALE,
{
    proof {
        lemma_cdf_bounds(x as int);
    }
    let a: i64 = if x >= 0 {
        x
    } else if x == i64::MIN {
        i64::MAX
    } else {
        -x
    };
    proof {
        lemma_spec_mul_nonneg(a as int, a as int);
        lemma_spec_mul_nonneg(spec_mul(a as int, a as int), C2PI as int);
    }
    let m: i64 = fmul(a, a);
    let y: i64 = fmul(m, C2PI);
    let en: i64 = expneg(y);
    let d: i64 = SCALE - en;
    let g: i64 = fsqrt(d);
    proof {
        lemma_cdf_mag_mono(0, a as int);
        lemma_sqrt_exists(d as int * SCALE as int);
        assert(0 <= d as int * SCALE as int) by (nonlinear_arith)
            requires
                d >= 0,
        ;
        lemma_sqrt_monotone(d as int * SCALE as int, (SCALE as int) * (SCALE as int));
        assert((SCALE as int) * (SCALE as int) < ((SCALE as int) + 1) * ((SCALE as int) + 1))
            by (nonlinear_arith);
        lemma_sqrt_exists((SCALE as int) * (SCALE as int));
        lemma_sqrt_unique((SCALE as int) * (SCALE as int), SCALE as int);
        assert(d as int * SCALE as int <= (SCALE as int) * (SCALE as int)) by (nonlinear_arith)
            requires
                0 <= d <= SCALE as int,
    ;
    }
    let c: i64 = (((SCALE as u64) + (g as u64)) / 2) as i64;
    if x >= 0 {
        c
    } else {
        SCALE - c
    }
}

/// The forward price: `s * exp(u * t)`.
pub open spec fn spec_forward(pi: PricingInput) -> int {
    spec_mul(pi.s as int, spec_exp(spec_mul(pi.und_rate as int, pi.time_to_exp.0 as int)))
}

/// The denominator of `d1`: `vol * sqrt(t)`.
pub open spec fn spec_vol_sqrt_t(pi: PricingInput) -> int {
    spec_mul(pi.vol as int, spec_sqrt(pi.time_to_exp.0 as int))
}

/// The quantile `d1 = (ln(s/k) + (u + v^2/2) * t) / (v * sqrt(t))`.
pub open spec fn spec_d1(pi: PricingInput) -> int {
    let drift = sat(pi.und_rate + spec_div(spec_mul(pi.vol as int, pi.vol as int), TWO_SCALE as int));
    let num = sat(spec_ln(spec_div(pi.s as int, pi.k as int)) + spec_mul(
        drift,
        pi.time_to_exp.0 as int,
    ));
    spec_div(num, spec_vol_sqrt_t(pi))
}

/// The quantile `d2 = d1 - v * sqrt(t)`.
pub open spec fn spec_d2(pi: PricingInput) -> int {
    sat(spec_d1(pi) - spec_vol_sqrt_t(pi))
}

/// The discount factor `exp(-r * t)`.
pub open spec fn spec_discount(pi: PricingInput) -> int {
    spec_exp(sat(-spec_mul(pi.discount_rate as int, pi.time_to_exp.0 as int)))
}

/// The call price: `exp(-r t) * (fwd * cdf(d1) - k * cdf(d2))`.
pub open spec fn spec_call_price(pi: PricingInput) -> int {
    spec_mul(
        spec_discount(pi),
        sat(spec_mul(spec_forward(pi), spec_cdf(spec_d1(pi))) - spec_mul(
            pi.k as int,
            spec_cdf(spec_d2(pi)),
        )),
    )
}

/// The put price: `exp(-r t) * (k * cdf(-d2) - fwd * cdf(-d1))`.
pub open spec fn spec_put_price(pi: PricingInput) -> int {
    spec_mul(
        spec_discount(pi),
        sat(spec_mul(pi.k as int, spec_cdf(sat(-spec_d2(pi)))) - spec_mul(
            spec_forward(pi),
            spec_cdf(sat(-spec_d1(pi))),
        )),
    )
}

/// The price of a validated input, by its call/put tag.
pub open spec fn spec_price_value(pi: PricingInput) -> int {
    if pi.call_or_put == CallOrPut::Call {
        spec_call_price(pi)
    } else {
        spec_put_price(pi)
    }
}

/// A value multiplied by a weight in `[0, SCALE]` and by its complement:
/// the two parts sum back to the value, up to one truncated unit.
proof fn lemma_complement(x: int, c: int)
    requires
        0 <= x <= FIX_MAX as int,
        0 <= c <= SCALE as int,
    ensures
        spec_mul(x, c) == (x * c) / (SCALE as int),
        spec_mul(x, SCALE as int - c) == (x * (SCALE as int - c)) / (SCALE as int),
        0 <= spec_mul(x, c) <= x,
        0 <= spec_mul(x, SCALE as int - c) <= x,
        x - 1 <= spec_mul(x, c) + spec_mul(x, SCALE as int - c) <= x,
{
    let s = SCALE as int;
    let a1 = x * c;
    let a2 = x * (s - c);
    assert(0 <= x * c && 0 <= x * (s - c) && x * c + x * (s - c) == x * s && x * c <= x * s && x
        * (s - c) <= x * s) by (nonlinear_arith)
        requires
            0 <= x,
            0 <= c <= s,
            s == 1_000_000_000,
    ;
    vstd::arithmetic::div_mod::lemma_div_is_ordered(a1, x * s, s);
    vstd::arithmetic::div_mod::lemma_div_is_ordered(a2, x * s, s);
    assert(x * s == s * x) by (nonlinear_arith);
    vstd::arithmetic::div_mod::lemma_div_multiples_vanish(x, s);
    vstd::arithmetic::div_mod::lemma_div_pos_is_pos(a1, s);
    vstd::arithmetic::div_mod::lemma_div_pos_is_pos(a2, s);
    let q1 = a1 / s;
    let q2 = a2 / s;
    vstd::arithmetic::div_mod::lemma_fundamental_div_mod(a1, s);
    vstd::arithmetic::div_mod::lemma_fundamental_div_mod(a2, s);
    assert(s * q1 + s * q2 == x * s - (a1 % s) - (a2 % s));
    assert(s * (x - q1 - q2) == (a1 % s) + (a2 % s)) by (nonlinear_arith)
        requires
            s * q1 + s * q2 == x * s - (a1 % s) - (a2 % s),
    ;
    assert(x - q1 - q2 < 2) by (nonlinear_arith)
        requires
            s * (x - q1 - q2) <= 2 * s - 2,
            s == 1_000_000_000,
    ;
    assert(x - q1 - q2 >= 0) by (nonlinear_arith)
        requires
            s * (x - q1 - q2) >= 0,
            s > 0,
    ;
}

/// Put-call parity, up to the truncation of the fixed-point arithmetic:
/// for a valid input whose discounted forward and strike stay
/// representable, the difference between the call and the put prices is
/// the discounted difference between the forward and the strike, within
/// `discount / SCALE + 4` units.
pub proof fn lemma_put_call_parity(pi: PricingInput)
    requires
        pi.is_valid(),
        spec_discount(pi) * (spec_forward(pi) + pi.k) <= (FIX_MAX as int) * (SCALE as int),
    ensures
        mag(
            (spec_call_price(pi) - spec_put_price(pi)) - (spec_mul(
                spec_discount(pi),
                spec_forward(pi),
            ) - spec_mul(spec_discount(pi), pi.k as int)),
        ) <= spec_discount(pi) / (SCALE as int) + 4,
{
    let s = SCALE as int;
    let d = spec_discount(pi);
    let f = spec_forward(pi);
    let k = pi.k as int;
    let d1 = spec_d1(pi);
    let d2 = spec_d2(pi);
    let c1 = spec_cdf(d1);
    let c2 = spec_cdf(d2);
    lemma_exp_range(sat(-spec_mul(pi.discount_rate as int, pi.time_to_exp.0 as int)));
    lemma_exp_range(spec_mul(pi.und_rate as int, pi.time_to_exp.0 as int));
    lemma_spec_mul_nonneg(
        pi.s as int,
        spec_exp(spec_mul(pi.und_rate as int, pi.time_to_exp.0 as int)),
    );
    lemma_cdf_bounds(d1);
    lemma_cdf_bounds(d2);
    lemma_cdf_symmetry(d1);
    lemma_cdf_symmetry(d2);
    assert(sat(-d1) == -d1 && sat(-d2) == -d2);
    lemma_complement(f, c1);
    lemma_complement(k, c2);
    let a = spec_mul(f, c1) - spec_mul(k, c2);
    let b = spec_mul(k, s - c2) - spec_mul(f, s - c1);
    assert(sat(a) == a && sat(b) == b);
    assert(mag(a - b - (f - k)) <= 1);
    assert(mag(a) <= f + k && mag(b) <= f + k);
    // the outer discounting does not saturate
    lemma_mul_in_range(d, a, f + k);
    lemma_mul_in_range(d, b, f + k);
    lemma_mul_in_range(d, f, f + k);
    lemma_mul_in_range(d, k, f + k);
    lemma_tdiv_err(d * a);
    lemma_tdiv_err(d * b);
    lemma_tdiv_err(d * f);
    lemma_tdiv_err(d * k);
    let call = spec_call_price(pi);
    let put = spec_put_price(pi);
    assert(call == spec_mul(d, a));
    assert(put == spec_mul(d, b));
    let rhs = spec_mul(d, f) - spec_mul(d, k);
    let x = (call - put) - rhs;
    let ra = d * a - call * s;
    let rb = d * b - put * s;
    let rf = d * f - spec_mul(d, f) * s;
    let rk = d * k - spec_mul(d, k) * s;
    assert(mag(ra) < s && mag(rb) < s && mag(rf) < s && mag(rk) < s);
    let u = a - b - (f - k);
    assert(d * a - d * b - d * f + d * k == d * u) by (nonlinear_arith)
        requires
            u == a - b - (f - k),
    ;
    assert(mag(d * u) <= d) by (nonlinear_arith)
        requires
            mag(u) <= 1,
            d >= 0,
    ;
    assert(x * s == call * s - put * s - spec_mul(d, f) * s + spec_mul(d, k) * s)
        by (nonlinear_arith)
        requires
            x == (call - put) - (spec_mul(d, f) - spec_mul(d, k)),
    ;
    assert(x * s == d * u - ra + rb + rf - rk);
    assert(mag(x * s) <= d + 4 * s - 4);
    crate::fixed::lemma_mag_mul(x, s);
    vstd::arithmetic::div_mod::lemma_fundamental_div_mod(d, s);
    assert(mag(x) * s <= s * (d / s) + d % s + 4 * s - 4);
    assert(mag(x) <= d / s + 4) by (nonlinear_arith)
        requires
            mag(x) * s <= s * (d / s) + d % s + 4 * s - 4,
            0 <= d % s < s,
            s == 1_000_000_000,
            d / s >= 0,
    ;
}

/// Price a European option: validate the input, then evaluate the
/// Black-Scholes-Merton closed form with the approximate CDF. The result
/// for a valid input is exactly the fixed-point evaluation of the
/// formula; an invalid input yields the validation error, the spot price
/// checked first.
pub fn price(pi: PricingInput) -> (r: Result<i64, ValidationError>)
    ensures
        pi.s < 0 ==> r == Err::<i64, ValidationError>(ValidationError::NegativeUndPrice(pi.s)),
        pi.s >= 0 && pi.k < 0 ==> r == Err::<i64, ValidationError>(
            ValidationError::NegativeStrikePrice(pi.k),
        ),
        pi.is_valid() ==> r is Ok && r->Ok_0 as int == spec_price_value(pi),
{
    match pi.validate() {
        Err(e) => Err(e),
        Ok(p) => {
            let t: i64 = p.time_to_exp.0;
            let fwd: i64 = fmul(p.s, fexp(fmul(p.und_rate, t)));
            let half_var: i64 = fdiv(fmul(p.vol, p.vol), TWO_SCALE);
            let drift: i64 = fadd(p.und_rate, half_var);
            let num: i64 = fadd(fln(fdiv(p.s, p.k)), fmul(drift, t));
            let den: i64 = fmul(p.vol, fsqrt(t));
            let d1: i64 = fdiv(num, den);
            let d2: i64 = fsub(d1, den);
            let disc: i64 = fexp(fneg(fmul(p.discount_rate, t)));
            let value: i64 = match p.call_or_put {
                CallOrPut::Call => fmul(disc, fsub(fmul(fwd, cdf(d1)), fmul(p.k, cdf(d2)))),
                CallOrPut::Put => fmul(
                    disc,
                    fsub(fmul(p.k, cdf(fneg(d2))), fmul(fwd, cdf(fneg(d1)))),
                ),
            };
            Ok(value)
        },
    }
}

} // verus!
