use black_scholes::fixed::{fmul, fneg, fsqrt, FIX_MAX};
use black_scholes::pricing::cdf;
use black_scholes::server::{dispatch, Request, Response, Server};
use black_scholes::transcend::{fexp, fln};
use black_scholes::{
    price, CallOrPut, ParseCallOrPutError, ParseYearsError, PricingInput, ValidationError, Years,
    SCALE,
};

fn sample_input(s: i64, k: i64, call_or_put: CallOrPut) -> PricingInput {
    PricingInput {
        s,
        k,
        time_to_exp: Years(SCALE),
        discount_rate: SCALE / 20,
        und_rate: SCALE / 20,
        vol: SCALE / 5,
        call_or_put,
    }
}

#[test]
fn it_works() {
}

#[test]
fn validate_passes_non_negative_inputs_unchanged() {
    let pi = sample_input(100 * SCALE, 100 * SCALE, CallOrPut::Call);
    assert_eq!(pi.validate(), Ok(pi));
    let zero = sample_input(0, 0, CallOrPut::Put);
    assert_eq!(zero.validate(), Ok(zero));
}

#[test]
fn validate_rejects_negative_spot_whatever_the_strike() {
    let pi = sample_input(-5 * SCALE, 100 * SCALE, CallOrPut::Call);
    assert_eq!(pi.validate(), Err(ValidationError::NegativeUndPrice(-5 * SCALE)));
    let both = sample_input(-5 * SCALE, -100 * SCALE, CallOrPut::Call);
    assert_eq!(both.validate(), Err(ValidationError::NegativeUndPrice(-5 * SCALE)));
}

#[test]
fn validate_rejects_negative_strike_when_spot_is_fine() {
    let pi = sample_input(100 * SCALE, -1, CallOrPut::Put);
    assert_eq!(pi.validate(), Err(ValidationError::NegativeStrikePrice(-1)));
}

#[test]
fn cdf_of_zero_is_one_half() {
    assert_eq!(cdf(0), SCALE / 2);
}

#[test]
fn cdf_reflects_around_zero() {
    for x in [1, 350_000_000i64, SCALE, 5 * SCALE, 100 * SCALE] {
        assert_eq!(cdf(-x), SCALE - cdf(x));
    }
}

#[test]
fn cdf_is_monotone_on_samples() {
    let xs = [
        -100 * SCALE,
        -5 * SCALE,
        -SCALE,
        -350_000_000i64,
        0,
        150_000_000,
        350_000_000,
        SCALE,
        5 * SCALE,
        100 * SCALE,
    ];
    for pair in xs.windows(2) {
        assert!(cdf(pair[0]) <= cdf(pair[1]));
    }
}

#[test]
fn cdf_matches_known_points() {
    assert_eq!(cdf(350_000_000), 636_951_356);
    assert_eq!(cdf(SCALE), 843_118_821);
    assert_eq!(cdf(-SCALE), 156_881_179);
}

#[test]
fn exp_and_ln_match_known_points() {
    assert_eq!(fexp(0), SCALE);
    assert_eq!(fexp(-SCALE), 367_879_451);
    assert_eq!(fln(SCALE), 0);
    assert_eq!(fln(2 * SCALE), 693_147_180);
    assert_eq!(fln(0), -FIX_MAX);
    assert_eq!(fsqrt(4 * SCALE), 2 * SCALE);
}

#[test]
fn put_call_parity_holds_on_the_example() {
    let call_input = sample_input(100 * SCALE, 100 * SCALE, CallOrPut::Call);
    let put_input = sample_input(100 * SCALE, 100 * SCALE, CallOrPut::Put);
    let call = price(call_input).unwrap();
    let put = price(put_input).unwrap();
    let fwd = fmul(100 * SCALE, fexp(fmul(SCALE / 20, SCALE)));
    let emrt = fexp(fneg(fmul(SCALE / 20, SCALE)));
    let rhs = fmul(emrt, fwd) - fmul(emrt, 100 * SCALE);
    let diff = (call - put) - rhs;
    assert!(diff.abs() <= emrt / SCALE + 4);
}

#[test]
fn at_the_money_call_has_the_expected_price() {
    let pi = sample_input(100 * SCALE, 100 * SCALE, CallOrPut::Call);
    let p = price(pi).unwrap();
    // reference closed form with an exact CDF gives about 10.45; the
    // approximate CDF lands a little above it
    assert!(p > 10 * SCALE && p < 11 * SCALE);
    assert_eq!(p, 10_461_803_736);
}

#[test]
fn negative_spot_yields_no_price() {
    let pi = sample_input(-5 * SCALE, 100 * SCALE, CallOrPut::Call);
    assert_eq!(price(pi), Err(ValidationError::NegativeUndPrice(-5 * SCALE)));
}

#[test]
fn call_or_put_parses_only_the_two_tokens() {
    assert_eq!(CallOrPut::from_str("C"), Ok(CallOrPut::Call));
    assert_eq!(CallOrPut::from_str("P"), Ok(CallOrPut::Put));
    assert_eq!(CallOrPut::from_str("X"), Err(ParseCallOrPutError::Invalid));
    assert_eq!(CallOrPut::from_str("c"), Err(ParseCallOrPutError::Invalid));
    assert_eq!(CallOrPut::from_str("CP"), Err(ParseCallOrPutError::Invalid));
    assert_eq!(CallOrPut::from_str(""), Err(ParseCallOrPutError::Invalid));
}

#[test]
fn parse_error_renders_as_invalid() {
    assert_eq!(ParseCallOrPutError::Invalid.message(), "Invalid");
}

#[test]
fn years_parse_accepts_decimals() {
    assert_eq!(Years::from_str("1"), Ok(Years(SCALE)));
    assert_eq!(Years::from_str("1.5"), Ok(Years(1_500_000_000)));
    assert_eq!(Years::from_str("-0.25"), Ok(Years(-250_000_000)));
    assert_eq!(Years::from_str("0.000000001"), Ok(Years(1)));
    assert_eq!(Years::from_str("2."), Ok(Years(2 * SCALE)));
    assert_eq!(Years::from_str(".5"), Ok(Years(500_000_000)));
}

#[test]
fn years_parse_rejects_malformed_tokens() {
    assert_eq!(Years::from_str(""), Err(ParseYearsError::Invalid));
    assert_eq!(Years::from_str("-"), Err(ParseYearsError::Invalid));
    assert_eq!(Years::from_str("."), Err(ParseYearsError::Invalid));
    assert_eq!(Years::from_str("1.2.3"), Err(ParseYearsError::Invalid));
    assert_eq!(Years::from_str("abc"), Err(ParseYearsError::Invalid));
    assert_eq!(Years::from_str("1e3"), Err(ParseYearsError::Invalid));
}

#[test]
fn years_parse_saturates_huge_magnitudes() {
    assert_eq!(Years::from_str("99999999999"), Ok(Years(FIX_MAX)));
    assert_eq!(Years::from_str("-99999999999"), Ok(Years(-FIX_MAX)));
}

#[test]
fn hello_greets_by_name() {
    let server = Server;
    assert_eq!(server.hello("Mom".to_string()), "Hello, Mom!".to_string());
    assert_eq!(server.hello("".to_string()), "Hello, !".to_string());
}

#[test]
fn compute_price_returns_the_failure_branch_and_keeps_serving() {
    let server = Server;
    let bad = sample_input(-5 * SCALE, 100 * SCALE, CallOrPut::Call);
    let resp = dispatch(&server, Request::ComputePrice(bad));
    match resp {
        Response::ComputePrice(r) => {
            assert_eq!(r, Err(ValidationError::NegativeUndPrice(-5 * SCALE)));
        },
        Response::Hello(_) => panic!("wrong response variant"),
    }
    // the server still answers further calls
    let again = dispatch(&server, Request::Hello("Mom".to_string()));
    match again {
        Response::Hello(msg) => assert_eq!(msg, "Hello, Mom!".to_string()),
        Response::ComputePrice(_) => panic!("wrong response variant"),
    }
    let good = sample_input(100 * SCALE, 100 * SCALE, CallOrPut::Call);
    match dispatch(&server, Request::ComputePrice(good)) {
        Response::ComputePrice(r) => assert!(r.unwrap() > 0),
        Response::Hello(_) => panic!("wrong response variant"),
    }
}
