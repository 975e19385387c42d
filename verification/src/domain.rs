//! Domain types of the pricer: time, call/put tag, the pricing input and
//! its validation, and the validation errors.
//!
//! Real-valued quantities are fixed-point numbers at `fixed::SCALE`
//! (one unit is 1e-9), so a spot price of 100.0 is `100 * SCALE`.

use vstd::prelude::*;

use vstd::string::StrSliceExecFns;

verus! {

/// Time to expiration in years, a fixed-point number at `SCALE`.
#[derive(Clone, Copy, Debug, PartialEq, Eq, Structural)]
pub struct Years(pub i64);

/// Failure of parsing a decimal time-to-expiration token.
#[derive(Clone, Copy, Debug, PartialEq, Eq, Structural)]
pub enum ParseYearsError {
    Invalid,
}

/// Whether a character is a decimal digit.
pub open spec fn is_digit(c: char) -> bool {
    '0' <= c && c <= '9'
}

/// The value of a decimal digit.
pub open spec fn digit_val(c: char) -> int {
    c as int - '0' as int
}

/// Integer magnitudes beyond this bound already saturate once scaled.
pub const MAG_CAP: u64 = 10_000_000_000;

/// State of the decimal scan: validity, whether a digit and a dot were
/// seen, the integer magnitude (capped at `MAG_CAP`, beyond which the
/// result saturates anyway), the fractional value in fixed-point units,
/// and the weight of the next fractional digit.
pub ghost struct DecimalState {
    pub ok: bool,
    pub seen_digit: bool,
    pub seen_dot: bool,
    pub mag: int,
    pub frac: int,
    pub w: int,
}

/// One character of the decimal scan.
pub open spec fn decimal_step(st: DecimalState, c: char) -> DecimalState {
    if !st.ok {
        st
    } else if c == '.' {
        if st.seen_dot {
            DecimalState { ok: false, ..st }
        } else {
            DecimalState { seen_dot: true, ..st }
        }
    } else if is_digit(c) {
        if !st.seen_dot {
            let m = 10 * st.mag + digit_val(c);
            DecimalState {
                seen_digit: true,
                mag: if m > MAG_CAP as int {
                    MAG_CAP as int
                } else {
                    m
                },
                ..st
            }
        } else {
            DecimalState { seen_digit: true, frac: st.frac + digit_val(c) * st.w, w: st.w / 10, ..st }
        }
    } else {
        DecimalState { ok: false, ..st }
    }
}

/// The scan state after the first `i` characters.
pub open spec fn decimal_fold(s: Seq<char>, i: int) -> DecimalState
    decreases i,
{
    if i <= 0 {
        DecimalState { ok: true, seen_digit: false, seen_dot: false, mag: 0, frac: 0, w: 100_000_000 }
    } else {
        decimal_step(decimal_fold(s, i - 1), s[i - 1])
    }
}

/// The parse of a decimal token: an optional leading minus, then digits
/// with at most one dot among them and at least one digit; the value in
/// fixed-point units, saturated to the representable range, fractional
/// digits beyond the scale truncated.
pub open spec fn spec_parse_years(s: Seq<char>) -> Option<int> {
    if s.len() == 0 {
        None
    } else {
        let neg = s[0] == '-';
        let body = if neg {
            s.subrange(1, s.len() as int)
        } else {
            s
        };
        let st = decimal_fold(body, body.len() as int);
        if st.ok && st.seen_digit {
            let tot = st.mag * (crate::fixed::SCALE as int) + st.frac;
            let v = if tot > crate::fixed::FIX_MAX as int {
                crate::fixed::FIX_MAX as int
            } else {
                tot
            };
            Some(
                if neg {
                    -v
                } else {
                    v
                },
            )
        } else {
            None
        }
    }
}

impl Years {
    /// Parse a decimal token such as `"1.5"` or `"-0.25"` into fixed-point
    /// years.
    pub fn from_str(s: &str) -> (r: Result<Years, ParseYearsError>)
        ensures
            spec_parse_years(s@) is Some ==> r is Ok && r->Ok_0.0 as int == spec_parse_years(
                s@,
            )->Some_0,
            spec_parse_years(s@) is None ==> r == Err::<Years, ParseYearsError>(
                ParseYearsError::Invalid,
            ),
    {
        let n: usize = s.unicode_len();
        if n == 0 {
            return Err(ParseYearsError::Invalid);
        }
        let first: char = s.get_char(0);
        let neg: bool = first == '-';
        let start: usize = if neg {
            1
        } else {
            0
        };
        let ghost body: Seq<char> = if neg {
            s@.subrange(1, s@.len() as int)
        } else {
            s@
        };
        let mut ok: bool = true;
        let mut seen_digit: bool = false;
        let mut seen_dot: bool = false;
        let mut mag: u64 = 0;
        let mut frac: u64 = 0;
        let mut w: u64 = 100_000_000;
        let mut i: usize = start;
        while i < n
            invariant
                start <= i <= n,
                start <= 1,
                n as int == s@.len(),
                body.len() == n - start,
                forall|j: int| 0 <= j < body.len() ==> body[j] == s@[j + start],
                decimal_fold(body, i - start) == (DecimalState {
                    ok,
                    seen_digit,
                    seen_dot,
                    mag: mag as int,
                    frac: frac as int,
                    w: w as int,
                }),
                mag <= MAG_CAP,
                frac + 10 * w <= 1_000_000_000,
            decreases n - i,
        {
            let c: char = s.get_char(i);
            assert(body[i - start] == c);
            if ok {
                if c == '.' {
                    if seen_dot {
                        ok = false;
                    } else {
                        seen_dot = true;
                    }
                } else if c >= '0' && c <= '9' {
                    let d: u64 = ((c as u32) - ('0' as u32)) as u64;
                    if !seen_dot {
                        mag = 10 * mag + d;
                        if mag > MAG_CAP {
                            mag = MAG_CAP;
                        }
                    } else {
                        proof {
                            crate::fixed::lemma_mul_le(d as int, w as int, 9, w as int);
                        }
                        frac = frac + d * w;
                        w = w / 10;
                    }
                    seen_digit = true;
                } else {
                    ok = false;
                }
            }
            i = i + 1;
        }
        if !(ok && seen_digit) {
            return Err(ParseYearsError::Invalid);
        }
        let tot: u128 = (mag as u128) * 1_000_000_000 + (frac as u128);
        let v: i64 = if tot > 0x7fff_ffff_ffff_ffff {
            i64::MAX
        } else {
            tot as i64
        };
        if neg {
            Ok(Years(-v))
        } else {
            Ok(Years(v))
        }
    }
}

/// Failure of parsing a call/put token.
#[derive(Clone, Copy, Debug, PartialEq, Eq, Structural)]
pub enum ParseCallOrPutError {
    Invalid,
}

impl ParseCallOrPutError {
    /// Rendering of the error, the literal `"Invalid"`.
    pub fn message(&self) -> (r: &'static str)
        ensures
            r@ == "Invalid"@,
    {
        "Invalid"
    }
}

/// Side of the option: a call or a put.
#[derive(Clone, Copy, Debug, PartialEq, Eq, Structural)]
pub enum CallOrPut {
    Call,
    Put,
}

/// The parse of a call/put token: exactly `"C"` and `"P"` are accepted.
pub open spec fn spec_parse_call_or_put(s: Seq<char>) -> Result<CallOrPut, ParseCallOrPutError> {
    if s == seq!['C'] {
        Ok(CallOrPut::Call)
    } else if s == seq!['P'] {
        Ok(CallOrPut::Put)
    } else {
        Err(ParseCallOrPutError::Invalid)
    }
}

impl CallOrPut {
    /// Parse `"C"` or `"P"`; every other token is invalid.
    pub fn from_str(s: &str) -> (r: Result<CallOrPut, ParseCallOrPutError>)
        ensures
            r == spec_parse_call_or_put(s@),
    {
        let n: usize = s.unicode_len();
        if n != 1 {
            assert(s@ !~= seq!['C']);
            assert(s@ !~= seq!['P']);
            Err(ParseCallOrPutError::Invalid)
        } else {
            let c: char = s.get_char(0);
            if c == 'C' {
                assert(s@ =~= seq!['C']);
                Ok(CallOrPut::Call)
            } else if c == 'P' {
                assert(s@ !~= seq!['C']);
                assert(s@ =~= seq!['P']);
                Ok(CallOrPut::Put)
            } else {
                assert(s@ !~= seq!['C']);
                assert(s@ !~= seq!['P']);
                Err(ParseCallOrPutError::Invalid)
            }
        }
    }
}

/// Rejection of a pricing input: a negative underlying or strike price,
/// carrying the offending value.
#[derive(Clone, Copy, Debug, PartialEq, Eq, Structural)]
pub enum ValidationError {
    NegativeUndPrice(i64),
    NegativeStrikePrice(i64),
}

/// Everything the pricer needs, as fixed-point numbers at `SCALE`.
#[derive(Clone, Copy, Debug, PartialEq, Eq, Structural)]
pub struct PricingInput {
    /// Spot price of the underlying.
    pub s: i64,
    /// Strike price.
    pub k: i64,
    /// Time to expiration.
    pub time_to_exp: Years,
    /// Risk-free discount rate, e.g. 0.01 for 1%.
    pub discount_rate: i64,
    /// Drift rate of the underlying, e.g. r - q.
    pub und_rate: i64,
    /// Volatility, e.g. 0.2 for "20 vol".
    pub vol: i64,
    /// Side of the option.
    pub call_or_put: CallOrPut,
}

impl PricingInput {
    /// Whether the input passes validation.
    pub open spec fn is_valid(self) -> bool {
        self.s >= 0 && self.k >= 0
    }

    /// Check the sign constraints, in order: a negative spot price is
    /// reported first, then a negative strike; a valid input passes
    /// through unchanged.
    pub fn validate(self) -> (r: Result<PricingInput, ValidationError>)
        ensures
            self.s < 0 ==> r == Err::<PricingInput, ValidationError>(
                ValidationError::NegativeUndPrice(self.s),
            ),
            self.s >= 0 && self.k < 0 ==> r == Err::<PricingInput, ValidationError>(
                ValidationError::NegativeStrikePrice(self.k),
            ),
            self.is_valid() ==> r == Ok::<PricingInput, ValidationError>(self),
    {
        if self.s < 0 {
            Err(ValidationError::NegativeUndPrice(self.s))
        } else if self.k < 0 {
            Err(ValidationError::NegativeStrikePrice(self.k))
        } else {
            Ok(self)
        }
    }
}

} // verus!
