//! The remote-procedure service: two procedures, `hello` and
//! `compute_price`, and the pure dispatch of a request to its response.
//!
//! The service is stateless: `Server` holds nothing, and each call is
//! computed from its arguments alone. The transport that carries
//! requests and responses lives outside the library; it hands a decoded
//! `Request` to `dispatch` and sends the `Response` back.

use vstd::prelude::*;

use vstd::string::StringExecFns;

use crate::domain::{PricingInput, ValidationError};
use crate::pricing::{price, spec_price_value};

verus! {

/// The greeting produced for a name.
pub open spec fn spec_greeting(name: Seq<char>) -> Seq<char> {
    "Hello, "@ + name + "!"@
}

/// One request of the service.
pub enum Request {
    Hello(String),
    ComputePrice(PricingInput),
}

/// The response to a request, of the matching variant.
pub enum Response {
    Hello(String),
    ComputePrice(Result<i64, ValidationError>),
}

/// The stateless pricing service.
pub struct Server;

impl Server {
    /// The echo procedure: `"Hello, " + name + "!"`.
    pub fn hello(&self, s: String) -> (r: String)
        ensures
            r@ == spec_greeting(s@),
    {
        let mut r = String::new();
        r.append("Hello, ");
        r.append(s.as_str());
        r.append("!");
        r
    }

    /// The pricing procedure: delegates to the pricing engine and returns
    /// its result verbatim; a negative spot price comes back as the
    /// `NegativeUndPrice` failure branch, never as a crash.
    pub fn compute_price(&self, input: PricingInput) -> (r: Result<i64, ValidationError>)
        ensures
            input.s < 0 ==> r == Err::<i64, ValidationError>(
                ValidationError::NegativeUndPrice(input.s),
            ),
            input.s >= 0 && input.k < 0 ==> r == Err::<i64, ValidationError>(
                ValidationError::NegativeStrikePrice(input.k),
            ),
            input.is_valid() ==> r is Ok && r->Ok_0 as int == spec_price_value(input),
    {
        price(input)
    }
}

/// Serve one request: each variant is answered by the procedure of the
/// same name, and nothing else.
pub fn dispatch(server: &Server, req: Request) -> (resp: Response)
    ensures
        req is Hello ==> resp is Hello && resp->Hello_0@ == spec_greeting(req->Hello_0@),
        req is ComputePrice ==> resp is ComputePrice && {
            let pi = req->ComputePrice_0;
            let r = resp->ComputePrice_0;
            &&& pi.s < 0 ==> r == Err::<i64, ValidationError>(
                ValidationError::NegativeUndPrice(pi.s),
            )
            &&& pi.s >= 0 && pi.k < 0 ==> r == Err::<i64, ValidationError>(
                ValidationError::NegativeStrikePrice(pi.k),
            )
            &&& pi.is_valid() ==> r is Ok && r->Ok_0 as int == spec_price_value(pi)
        },
{
    match req {
        Request::Hello(name) => Response::Hello(server.hello(name)),
        Request::ComputePrice(input) => Response::ComputePrice(server.compute_price(input)),
    }
}

} // verus!
