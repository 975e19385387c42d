//! Black-Scholes option pricing over a verified fixed-point arithmetic,
//! with input validation and a request/response service layer.

pub mod domain;
pub mod fixed;
pub mod pricing;
pub mod server;
pub mod transcend;

pub use domain::{
    CallOrPut, ParseCallOrPutError, ParseYearsError, PricingInput, ValidationError, Years,
};
pub use fixed::SCALE;
pub use pricing::{cdf, price};
pub use server::Server;
