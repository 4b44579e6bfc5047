//! Core logic of a cloud inverter-monitoring poller: the request-signing
//! protocol, the telemetry normalization engine, the request assembly for the
//! vendor API, and the decision rules of the poll loop.

pub mod chars;
pub mod client;
pub mod poll;
pub mod normalize;
pub mod sign;
pub mod value;

use vstd::prelude::*;

verus! {

/// True exactly for the HTTP status codes that count as success.
pub fn status_is_success(code: u16) -> (r: bool)
    ensures
        r == (200 <= code < 300),
{
    200 <= code && code < 300
}

} // verus!
