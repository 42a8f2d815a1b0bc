//! HTTP status codes.

use axum::http::StatusCode;
use vstd::prelude::*;

verus! {

/// The status of an answer for which upstream is to blame.
pub const BAD_GATEWAY: u16 = 502;

/// The status says that the request succeeded.
pub open spec fn successful(status: u16) -> bool {
    200 <= status <= 299
}

/// A status is relayed as it is, if it is one: it has three digits.
pub open spec fn relayed_status(status: u16) -> u16 {
    if 100 <= status <= 999 {
        status
    } else {
        BAD_GATEWAY
    }
}

/// `http::StatusCode::from_u16`: a code is a status if it has three digits.
#[verifier::external_body]
fn is_status(code: u16) -> (r: bool)
    ensures
        r == (100 <= code <= 999),
{
    StatusCode::from_u16(code).is_ok()
}

/// `http::StatusCode::is_success`, on the status that a code is.
#[verifier::external_body]
pub(crate) fn is_success(code: u16) -> (r: bool)
    ensures
        r == successful(code),
{
    StatusCode::from_u16(code).is_ok_and(|s| s.is_success())
}

/// The status that the client sees for an upstream status.
pub fn relay_status(status: u16) -> (r: u16)
    ensures
        r == relayed_status(status),
{
    if is_status(status) {
        status
    } else {
        BAD_GATEWAY
    }
}

/// A status of three digits is relayed, and anything else is the fault of the
/// upstream. Exactly the statuses that begin with a two say that a request
/// succeeded.
pub proof fn law_three_digits_are_relayed(status: u16)
    ensures
        100 <= status < 1000 ==> relayed_status(status) == status,
        status < 100 || status >= 1000 ==> relayed_status(status) == 502,
        successful(status) <==> status / 100 == 2,
{
}

} // verus!
