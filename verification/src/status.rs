//! HTTP status codes.
use http::StatusCode;
use vstd::prelude::*;

verus! {

/// Whether a number is a status code: three digits, the first not zero.
pub open spec fn is_status(code: u16) -> bool {
    100 <= code <= 999
}

/// Whether a status says that a request succeeded.
pub open spec fn is_success(code: u16) -> bool {
    200 <= code <= 299
}

/// A status code with its reason phrase, such as `404 Not Found`.
pub uninterp spec fn status_text(code: u16) -> Seq<char>;

/// `StatusCode::is_success`: true of the codes from 200 to 299. A number that
/// is no status code, for which `StatusCode::from_u16` fails, is no success.
#[verifier::external_body]
pub(crate) fn status_is_success(code: u16) -> (r: bool)
    ensures
        r == is_success(code),
{
    StatusCode::from_u16(code).is_ok_and(|status| status.is_success())
}

/// `StatusCode` as text: the code and its reason phrase. The phrases come from
/// the crate's table, which is not restated.
#[verifier::external_body]
pub(crate) fn status_to_text(code: u16) -> (r: String)
    requires
        is_status(code),
    ensures
        r@ == status_text(code),
{
    StatusCode::from_u16(code).map(|status| status.to_string()).unwrap_or_default()
}

} // verus!
