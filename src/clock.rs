//! The system clock, through `chrono`.
use vstd::prelude::*;

verus! {

/// Relies on chrono's `Utc::now` and `DateTime::timestamp`: whole seconds since the Unix
/// epoch, as the system clock reads them.
#[verifier::external_body]
pub(crate) fn unix_now() -> (r: i64) {
    chrono::Utc::now().timestamp()
}

/// Relies on chrono's `DateTime::from_timestamp` and its `format`: the time `secs` written as
/// an HTTP date (`Tue, 15 Nov 1994 08:12:31 GMT`), or `None` where chrono cannot represent it.
#[verifier::external_body]
pub(crate) fn http_date(secs: i64) -> (r: Option<Vec<u8>>) {
    chrono::DateTime::from_timestamp(secs, 0)
        .map(|d| d.format("%a, %d %b %Y %H:%M:%S GMT").to_string().into_bytes())
}

} // verus!
