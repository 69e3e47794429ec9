//! The wall clock, as read by the library.

use vstd::prelude::*;

verus! {

/// Nanoseconds since the Unix epoch, as `chrono::Utc::now().timestamp_nanos()`
/// gives them. Only that the count is not negative is stated: `Utc::now`
/// measures the time since the epoch (and panics if the system clock reads
/// before it; `timestamp_nanos` panics after the year 2262); the value
/// itself depends on the time of the call.
#[verifier::external_body]
#[allow(deprecated)]
pub(crate) fn now_nanos() -> (r: i64)
    ensures
        r >= 0,
{
    chrono::Utc::now().timestamp_nanos()
}

/// Milliseconds since the Unix epoch, as `chrono::Utc::now().timestamp_millis()`
/// gives them. Only that the count is not negative is stated, as for
/// `now_nanos`; the value depends on the time of the call.
#[verifier::external_body]
pub(crate) fn now_millis() -> (r: i64)
    ensures
        r >= 0,
{
    chrono::Utc::now().timestamp_millis()
}

} // verus!
