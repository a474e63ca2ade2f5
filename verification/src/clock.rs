//! The one place the library touches the wall clock.

use vstd::prelude::*;

verus! {

/// Relies on chrono's `Local::now` and `DateTime::timestamp_millis`: reads
/// the wall clock as milliseconds since the Unix epoch. Nothing is promised
/// of the value; callers state what holds whatever time comes back.
#[verifier::external_body]
pub(crate) fn now_millis() -> i64 {
    chrono::Local::now().timestamp_millis()
}

} // verus!
