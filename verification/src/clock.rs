//! The present instant.
//!
//! The report window never extends past "now", which only the system
//! clock can supply; nothing else in the library depends on it.

use vstd::prelude::*;

verus! {

/// Relies on chrono::Utc::now and chrono::DateTime::timestamp_nanos_opt:
/// the current UTC instant as nanoseconds since the epoch.  Nothing can
/// be promised of a clock reading; an instant outside the representable
/// range (after the year 2262) saturates.
#[verifier::external_body]
fn clock_nanos() -> i64 {
    chrono::Utc::now().timestamp_nanos_opt().unwrap_or(i64::MAX)
}

/// The current UTC instant as nanoseconds since the epoch.
pub fn now_timestamp() -> i64 {
    clock_nanos()
}

} // verus!
