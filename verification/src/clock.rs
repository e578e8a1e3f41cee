//! The wall clock, read as a plain number of ticks.

use vstd::prelude::*;

verus! {

/// Reads the current UTC time as microsecond ticks since the Unix epoch.
///
/// Relies on `chrono::Utc::now` and `DateTime::timestamp_micros`. The value
/// depends on the moment of the call, so nothing is promised of it.
/// `Utc::now` can panic where the system clock reads before the Unix
/// epoch — an environmental condition, not one an input could exclude.
#[verifier::external_body]
pub fn now_ticks() -> (r: i64) {
    chrono::Utc::now().timestamp_micros()
}

} // verus!
