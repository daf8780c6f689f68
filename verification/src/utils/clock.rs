//! The wall clock.

use vstd::prelude::*;

verus! {

/// Reads the system clock with `std::time::SystemTime::now`, turns the
/// instant into a `chrono::DateTime<Utc>` with chrono's conversion from
/// `SystemTime`, which takes instants before 1970 as well, and converts it to
/// nanoseconds since the Unix epoch with `DateTime::timestamp_nanos_opt`,
/// which yields none for an instant that does not fit. Nothing is promised of
/// the value: the clock may stand still or step back between two readings.
#[verifier::external_body]
fn utc_now_nanos() -> (now: Option<i64>) {
    chrono::DateTime::<chrono::Utc>::from(std::time::SystemTime::now()).timestamp_nanos_opt()
}

/// The current time in nanoseconds since the Unix epoch; the largest value
/// once the time no longer fits.
pub fn now() -> (now: i64) {
    instant_of(utc_now_nanos())
}

/// The time that a reading of the clock stands for: the reading itself, and
/// the largest value where the instant did not fit.
pub open spec fn reading_or_latest(reading: Option<i64>) -> i64 {
    match reading {
        Some(nanos) => nanos,
        None => i64::MAX,
    }
}

/// The time that a reading of the clock stands for.
pub fn instant_of(reading: Option<i64>) -> (time: i64)
    ensures
        time == reading_or_latest(reading),
{
    match reading {
        Some(nanos) => nanos,
        None => i64::MAX,
    }
}

} // verus!
