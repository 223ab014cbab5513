//! The two clocks the gateway reads: a monotonic one for windows and
//! expiry, and the UTC calendar for storage paths.

use chrono::{Datelike, Timelike};
use std::time::Instant;
use vstd::prelude::*;

verus! {

/// `std::time::Instant`, carried as an opaque value: nothing is known of what
/// is inside.
#[verifier::external_type_specification]
#[verifier::external_body]
pub struct ExInstant(Instant);

/// Calls `std::time::Instant::now`.  Nothing is promised of the reading.
#[verifier::external_body]
pub(crate) fn clock_origin() -> Instant {
    Instant::now()
}

/// Calls `std::time::Instant::elapsed` and reports whole milliseconds.
/// Nothing is promised of the reading.
#[verifier::external_body]
pub(crate) fn elapsed_millis(origin: &Instant) -> u64 {
    origin.elapsed().as_millis() as u64
}

/// A monotonic clock that counts milliseconds from its creation.
pub struct MonotonicClock {
    origin: Instant,
}

impl MonotonicClock {
    pub fn new() -> Self {
        MonotonicClock { origin: clock_origin() }
    }

    /// Milliseconds since the clock was created.
    pub fn now_ms(&self) -> u64 {
        elapsed_millis(&self.origin)
    }
}

/// A UTC calendar reading, to the second.
#[derive(Clone, Copy, Debug)]
pub struct UtcStamp {
    pub year: i32,
    pub month: u32,
    pub day: u32,
    pub hour: u32,
    pub minute: u32,
    pub second: u32,
}

impl UtcStamp {
    /// The ranges chrono documents for the fields of a date and time.
    pub open spec fn in_range(self) -> bool {
        &&& 1 <= self.month <= 12
        &&& 1 <= self.day <= 31
        &&& self.hour <= 23
        &&& self.minute <= 59
        &&& self.second <= 59
    }
}

/// Calls `chrono::Utc::now` and reads the calendar fields through `Datelike`
/// and `Timelike`, whose documentation gives the ranges stated here.  The
/// call does not return where the machine's clock stands before 1970.
#[verifier::external_body]
pub(crate) fn utc_now() -> (stamp: UtcStamp)
    ensures
        stamp.in_range(),
{
    let now = chrono::Utc::now();
    UtcStamp {
        year: now.year(),
        month: now.month(),
        day: now.day(),
        hour: now.hour(),
        minute: now.minute(),
        second: now.second(),
    }
}

} // verus!
