//! The timeline point carried by every caption: hours, minutes, seconds and
//! milliseconds, exactly as the digits appeared in the source text.

use vstd::prelude::*;

verus! {

/// A point on the subtitle timeline, split into the four fields of the
/// `H:MM:SS,mmm` notation. The fields hold whatever digit runs the source
/// text carried; no field is range-clamped (a minutes value of 75 is kept
/// verbatim).
#[derive(Debug, Clone, Copy, PartialEq, Eq, Structural)]
pub struct Time {
    pub hours: u8,
    pub minutes: u8,
    pub seconds: u8,
    pub milliseconds: u16,
}

/// The total length of a `Time` in milliseconds:
/// `ms + 1000*s + 60000*m + 3600000*h`.
pub open spec fn time_millis(t: Time) -> int {
    t.milliseconds + 1000 * t.seconds + 60_000 * t.minutes + 3_600_000 * t.hours
}

impl Time {
    /// The total number of milliseconds this point lies from the start of
    /// the timeline, as a 64-bit value so that even the largest field
    /// values cannot overflow.
    pub fn to_duration(&self) -> (d: u64)
        ensures
            d == time_millis(*self),
    {
        let mut millis: u64 = self.milliseconds as u64;
        millis += self.seconds as u64 * 1000;
        millis += self.minutes as u64 * 60_000;
        millis += self.hours as u64 * 3_600_000;
        millis
    }
}

} // verus!
