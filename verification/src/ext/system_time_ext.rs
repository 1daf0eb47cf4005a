//! The time of day of a point in time.

use vstd::prelude::*;

verus! {

/// A time of day.
#[derive(Debug, Clone, Copy, PartialEq, Eq, Structural)]
pub struct TimeOfDay {
    pub hour: u8,
    pub minute: u8,
    pub second: u8,
    pub nanosecond: u32,
}

/// Midnight.
pub open spec fn midnight() -> TimeOfDay {
    TimeOfDay { hour: 0, minute: 0, second: 0, nanosecond: 0 }
}

/// The time of day, in UTC, of the point in time that lies `since_epoch` (seconds and
/// nanoseconds) after the Unix epoch.
pub open spec fn time_of_day(since_epoch: Option<(u64, u32)>) -> TimeOfDay {
    match since_epoch {
        Some((secs, nanos)) => if nanos < 1_000_000_000 {
            TimeOfDay {
                hour: (secs / 3600 % 24) as u8,
                minute: (secs / 60 % 60) as u8,
                second: (secs % 60) as u8,
                nanosecond: nanos,
            }
        } else {
            midnight()
        },
        None => midnight(),
    }
}

/// The time of day of a point in time, given as the duration since the Unix epoch.
/// A point before the epoch (`None`), and a nanosecond count that is no fraction of a
/// second, give midnight.
pub fn to_time(since_epoch: Option<(u64, u32)>) -> (time: TimeOfDay)
    ensures
        time == time_of_day(since_epoch),
        time.hour < 24,
        time.minute < 60,
        time.second < 60,
        time.nanosecond < 1_000_000_000,
{
    match since_epoch {
        Some((secs, nanos)) => {
            if nanos < 1_000_000_000 {
                TimeOfDay {
                    hour: (secs / 3600 % 24) as u8,
                    minute: (secs / 60 % 60) as u8,
                    second: (secs % 60) as u8,
                    nanosecond: nanos,
                }
            } else {
                TimeOfDay { hour: 0, minute: 0, second: 0, nanosecond: 0 }
            }
        },
        None => TimeOfDay { hour: 0, minute: 0, second: 0, nanosecond: 0 },
    }
}

} // verus!
