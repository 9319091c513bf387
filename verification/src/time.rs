//! Points in time and spans between them.
use vstd::prelude::*;

verus! {

/// A span of time, in nanoseconds.
#[derive(Clone, Copy, Debug, PartialEq, Eq, PartialOrd, Ord, Structural)]
pub struct Duration {
    pub nanos: u128,
}

/// A point in time, in nanoseconds since the Unix epoch.
#[derive(Clone, Copy, Debug, PartialEq, Eq, PartialOrd, Ord, Structural)]
pub struct SystemTime {
    pub nanos: u128,
}

impl Duration {
    /// The span of `millis` milliseconds.
    pub fn from_millis(millis: u64) -> (span: Self)
        ensures
            span.nanos == millis * 1_000_000,
    {
        Duration { nanos: millis as u128 * 1_000_000 }
    }
}

impl SystemTime {
    /// The Unix epoch.
    pub fn unix_epoch() -> (time: Self)
        ensures
            time.nanos == 0,
    {
        SystemTime { nanos: 0 }
    }

    /// The point in time `span` later, or `None` if it cannot be represented.
    pub fn checked_add(&self, span: Duration) -> (time: Option<Self>)
        ensures
            time == (if self.nanos + span.nanos <= u128::MAX {
                Some(SystemTime { nanos: (self.nanos + span.nanos) as u128 })
            } else {
                None
            }),
    {
        match self.nanos.checked_add(span.nanos) {
            Some(nanos) => Some(SystemTime { nanos }),
            None => None,
        }
    }

    /// The span from `earlier` to this point in time, or `None` if `earlier` is later.
    pub fn duration_since(&self, earlier: SystemTime) -> (span: Option<Duration>)
        ensures
            span == (if earlier.nanos <= self.nanos {
                Some(Duration { nanos: (self.nanos - earlier.nanos) as u128 })
            } else {
                None
            }),
    {
        if earlier.nanos <= self.nanos {
            Some(Duration { nanos: self.nanos - earlier.nanos })
        } else {
            None
        }
    }
}

} // verus!
