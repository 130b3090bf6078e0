//! Spans of time and points in time.
use vstd::prelude::*;

verus! {

/// Nanoseconds in one second.
pub const NANOS_PER_SEC: u128 = 1_000_000_000;

/// A span of time.
#[derive(Debug, Clone, Copy, PartialEq, Eq, PartialOrd, Ord, Hash, Structural)]
pub struct Duration {
    /// Length of the span in nanoseconds.
    pub nanos: u128,
}

/// A point in time, measured from a fixed origin that the owner of the clock
/// chooses.
#[derive(Debug, Clone, Copy, PartialEq, Eq, PartialOrd, Ord, Hash, Structural)]
pub struct Instant {
    /// Nanoseconds since the origin.
    pub nanos: u128,
}

/// The span of `secs` seconds.
pub open spec fn seconds(secs: nat) -> Duration {
    Duration { nanos: (secs * NANOS_PER_SEC) as u128 }
}

impl Duration {
    /// The span of `secs` seconds.
    pub fn from_secs(secs: u64) -> (d: Duration)
        ensures
            d == seconds(secs as nat),
            d.nanos == secs * NANOS_PER_SEC,
    {
        Duration { nanos: secs as u128 * NANOS_PER_SEC }
    }

    /// Whether the span is empty.
    pub fn is_zero(&self) -> (b: bool)
        ensures
            b == (self.nanos == 0),
    {
        self.nanos == 0
    }
}

impl Instant {
    /// The point in time `d` after this one.
    pub open spec fn plus(self, d: Duration) -> Instant {
        Instant { nanos: (self.nanos + d.nanos) as u128 }
    }

    /// Whether the point in time `d` after this one can be represented.
    pub open spec fn reaches(self, d: Duration) -> bool {
        self.nanos + d.nanos <= u128::MAX
    }

    /// The point in time `d` after this one.
    pub fn after(&self, d: Duration) -> (res: Instant)
        requires
            self.reaches(d),
        ensures
            res == self.plus(d),
            res.nanos == self.nanos + d.nanos,
    {
        Instant { nanos: self.nanos + d.nanos }
    }
}

impl DeepView for Duration {
    type V = Duration;

    open spec fn deep_view(&self) -> Duration {
        *self
    }
}

impl DeepView for Instant {
    type V = Instant;

    open spec fn deep_view(&self) -> Instant {
        *self
    }
}

} // verus!
