//! Readings of a monotonic clock and spans of time.

use vstd::prelude::*;

use crate::error::{failure, Error, ErrorKind, ErrorView};

verus! {

/// A span of time.
#[derive(Debug, Clone, Copy, PartialEq, Eq, Structural)]
pub struct Duration {
    pub nanos: u128,
}

/// A reading of a monotonic clock, counted from a fixed origin.
#[derive(Debug, Clone, Copy, PartialEq, Eq, Structural)]
pub struct Instant {
    pub nanos: u128,
}

/// The last instant that the clock can express: a signed 64-bit number of seconds.
pub const MAX_INSTANT_NANOS: u128 = 9_223_372_036_854_775_807_999_999_999;

impl Duration {
    pub fn from_secs(secs: u64) -> (r: Duration)
        ensures
            r.nanos == secs * 1_000_000_000,
    {
        Duration { nanos: secs as u128 * 1_000_000_000 }
    }

    pub fn from_millis(millis: u64) -> (r: Duration)
        ensures
            r.nanos == millis * 1_000_000,
    {
        Duration { nanos: millis as u128 * 1_000_000 }
    }

    pub fn is_zero(self) -> (r: bool)
        ensures
            r == (self.nanos == 0),
    {
        self.nanos == 0
    }

    /// The shorter of two spans.
    pub open spec fn least(self, other: Duration) -> Duration {
        if self.nanos <= other.nanos {
            self
        } else {
            other
        }
    }

    /// The shorter of two spans.
    pub fn min(self, other: Duration) -> (r: Duration)
        ensures
            r == self.least(other),
    {
        if self.nanos <= other.nanos {
            self
        } else {
            other
        }
    }
}

impl Instant {
    /// The instant a span later, where the clock can express it.
    pub open spec fn later(self, span: Duration) -> Option<Instant> {
        if self.nanos + span.nanos <= MAX_INSTANT_NANOS {
            Some(Instant { nanos: (self.nanos + span.nanos) as u128 })
        } else {
            None
        }
    }

    /// The instant a span later, where the clock can express it.
    pub fn checked_add(self, span: Duration) -> (r: Option<Instant>)
        ensures
            r == self.later(span),
    {
        match self.nanos.checked_add(span.nanos) {
            Some(nanos) => if nanos <= MAX_INSTANT_NANOS {
                Some(Instant { nanos })
            } else {
                None
            },
            None => None,
        }
    }

    /// The time that has passed since an earlier instant; none where it lies ahead.
    pub open spec fn since(self, earlier: Instant) -> Duration {
        if self.nanos >= earlier.nanos {
            Duration { nanos: (self.nanos - earlier.nanos) as u128 }
        } else {
            Duration { nanos: 0 }
        }
    }

    /// The time that has passed since an earlier instant; none where it lies ahead.
    pub fn duration_since(self, earlier: Instant) -> (r: Duration)
        ensures
            r == self.since(earlier),
    {
        if self.nanos >= earlier.nanos {
            Duration { nanos: self.nanos - earlier.nanos }
        } else {
            Duration { nanos: 0 }
        }
    }

    /// The time since an instant that is not ahead.
    pub fn checked_duration_since(self, earlier: Instant) -> (r: Option<Duration>)
        ensures
            r == (if self.nanos >= earlier.nanos {
                Some(self.since(earlier))
            } else {
                None
            }),
    {
        if self.nanos >= earlier.nanos {
            Some(Duration { nanos: self.nanos - earlier.nanos })
        } else {
            None
        }
    }
}

/// The failure of a request whose deadline has passed.
pub open spec fn deadline_failure() -> ErrorView {
    failure(ErrorKind::TimedOut, "HTTP request deadline exceeded"@)
}

/// The time left until a deadline.
pub fn remaining(deadline: Instant, now: Instant) -> (r: Result<Duration, Error>)
    ensures
        match r {
            Ok(left) => now.nanos <= deadline.nanos && left == deadline.since(now),
            Err(e) => now.nanos > deadline.nanos && e@ == deadline_failure(),
        },
{
    match deadline.checked_duration_since(now) {
        Some(left) => Ok(left),
        None => Err(Error::new(ErrorKind::TimedOut, "HTTP request deadline exceeded")),
    }
}

} // verus!
