//! Points in time and spans of time, in microseconds.

use vstd::prelude::*;

verus! {

/// A point in time, in microseconds from a start that the caller chooses.
#[derive(Debug, Clone, Copy, PartialEq, Eq, PartialOrd, Ord, Structural)]
pub struct Instant {
    pub micros: i64,
}

/// A span of time, in microseconds.
#[derive(Debug, Clone, Copy, PartialEq, Eq, PartialOrd, Ord, Structural)]
pub struct Duration {
    pub micros: u64,
}

impl Instant {
    /// The instant so many microseconds after the start.
    pub fn from_micros(micros: i64) -> (t: Instant)
        ensures
            t.micros == micros,
    {
        Instant { micros }
    }

    /// The instant that lies `span` later.
    pub fn plus(self, span: Duration) -> (t: Instant)
        requires
            self.micros + span.micros <= i64::MAX,
        ensures
            t.micros == self.micros + span.micros,
    {
        let wide: i128 = self.micros as i128 + span.micros as i128;
        Instant { micros: wide as i64 }
    }
}

impl Duration {
    /// Twice the span.
    pub fn doubled(self) -> (d: Duration)
        requires
            self.micros * 2 <= u64::MAX,
        ensures
            d.micros == self.micros * 2,
    {
        Duration { micros: self.micros * 2 }
    }

    /// The shorter of two spans.
    pub fn shorter(self, other: Duration) -> (d: Duration)
        ensures
            d == (if self.micros <= other.micros {
                self
            } else {
                other
            }),
    {
        if self.micros <= other.micros {
            self
        } else {
            other
        }
    }
}

} // verus!
