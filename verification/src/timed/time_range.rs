//! Time ranges of the transitions of a timed net.
use vstd::prelude::*;

verus! {

/// One end of a time range.
#[derive(PartialEq, Eq, Structural, Debug, Clone, Copy)]
pub enum Bound {
    /// The end point belongs to the range.
    Closed(usize),
    /// The end point does not belong to the range.
    Open(usize),
    /// No bound on this side.
    Infinity,
}

/// The range of time in which a transition may fire.
#[derive(PartialEq, Eq, Structural, Debug, Clone, Copy)]
pub struct TimeRange {
    /// Where the range starts.
    pub start: Bound,
    /// Where the range ends.
    pub end: Bound,
}

impl Bound {
    /// As the start of a range, the bound lets the instant `t` in.
    pub open spec fn admits_from(self, t: int) -> bool {
        match self {
            Bound::Closed(n) => n <= t,
            Bound::Open(n) => n < t,
            Bound::Infinity => true,
        }
    }

    /// As the end of a range, the bound lets the instant `t` in.
    pub open spec fn admits_until(self, t: int) -> bool {
        match self {
            Bound::Closed(n) => t <= n,
            Bound::Open(n) => t < n,
            Bound::Infinity => true,
        }
    }

    /// The later of two starts; at one instant an open bound wins over a closed one, and
    /// an unbounded side gives way to the other.
    pub open spec fn later(self, other: Bound) -> Bound {
        match (self, other) {
            (Bound::Infinity, o) => o,
            (o, Bound::Infinity) => o,
            (Bound::Closed(a), Bound::Closed(b)) => if a < b {
                other
            } else {
                self
            },
            (Bound::Closed(a), Bound::Open(b)) => if a <= b {
                other
            } else {
                self
            },
            (Bound::Open(a), Bound::Closed(b)) => if a < b {
                other
            } else {
                self
            },
            (Bound::Open(a), Bound::Open(b)) => if a < b {
                other
            } else {
                self
            },
        }
    }

    /// The earlier of two ends; at one instant an open bound wins over a closed one, and
    /// an unbounded side gives way to the other.
    pub open spec fn earlier(self, other: Bound) -> Bound {
        match (self, other) {
            (Bound::Infinity, o) => o,
            (o, Bound::Infinity) => o,
            (Bound::Closed(a), Bound::Closed(b)) => if a > b {
                other
            } else {
                self
            },
            (Bound::Closed(a), Bound::Open(b)) => if a >= b {
                other
            } else {
                self
            },
            (Bound::Open(a), Bound::Closed(b)) => if a > b {
                other
            } else {
                self
            },
            (Bound::Open(a), Bound::Open(b)) => if a > b {
                other
            } else {
                self
            },
        }
    }
}

impl TimeRange {
    /// The instant `t` lies in the range.
    pub open spec fn contains(self, t: int) -> bool {
        self.start.admits_from(t) && self.end.admits_until(t)
    }

    /// The range that holds the instants of both ranges.
    pub open spec fn meet(self, other: TimeRange) -> TimeRange {
        TimeRange { start: self.start.later(other.start), end: self.end.earlier(other.end) }
    }

    /// The intersection of `self` and `other`.
    #[must_use]
    pub fn intersect(&self, other: Self) -> (r: Self)
        ensures
            r == self.meet(other),
    {
        let new_start = match (self.start, other.start) {
            (Bound::Infinity, o) => o,
            (o, Bound::Infinity) => o,
            (Bound::Closed(a), Bound::Closed(b)) => if a < b {
                other.start
            } else {
                self.start
            },
            (Bound::Closed(a), Bound::Open(b)) => if a <= b {
                other.start
            } else {
                self.start
            },
            (Bound::Open(a), Bound::Closed(b)) => if a < b {
                other.start
            } else {
                self.start
            },
            (Bound::Open(a), Bound::Open(b)) => if a < b {
                other.start
            } else {
                self.start
            },
        };
        let new_end = match (self.end, other.end) {
            (Bound::Infinity, o) => o,
            (o, Bound::Infinity) => o,
            (Bound::Closed(a), Bound::Closed(b)) => if a > b {
                other.end
            } else {
                self.end
            },
            (Bound::Closed(a), Bound::Open(b)) => if a >= b {
                other.end
            } else {
                self.end
            },
            (Bound::Open(a), Bound::Closed(b)) => if a > b {
                other.end
            } else {
                self.end
            },
            (Bound::Open(a), Bound::Open(b)) => if a > b {
                other.end
            } else {
                self.end
            },
        };
        TimeRange { start: new_start, end: new_end }
    }

    /// An instant lies in the intersection of two ranges exactly if it lies in both.
    pub proof fn lemma_intersect_contains(self, other: TimeRange, t: int)
        ensures
            self.meet(other).contains(t) <==> self.contains(t) && other.contains(t),
    {
    }

    /// Intersecting does not depend on the order of the two ranges, and a range
    /// intersected with itself or with the unbounded range is unchanged.
    pub proof fn lemma_intersect_laws(self, other: TimeRange)
        ensures
            self.meet(other) == other.meet(self),
            self.meet(self) == self,
            self.meet(TimeRange { start: Bound::Infinity, end: Bound::Infinity }) == self,
    {
    }
}

impl Default for TimeRange {
    /// The range `[0, ∞)`.
    fn default() -> (r: Self)
        ensures
            r == (TimeRange { start: Bound::Closed(0), end: Bound::Infinity }),
    {
        TimeRange { start: Bound::Closed(0), end: Bound::Infinity }
    }
}

} // verus!
