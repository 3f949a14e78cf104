use vstd::prelude::*;

verus! {

/// A closed integer interval `[start, end]` of coordinates; it is nonempty
/// exactly when `start <= end`. A pair with `start > end` is the degenerate
/// sentinel produced by zero-width operations.
#[derive(Clone, Copy, Debug, PartialEq, Eq, Structural)]
pub struct Interval {
    pub start: i64,
    pub end: i64,
}

impl Interval {
    pub open spec fn wf(self) -> bool {
        self.start <= self.end
    }

    /// Number of integer points in the interval.
    pub open spec fn spec_size(self) -> int {
        if self.start <= self.end {
            self.end - self.start + 1
        } else {
            0
        }
    }

    pub open spec fn spec_contains(self, p: int) -> bool {
        self.start <= p <= self.end
    }

    pub fn new(start: i64, end: i64) -> (r: Interval)
        ensures
            r.start == start,
            r.end == end,
    {
        Interval { start, end }
    }

    pub fn is_empty(&self) -> (r: bool)
        ensures
            r == !self.wf(),
    {
        self.start > self.end
    }

    pub fn size(&self) -> (r: i64)
        requires
            self.spec_size() <= i64::MAX,
        ensures
            r == self.spec_size(),
    {
        if self.start <= self.end {
            self.end - self.start + 1
        } else {
            0
        }
    }

    pub fn contains(&self, p: i64) -> (r: bool)
        ensures
            r == self.spec_contains(p as int),
    {
        self.start <= p && p <= self.end
    }

    /// Whether two intervals share at least one point.
    pub open spec fn spec_overlaps(self, other: Interval) -> bool {
        self.start <= other.end && other.start <= self.end
    }

    pub fn overlaps(&self, other: &Interval) -> (r: bool)
        ensures
            r == self.spec_overlaps(*other),
    {
        self.start <= other.end && other.start <= self.end
    }
}

} // verus!
