use vstd::prelude::*;
use crate::mv_record_model::record_point::Key;

verus! {

/// A closed key range `[lower, upper]`, the fence of an index entry.
#[derive(Clone, Copy, PartialEq, Eq, Structural)]
pub struct Interval {
    pub lower: Key,
    pub upper: Key,
}

impl Interval {
    pub open spec fn spec_contains(self, key: Key) -> bool {
        self.lower <= key <= self.upper
    }

    /// The two ranges share a key (both taken as non-empty bounds).
    pub open spec fn spec_overlap(self, other: Interval) -> bool {
        self.lower <= other.upper && other.lower <= self.upper && self.lower <= self.upper
            && other.lower <= other.upper
    }

    pub fn new(lower: Key, upper: Key) -> (r: Self)
        ensures
            r == (Interval { lower, upper }),
    {
        Interval { lower, upper }
    }

    pub fn lower(&self) -> (r: Key)
        ensures
            r == self.lower,
    {
        self.lower
    }

    pub fn upper(&self) -> (r: Key)
        ensures
            r == self.upper,
    {
        self.upper
    }

    /// Whether `key` lies in the range.
    pub fn contains(&self, key: Key) -> (r: bool)
        ensures
            r == self.spec_contains(key),
    {
        self.lower <= key && key <= self.upper
    }

    /// Whether the two ranges share a key.
    pub fn overlap(&self, other: &Interval) -> (r: bool)
        ensures
            r == self.spec_overlap(*other),
            r == exists|k: Key| self.spec_contains(k) && other.spec_contains(k),
    {
        let lo = if self.lower < other.lower { other.lower } else { self.lower };
        let hi = if self.upper < other.upper { self.upper } else { other.upper };
        if lo <= hi {
            assert(self.spec_contains(lo) && other.spec_contains(lo));
            true
        } else {
            false
        }
    }

    /// Widens the range to also cover `other`.
    pub fn merged(&mut self, other: &Interval)
        ensures
            final(self).lower == if old(self).lower <= other.lower { old(self).lower } else { other.lower },
            final(self).upper == if old(self).upper >= other.upper { old(self).upper } else { other.upper },
    {
        if other.lower < self.lower {
            self.lower = other.lower;
        }
        if other.upper > self.upper {
            self.upper = other.upper;
        }
    }
}

} // verus!
