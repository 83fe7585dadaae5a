//! Half-open ranges of slots with the set algebra used by change tracking
//! and slot filtering.

use vstd::prelude::*;

verus! {

/// A half-open range `[start, end)` of slot indices within an archetype.
#[derive(Clone, Copy, PartialEq, Eq, Structural, Debug)]
pub struct Slice {
    pub start: usize,
    pub end: usize,
}

impl Slice {
    /// A well-formed slice never has `end` before `start`.
    pub open spec fn wf(self) -> bool {
        self.start <= self.end
    }

    pub open spec fn spec_len(self) -> int {
        self.end - self.start
    }

    pub open spec fn spec_is_empty(self) -> bool {
        self.end <= self.start
    }

    pub open spec fn spec_contains(self, slot: int) -> bool {
        self.start <= slot < self.end
    }

    /// Lexicographic order on `(start, end)`; the order change lists are kept in.
    pub open spec fn spec_lt(self, other: Slice) -> bool {
        self.start < other.start || (self.start == other.start && self.end < other.end)
    }

    /// Whether the union of two slices is one contiguous slice: they overlap
    /// or touch.
    pub open spec fn spec_union_defined(self, other: Slice) -> bool {
        self.end >= other.start && other.end >= self.start
    }

    pub open spec fn spec_union(self, other: Slice) -> Slice {
        Slice {
            start: if self.start <= other.start { self.start } else { other.start },
            end: if self.end >= other.end { self.end } else { other.end },
        }
    }

    pub open spec fn spec_intersect(self, other: Slice) -> Slice {
        let start = if self.start >= other.start { self.start } else { other.start };
        let lo_end = if self.end <= other.end { self.end } else { other.end };
        Slice { start, end: if lo_end >= start { lo_end } else { start } }
    }

    /// Set difference `self \ other` when it is a single contiguous slice;
    /// `None` when `other` cuts a hole strictly inside `self`.
    pub open spec fn spec_difference(self, other: Slice) -> Option<Slice> {
        if other.end <= self.start || self.end <= other.start {
            Some(self)
        } else if other.start <= self.start && self.end <= other.end {
            Some(Slice { start: self.end, end: self.end })
        } else if other.start <= self.start {
            Some(Slice { start: other.end, end: self.end })
        } else if self.end <= other.end {
            Some(Slice { start: self.start, end: other.start })
        } else {
            None
        }
    }

    /// Split `self` around a contained `other` into the parts before, inside
    /// and after it; `None` when `other` is not contained in `self`.
    pub open spec fn spec_split_with(self, other: Slice) -> Option<(Slice, Slice, Slice)> {
        if self.start <= other.start && other.end <= self.end {
            Some((
                Slice { start: self.start, end: other.start },
                other,
                Slice { start: other.end, end: self.end },
            ))
        } else {
            None
        }
    }

    /// Creates the slice `[start, end)`.
    pub fn new(start: usize, end: usize) -> (r: Slice)
        requires
            start <= end,
        ensures
            r == (Slice { start, end }),
    {
        Slice { start, end }
    }

    /// The slice holding exactly `slot`.
    pub fn single(slot: usize) -> (r: Slice)
        requires
            slot < usize::MAX,
        ensures
            r.start == slot,
            r.end == slot + 1,
            r.wf(),
            !r.spec_is_empty(),
            forall|t: int| r.spec_contains(t) <==> t == slot,
    {
        Slice { start: slot, end: slot + 1 }
    }

    /// The number of slots covered.
    pub fn len(&self) -> (r: usize)
        requires
            self.wf(),
        ensures
            r == self.spec_len(),
    {
        self.end - self.start
    }

    pub fn is_empty(&self) -> (r: bool)
        ensures
            r == self.spec_is_empty(),
    {
        self.end <= self.start
    }

    pub fn contains(&self, slot: usize) -> (r: bool)
        ensures
            r == self.spec_contains(slot as int),
    {
        self.start <= slot && slot < self.end
    }

    /// Strict lexicographic order on `(start, end)`.
    pub fn lt(&self, other: &Slice) -> (r: bool)
        ensures
            r == self.spec_lt(*other),
    {
        self.start < other.start || (self.start == other.start && self.end < other.end)
    }

    /// The overlap of the two slices, normalised to an empty slice at the
    /// intersection's start when they are disjoint.
    pub fn intersect(&self, other: &Slice) -> (r: Slice)
        ensures
            r == self.spec_intersect(*other),
            r.wf(),
            forall|t: int|
                r.spec_contains(t) <==> self.spec_contains(t) && other.spec_contains(t),
    {
        let start = if self.start >= other.start { self.start } else { other.start };
        let lo_end = if self.end <= other.end { self.end } else { other.end };
        Slice { start, end: if lo_end >= start { lo_end } else { start } }
    }

    /// The union of two overlapping or touching slices; `None` when they are
    /// apart.
    pub fn union(&self, other: &Slice) -> (r: Option<Slice>)
        ensures
            r is Some <==> self.spec_union_defined(*other),
            r is Some ==> r->Some_0 == self.spec_union(*other),
    {
        if self.end >= other.start && other.end >= self.start {
            Some(Slice {
                start: if self.start <= other.start { self.start } else { other.start },
                end: if self.end >= other.end { self.end } else { other.end },
            })
        } else {
            None
        }
    }

    /// Single-slice set difference `self \ other`.
    pub fn difference(&self, other: &Slice) -> (r: Option<Slice>)
        ensures
            r == self.spec_difference(*other),
    {
        if other.end <= self.start || self.end <= other.start {
            Some(*self)
        } else if other.start <= self.start && self.end <= other.end {
            Some(Slice { start: self.end, end: self.end })
        } else if other.start <= self.start {
            Some(Slice { start: other.end, end: self.end })
        } else if self.end <= other.end {
            Some(Slice { start: self.start, end: other.start })
        } else {
            None
        }
    }

    /// Splits `self` at a contained `other` into `(before, other, after)`.
    pub fn split_with(&self, other: &Slice) -> (r: Option<(Slice, Slice, Slice)>)
        ensures
            r == self.spec_split_with(*other),
    {
        if self.start <= other.start && other.end <= self.end {
            Some((
                Slice { start: self.start, end: other.start },
                *other,
                Slice { start: other.end, end: self.end },
            ))
        } else {
            None
        }
    }
}

} // verus!
