//! Slot-range filters: the building blocks of the query pipeline.
//!
//! A filter answers, for a range of slots, with the first contiguous
//! sub-range of matching slots. Combinators intersect (`And`), negate
//! (`Not`) or union (`Or`, `Union`) the matched ranges.

use vstd::prelude::*;

use crate::changes::{Change, Changes};
use crate::slice::Slice;

verus! {

/// A slot-range filter. `filter_slots` returns the first contiguous run of
/// matching slots within `slots`: every slot of the result matches, no slot
/// before it does, and an empty result (pinned at `slots.end`) means
/// nothing in `slots` matches. Each filter also pins the run it returns as
/// the spec function `spec_next_run`, so the exact chunk sequence of a
/// query is determined by the contracts.
pub trait SlotFilter {
    spec fn spec_matches(&self, slot: int) -> bool;

    /// The run `filter_slots` answers for `slots`.
    spec fn spec_next_run(&self, slots: Slice) -> Slice;

    fn filter_slots(&self, slots: Slice) -> (r: Slice)
        requires
            slots.wf(),
        ensures
            r == self.spec_next_run(slots),
            r.wf(),
            r.spec_is_empty() ==> r == (Slice { start: slots.end, end: slots.end }) && forall|
                t: int,
            |
                slots.start <= t < slots.end ==> !self.spec_matches(t),
            !r.spec_is_empty() ==> slots.start <= r.start && r.end <= slots.end && (forall|t: int|
                r.start <= t < r.end ==> self.spec_matches(t)) && (forall|t: int|
                slots.start <= t < r.start ==> !self.spec_matches(t)),
    ;
}

/// A slice is itself a filter: it matches exactly the slots it covers, so
/// its next run is the whole intersection.
impl SlotFilter for Slice {
    open spec fn spec_matches(&self, slot: int) -> bool {
        self.spec_contains(slot)
    }

    open spec fn spec_next_run(&self, slots: Slice) -> Slice {
        let i = self.spec_intersect(slots);
        if i.spec_is_empty() {
            Slice { start: slots.end, end: slots.end }
        } else {
            i
        }
    }

    fn filter_slots(&self, slots: Slice) -> (r: Slice) {
        let i = self.intersect(&slots);
        if i.is_empty() {
            Slice::new(slots.end, slots.end)
        } else {
            i
        }
    }
}

/// Matches no slot.
#[derive(Clone, Copy, PartialEq, Eq, Structural, Debug)]
pub struct Nothing;

impl SlotFilter for Nothing {
    open spec fn spec_matches(&self, slot: int) -> bool {
        false
    }

    open spec fn spec_next_run(&self, slots: Slice) -> Slice {
        Slice { start: slots.end, end: slots.end }
    }

    fn filter_slots(&self, slots: Slice) -> (r: Slice) {
        Slice::new(slots.end, slots.end)
    }
}

/// Matches every slot.
#[derive(Clone, Copy, PartialEq, Eq, Structural, Debug)]
pub struct All;

impl SlotFilter for All {
    open spec fn spec_matches(&self, slot: int) -> bool {
        true
    }

    open spec fn spec_next_run(&self, slots: Slice) -> Slice {
        if slots.spec_is_empty() {
            Slice { start: slots.end, end: slots.end }
        } else {
            slots
        }
    }

    fn filter_slots(&self, slots: Slice) -> (r: Slice) {
        if slots.is_empty() {
            Slice::new(slots.end, slots.end)
        } else {
            slots
        }
    }
}

/// And combinator: a slot matches when both sides match.
#[derive(Clone, Copy, PartialEq, Eq, Structural, Debug)]
pub struct And<L, R>(pub L, pub R);

impl<L: SlotFilter, R: SlotFilter> SlotFilter for And<L, R> {
    open spec fn spec_matches(&self, slot: int) -> bool {
        self.0.spec_matches(slot) && self.1.spec_matches(slot)
    }

    open spec fn spec_next_run(&self, slots: Slice) -> Slice
        decreases slots.end - slots.start,
    {
        let l = self.0.spec_next_run(slots);
        if !(slots.start <= l.start && l.start < l.end && l.end <= slots.end) {
            Slice { start: slots.end, end: slots.end }
        } else {
            let both = self.1.spec_next_run(l);
            if !both.spec_is_empty() {
                both
            } else {
                self.spec_next_run(Slice { start: l.end, end: slots.end })
            }
        }
    }

    fn filter_slots(&self, slots: Slice) -> (r: Slice) {
        let mut rest = slots;
        loop
            invariant
                rest.wf(),
                slots.start <= rest.start,
                rest.end == slots.end,
                self.spec_next_run(slots) == self.spec_next_run(rest),
                forall|t: int|
                    slots.start <= t < rest.start ==> !(self.0.spec_matches(t)
                        && self.1.spec_matches(t)),
            decreases slots.end - rest.start,
        {
            let l = self.0.filter_slots(rest);
            if l.is_empty() {
                return Slice::new(slots.end, slots.end);
            }
            let both = self.1.filter_slots(l);
            if !both.is_empty() {
                return both;
            }
            rest = Slice::new(l.end, rest.end);
        }
    }
}

/// Negation: a slot matches when the inner filter does not match it.
#[derive(Clone, Copy, PartialEq, Eq, Structural, Debug)]
pub struct Not<T>(pub T);

impl<T: SlotFilter> SlotFilter for Not<T> {
    open spec fn spec_matches(&self, slot: int) -> bool {
        !self.0.spec_matches(slot)
    }

    open spec fn spec_next_run(&self, slots: Slice) -> Slice
        decreases slots.end - slots.start,
    {
        let v = self.0.spec_next_run(slots);
        if !(slots.start <= v.start && v.start < v.end && v.end <= slots.end) {
            if slots.start < slots.end {
                slots
            } else {
                Slice { start: slots.end, end: slots.end }
            }
        } else if v.start > slots.start {
            Slice { start: slots.start, end: v.start }
        } else if v.end >= slots.end {
            Slice { start: slots.end, end: slots.end }
        } else {
            self.spec_next_run(Slice { start: v.end, end: slots.end })
        }
    }

    fn filter_slots(&self, slots: Slice) -> (r: Slice) {
        let mut rest = slots;
        loop
            invariant
                rest.wf(),
                slots.start <= rest.start,
                rest.end == slots.end,
                self.spec_next_run(slots) == self.spec_next_run(rest),
                forall|t: int| slots.start <= t < rest.start ==> self.0.spec_matches(t),
            decreases slots.end - rest.start,
        {
            let v = self.0.filter_slots(rest);
            if v.is_empty() {
                if rest.is_empty() {
                    return Slice::new(slots.end, slots.end);
                }
                return rest;
            }
            if v.start > rest.start {
                return Slice::new(rest.start, v.start);
            }
            if v.end >= rest.end {
                return Slice::new(slots.end, slots.end);
            }
            rest = Slice::new(v.end, rest.end);
        }
    }
}

/// The lexicographically smaller of two slices; an empty one loses to a
/// slice starting earlier.
fn min_slice(a: Slice, b: Slice) -> (r: Slice)
    ensures
        r == (if a.spec_lt(b) {
            a
        } else {
            b
        }),
        r == a || r == b,
        r.spec_lt(a) || r == a,
        r.spec_lt(b) || r == b,
{
    if a.lt(&b) {
        a
    } else {
        b
    }
}

/// Or filter combinator: a slot matches when either side does. The result
/// is the earlier of the two sides' next runs.
#[derive(Clone, Copy, PartialEq, Eq, Structural, Debug)]
pub struct Or<T>(pub T);

impl<A: SlotFilter, B: SlotFilter> SlotFilter for Or<(A, B)> {
    open spec fn spec_matches(&self, slot: int) -> bool {
        self.0.0.spec_matches(slot) || self.0.1.spec_matches(slot)
    }

    open spec fn spec_next_run(&self, slots: Slice) -> Slice {
        let a = self.0.0.spec_next_run(slots);
        let b = self.0.1.spec_next_run(slots);
        let m = if a.spec_lt(b) {
            a
        } else {
            b
        };
        if m.spec_is_empty() {
            Slice { start: slots.end, end: slots.end }
        } else {
            m
        }
    }

    fn filter_slots(&self, slots: Slice) -> (r: Slice) {
        let a = self.0.0.filter_slots(slots);
        let b = self.0.1.filter_slots(slots);
        let m = min_slice(a, b);
        if m.is_empty() {
            Slice::new(slots.end, slots.end)
        } else {
            m
        }
    }
}

/// Union of the slot ranges of a tuple of filters, while each constituent
/// keeps its own reading of the archetype. For slot filtering it behaves
/// as the disjunction: the earliest next run among the branches.
#[derive(Clone, Copy, PartialEq, Eq, Structural, Debug)]
pub struct Union<T>(pub T);

impl<A: SlotFilter, B: SlotFilter> SlotFilter for Union<(A, B)> {
    open spec fn spec_matches(&self, slot: int) -> bool {
        self.0.0.spec_matches(slot) || self.0.1.spec_matches(slot)
    }

    open spec fn spec_next_run(&self, slots: Slice) -> Slice {
        let a = self.0.0.spec_next_run(slots);
        let b = self.0.1.spec_next_run(slots);
        let m = if a.spec_lt(b) {
            a
        } else {
            b
        };
        if m.spec_is_empty() {
            Slice { start: slots.end, end: slots.end }
        } else {
            m
        }
    }

    fn filter_slots(&self, slots: Slice) -> (r: Slice) {
        let a = self.0.0.filter_slots(slots);
        let b = self.0.1.filter_slots(slots);
        let m = min_slice(a, b);
        if m.is_empty() {
            Slice::new(slots.end, slots.end)
        } else {
            m
        }
    }
}

impl<A: SlotFilter, B: SlotFilter, C: SlotFilter, D: SlotFilter> SlotFilter for Union<
    (A, B, C, D),
> {
    open spec fn spec_matches(&self, slot: int) -> bool {
        self.0.0.spec_matches(slot) || self.0.1.spec_matches(slot) || self.0.2.spec_matches(slot)
            || self.0.3.spec_matches(slot)
    }

    open spec fn spec_next_run(&self, slots: Slice) -> Slice {
        let a = self.0.0.spec_next_run(slots);
        let b = self.0.1.spec_next_run(slots);
        let c = self.0.2.spec_next_run(slots);
        let d = self.0.3.spec_next_run(slots);
        let m1 = if a.spec_lt(b) {
            a
        } else {
            b
        };
        let m2 = if c.spec_lt(d) {
            c
        } else {
            d
        };
        let m = if m1.spec_lt(m2) {
            m1
        } else {
            m2
        };
        if m.spec_is_empty() {
            Slice { start: slots.end, end: slots.end }
        } else {
            m
        }
    }

    fn filter_slots(&self, slots: Slice) -> (r: Slice) {
        let a = self.0.0.filter_slots(slots);
        let b = self.0.1.filter_slots(slots);
        let c = self.0.2.filter_slots(slots);
        let d = self.0.3.filter_slots(slots);
        let m = min_slice(min_slice(a, b), min_slice(c, d));
        if m.is_empty() {
            Slice::new(slots.end, slots.end)
        } else {
            m
        }
    }
}

/// The changed-since filter: a slot matches when some change of kind
/// `Modified` or `Inserted` with a tick after `since` covers it.
#[derive(Clone, Debug)]
pub struct ChangeFilter {
    changes: Vec<Change>,
    since: u32,
}

/// Whether one stored change makes a slot count as changed after `since`.
pub open spec fn change_hits(c: Change, since: u32, slot: int) -> bool {
    (c.kind is Modified || c.kind is Inserted) && c.tick > since && c.slice.spec_contains(slot)
}

/// One step of the changed-since scan: a hitting record whose overlap with
/// `slots` starts earlier replaces the best run found so far.
pub open spec fn cf_step(best: Option<Slice>, c: Change, since: u32, slots: Slice) -> Option<
    Slice,
> {
    let inter = c.slice.spec_intersect(slots);
    if (c.kind is Modified || c.kind is Inserted) && c.tick > since && !inter.spec_is_empty() {
        match best {
            Option::None => Option::Some(inter),
            Option::Some(b) => if inter.start < b.start {
                Option::Some(inter)
            } else {
                best
            },
        }
    } else {
        best
    }
}

/// The best run over a whole change list, scanned in storage order.
pub open spec fn cf_best(cs: Seq<Change>, since: u32, slots: Slice) -> Option<Slice>
    decreases cs.len(),
{
    if cs.len() == 0 {
        Option::None
    } else {
        cf_step(cf_best(cs.drop_last(), since, slots), cs.last(), since, slots)
    }
}

impl ChangeFilter {
    pub closed spec fn spec_changes(&self) -> Seq<Change> {
        self.changes@
    }

    pub closed spec fn spec_since(&self) -> u32 {
        self.since
    }

    /// Captures the change list of one column for a changed-since query.
    pub fn new(changes: &Changes, since: u32) -> (r: ChangeFilter)
        ensures
            r.spec_changes() == changes@,
            r.spec_since() == since,
    {
        let list = changes.iter();
        let mut copied: Vec<Change> = Vec::new();
        let mut i: usize = 0;
        while i < list.len()
            invariant
                list@ == changes@,
                i <= list@.len(),
                copied@ == list@.take(i as int),
            decreases list@.len() - i,
        {
            copied.push(list[i]);
            proof {
                assert(copied@ =~= list@.take(i as int + 1));
            }
            i = i + 1;
        }
        proof {
            assert(list@.take(list@.len() as int) =~= list@);
        }
        ChangeFilter { changes: copied, since }
    }
}

impl SlotFilter for ChangeFilter {
    open spec fn spec_matches(&self, slot: int) -> bool {
        exists|i: int|
            0 <= i < self.spec_changes().len() && change_hits(
                #[trigger] self.spec_changes()[i],
                self.spec_since(),
                slot,
            )
    }

    open spec fn spec_next_run(&self, slots: Slice) -> Slice {
        match cf_best(self.spec_changes(), self.spec_since(), slots) {
            Option::Some(b) => b,
            Option::None => Slice { start: slots.end, end: slots.end },
        }
    }

    fn filter_slots(&self, slots: Slice) -> (r: Slice) {
        let mut best: Option<Slice> = None;
        let mut i: usize = 0;
        proof {
            assert(self.changes@.take(0) =~= Seq::<Change>::empty());
        }
        while i < self.changes.len()
            invariant
                i <= self.changes@.len(),
                slots.wf(),
                best == cf_best(self.spec_changes().take(i as int), self.spec_since(), slots),
                match best {
                    Option::Some(b) => !b.spec_is_empty() && b.wf() && slots.start <= b.start
                        && b.end <= slots.end && (forall|t: int|
                        b.start <= t < b.end ==> self.spec_matches(t)) && (forall|
                        w: int,
                        t: int,
                    |
                        0 <= w < i as int && slots.start <= t < b.start ==> !(
                        #[trigger] change_hits(self.spec_changes()[w], self.spec_since(), t))),
                    Option::None => forall|w: int, t: int|
                        0 <= w < i as int && slots.start <= t < slots.end ==> !(
                        #[trigger] change_hits(self.spec_changes()[w], self.spec_since(), t)),
                },
            decreases self.changes@.len() - i,
        {
            let c = self.changes[i];
            if (c.kind.is_modified() || c.kind.is_inserted()) && c.tick > self.since {
                let inter = c.slice.intersect(&slots);
                if !inter.is_empty() {
                    let replace = match best {
                        Some(b) => inter.start < b.start,
                        None => true,
                    };
                    if replace {
                        proof {
                            assert forall|u: int|
                                inter.start <= u < inter.end implies self.spec_matches(u) by {
                                assert(change_hits(self.spec_changes()[i as int], self.since, u));
                            }
                        }
                        best = Some(inter);
                    }
                }
            }
            proof {
                assert(self.spec_changes().take(i as int + 1).drop_last() =~= self.spec_changes()
                    .take(i as int));
                assert(self.spec_changes().take(i as int + 1).last() == self.spec_changes()[
                    i as int
                ]);
            }
            i = i + 1;
        }
        proof {
            assert(self.spec_changes().take(self.spec_changes().len() as int)
                =~= self.spec_changes());
        }
        match best {
            Some(b) => b,
            None => Slice::new(slots.end, slots.end),
        }
    }
}

/// Iterates the matching runs of a filter over a range of slots, in
/// ascending order.
pub struct FilterIter<F> {
    pub slots: Slice,
    pub filter: F,
}

impl<F: SlotFilter> FilterIter<F> {
    pub fn new(slots: Slice, filter: F) -> (r: FilterIter<F>)
        requires
            slots.wf(),
        ensures
            r.slots == slots,
            r.filter == filter,
    {
        FilterIter { slots, filter }
    }

    /// The next matching run: a non-empty sub-range of the remaining slots
    /// whose slots all match, preceded only by non-matching slots; `None`
    /// when no remaining slot matches.
    pub fn next(&mut self) -> (r: Option<Slice>)
        requires
            old(self).slots.wf(),
        ensures
            final(self).filter == old(self).filter,
            final(self).slots.wf(),
            r is None ==> final(self).slots == old(self).slots && forall|t: int|
                old(self).slots.start <= t < old(self).slots.end ==> !old(
                    self,
                ).filter.spec_matches(t),
            r is Some ==> {
                let c = r->Some_0;
                &&& !c.spec_is_empty()
                &&& old(self).slots.start <= c.start
                &&& c.end <= old(self).slots.end
                &&& forall|t: int| c.start <= t < c.end ==> old(self).filter.spec_matches(t)
                &&& forall|t: int|
                    old(self).slots.start <= t < c.start ==> !old(self).filter.spec_matches(t)
                &&& final(self).slots == (Slice { start: c.end, end: old(self).slots.end })
            },
    {
        let cur = self.filter.filter_slots(self.slots);
        if cur.is_empty() {
            None
        } else {
            self.slots = Slice::new(cur.end, self.slots.end);
            Some(cur)
        }
    }
}

} // verus!
