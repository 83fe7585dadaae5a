//! Chunked query iteration: per archetype, yield the contiguous runs of
//! slots a filter matches, in ascending order, then the single items of
//! each run.

use vstd::prelude::*;

use crate::archetype::{Archetype, ArchetypeId};
use crate::archetypes::Archetypes;
use crate::component::Entity;
use crate::filter::SlotFilter;
use crate::slice::Slice;

verus! {

/// A contiguous run of slots within one archetype, with the entity ids of
/// the run captured for per-item iteration.
pub struct Batch {
    arch_id: ArchetypeId,
    ids: Vec<Entity>,
    pos: usize,
    end: usize,
}

impl Batch {
    pub closed spec fn spec_arch_id(&self) -> ArchetypeId {
        self.arch_id
    }

    pub closed spec fn spec_ids(&self) -> Seq<Entity> {
        self.ids@
    }

    pub closed spec fn spec_pos(&self) -> int {
        self.pos as int
    }

    pub closed spec fn spec_end(&self) -> int {
        self.end as int
    }

    pub open spec fn wf(&self) -> bool {
        self.spec_pos() <= self.spec_end() && self.spec_ids().len() == self.spec_end()
            - self.spec_pos()
    }

    /// Captures the run `slice` of `arch`: the remaining slots and their
    /// entity ids.
    pub fn new(arch: &Archetype, arch_id: ArchetypeId, slice: Slice) -> (r: Batch)
        requires
            arch.wf(),
            slice.wf(),
            slice.end <= arch.spec_len(),
        ensures
            r.wf(),
            r.spec_arch_id() == arch_id,
            r.spec_pos() == slice.start,
            r.spec_end() == slice.end,
            forall|k: int|
                0 <= k < r.spec_ids().len() ==> #[trigger] r.spec_ids()[k]
                    == arch.spec_entities()[slice.start + k],
    {
        let mut ids: Vec<Entity> = Vec::new();
        let mut s: usize = slice.start;
        while s < slice.end
            invariant
                arch.wf(),
                slice.wf(),
                slice.end <= arch.spec_len(),
                slice.start <= s <= slice.end,
                ids@.len() == s - slice.start,
                forall|k: int|
                    0 <= k < ids@.len() ==> #[trigger] ids@[k] == arch.spec_entities()[
                        slice.start + k
                    ],
            decreases slice.end - s,
        {
            ids.push(arch.entity(s));
            s = s + 1;
        }
        Batch { arch_id, ids, pos: slice.start, end: slice.end }
    }

    /// The archetype this batch iterates.
    pub fn arch(&self) -> (r: ArchetypeId)
        ensures
            r == self.spec_arch_id(),
    {
        self.arch_id
    }

    /// The slots still to be yielded.
    pub fn slots(&self) -> (r: Slice)
        requires
            self.wf(),
        ensures
            r.start == self.spec_pos(),
            r.end == self.spec_end(),
    {
        Slice::new(self.pos, self.end)
    }

    /// Returns the number of items which would be yielded by this batch.
    pub fn len(&self) -> (r: usize)
        requires
            self.wf(),
        ensures
            r == self.spec_end() - self.spec_pos(),
    {
        self.end - self.pos
    }

    /// Returns true if the batch is empty.
    pub fn is_empty(&self) -> (r: bool)
        requires
            self.wf(),
        ensures
            r == (self.spec_pos() == self.spec_end()),
    {
        self.pos == self.end
    }

    /// The next slot of the run.
    pub fn next_slot(&mut self) -> (r: Option<usize>)
        requires
            old(self).wf(),
        ensures
            final(self).wf(),
            final(self).spec_arch_id() == old(self).spec_arch_id(),
            final(self).spec_end() == old(self).spec_end(),
            old(self).spec_pos() == old(self).spec_end() ==> r is None && *final(self) == *old(
                self,
            ),
            old(self).spec_pos() < old(self).spec_end() ==> r == Option::Some(
                old(self).spec_pos() as usize,
            ) && final(self).spec_pos() == old(self).spec_pos() + 1 && final(self).spec_ids()
                == old(self).spec_ids().skip(1),
    {
        if self.pos == self.end {
            None
        } else {
            let s = self.pos;
            self.pos = self.pos + 1;
            let id = self.ids.remove(0);
            proof {
                assert(final(self).spec_ids() =~= old(self).spec_ids().skip(1));
            }
            Some(s)
        }
    }

    /// The next slot of the run together with the entity stored there.
    pub fn next_with_id(&mut self) -> (r: Option<(Entity, usize)>)
        requires
            old(self).wf(),
        ensures
            final(self).wf(),
            final(self).spec_arch_id() == old(self).spec_arch_id(),
            final(self).spec_end() == old(self).spec_end(),
            old(self).spec_pos() == old(self).spec_end() ==> r is None && *final(self) == *old(
                self,
            ),
            old(self).spec_pos() < old(self).spec_end() ==> r == Option::Some(
                (old(self).spec_ids()[0], old(self).spec_pos() as usize),
            ) && final(self).spec_pos() == old(self).spec_pos() + 1 && final(self).spec_ids()
                == old(self).spec_ids().skip(1),
    {
        if self.pos == self.end {
            None
        } else {
            let s = self.pos;
            self.pos = self.pos + 1;
            let id = self.ids.remove(0);
            proof {
                assert(final(self).spec_ids() =~= old(self).spec_ids().skip(1));
            }
            Some((id, s))
        }
    }
}

/// Iterates one archetype in chunks: each call yields the next contiguous
/// run of slots the filter matches.
pub struct ArchetypeChunks<F> {
    pub arch_id: ArchetypeId,
    pub slots: Slice,
    pub filter: F,
}

impl<F: SlotFilter> ArchetypeChunks<F> {
    pub fn new(arch_id: ArchetypeId, slots: Slice, filter: F) -> (r: ArchetypeChunks<F>)
        requires
            slots.wf(),
        ensures
            r.arch_id == arch_id,
            r.slots == slots,
            r.filter == filter,
    {
        ArchetypeChunks { arch_id, slots, filter }
    }

    /// The next matching run at or after the remaining slots' start: a
    /// non-empty sub-slice of the remaining slots whose slots all match,
    /// preceded only by non-matching slots. The remaining slots advance
    /// past it, so consecutive chunks are disjoint and ascending. `None`
    /// means no remaining slot matches (and nothing changes).
    pub fn next_chunk(&mut self) -> (r: Option<Slice>)
        requires
            old(self).slots.wf(),
        ensures
            final(self).arch_id == old(self).arch_id,
            final(self).filter == old(self).filter,
            final(self).slots.wf(),
            r is None ==> final(self).slots == old(self).slots && forall|t: int|
                old(self).slots.start <= t < old(self).slots.end ==> !old(
                    self,
                ).filter.spec_matches(t),
            r is Some ==> {
                let c = r->Some_0;
                &&& !c.spec_is_empty()
                &&& old(self).slots.spec_split_with(c) is Some
                &&& forall|t: int| c.start <= t < c.end ==> old(self).filter.spec_matches(t)
                &&& forall|t: int|
                    old(self).slots.start <= t < c.start ==> !old(self).filter.spec_matches(t)
                &&& final(self).slots == (Slice { start: c.end, end: old(self).slots.end })
            },
            // the chunk is exactly the filter's next run
            ({
                let cur = old(self).filter.spec_next_run(old(self).slots);
                &&& (r is None <==> cur.spec_is_empty())
                &&& (r is Some ==> r->Some_0 == cur)
            }),
    {
        let cur = self.filter.filter_slots(self.slots);
        if cur.is_empty() {
            None
        } else {
            self.slots = Slice::new(cur.end, self.slots.end);
            Some(cur)
        }
    }
}

/// Drives the chunked iteration over a set of prepared archetypes, in
/// order: all chunks of the first archetype, then the next.
pub struct BatchedIter<F> {
    pub prepared: Vec<ArchetypeChunks<F>>,
    pub idx: usize,
}

impl<F: SlotFilter> BatchedIter<F> {
    pub open spec fn wf(&self) -> bool {
        &&& self.idx <= self.prepared@.len()
        &&& forall|q: int| 0 <= q < self.prepared@.len() ==> (#[trigger] self.prepared@[q]).slots.wf()
    }

    pub fn new(prepared: Vec<ArchetypeChunks<F>>) -> (r: BatchedIter<F>)
        requires
            forall|q: int| 0 <= q < prepared@.len() ==> (#[trigger] prepared@[q]).slots.wf(),
        ensures
            r.wf(),
            r.prepared@ == prepared@,
            r.idx == 0,
    {
        BatchedIter { prepared, idx: 0 }
    }

    /// Gives up on the archetype the last chunk came from, moving on to
    /// the next one.
    pub fn skip_current(&mut self)
        requires
            old(self).wf(),
        ensures
            final(self).wf(),
            final(self).prepared@ == old(self).prepared@,
            old(self).idx < old(self).prepared@.len() ==> final(self).idx == old(self).idx + 1,
            old(self).idx >= old(self).prepared@.len() ==> final(self).idx == old(self).idx,
    {
        if self.idx < self.prepared.len() {
            self.idx = self.idx + 1;
        }
    }

    /// The next matching run over all remaining archetypes: a non-empty
    /// run of matching slots of one archetype, cut out of that archetype's
    /// remaining slots, which advance past it. Archetypes are exhausted in
    /// order.
    pub fn next(&mut self) -> (r: Option<(ArchetypeId, Slice)>)
        requires
            old(self).wf(),
        ensures
            final(self).wf(),
            final(self).prepared@.len() == old(self).prepared@.len(),
            forall|q: int|
                0 <= q < old(self).prepared@.len() ==> (#[trigger] final(self).prepared@[q]).arch_id
                    == old(self).prepared@[q].arch_id && final(self).prepared@[q].filter == old(
                    self,
                ).prepared@[q].filter && final(self).prepared@[q].slots.start >= old(
                    self,
                ).prepared@[q].slots.start && final(self).prepared@[q].slots.end == old(
                    self,
                ).prepared@[q].slots.end,
            // nothing is yielded only once no remaining slot of any
            // remaining archetype matches, and then nothing has moved
            r is None ==> final(self).idx == final(self).prepared@.len() && (forall|q: int|
                0 <= q < old(self).prepared@.len() ==> #[trigger] final(self).prepared@[q] == old(
                    self,
                ).prepared@[q]) && (forall|q: int, t: int|
                #![trigger old(self).prepared@[q].filter.spec_matches(t)]
                old(self).idx <= q < old(self).prepared@.len() && old(self).prepared@[
                    q
                ].slots.start <= t < old(self).prepared@[q].slots.end ==> !old(
                    self,
                ).prepared@[q].filter.spec_matches(t)),
            // a yield is the next run of the first remaining archetype with
            // a matching slot; the archetypes skipped on the way had none
            r is Some ==> {
                let q = final(self).idx as int;
                let c = r->Some_0.1;
                &&& old(self).idx <= q < old(self).prepared@.len()
                &&& r->Some_0.0 == old(self).prepared@[q].arch_id
                &&& c == old(self).prepared@[q].filter.spec_next_run(
                    old(self).prepared@[q].slots,
                )
                &&& !c.spec_is_empty()
                &&& c.wf()
                &&& c.start >= old(self).prepared@[q].slots.start
                &&& c.end <= old(self).prepared@[q].slots.end
                &&& (forall|t: int|
                    c.start <= t < c.end ==> old(self).prepared@[q].filter.spec_matches(t))
                &&& (forall|t: int|
                    old(self).prepared@[q].slots.start <= t < c.start ==> !old(
                        self,
                    ).prepared@[q].filter.spec_matches(t))
                &&& final(self).prepared@[q].slots == (Slice {
                    start: c.end,
                    end: old(self).prepared@[q].slots.end,
                })
                &&& (forall|w: int|
                    0 <= w < old(self).prepared@.len() && w != q
                        ==> #[trigger] final(self).prepared@[w] == old(self).prepared@[w])
                &&& (forall|w: int, t: int|
                    #![trigger old(self).prepared@[w].filter.spec_matches(t)]
                    old(self).idx <= w < q && old(self).prepared@[w].slots.start <= t < old(
                        self,
                    ).prepared@[w].slots.end ==> !old(self).prepared@[w].filter.spec_matches(t))
            },
            r is None ==> final(self).idx == final(self).prepared@.len(),
            final(self).idx >= old(self).idx,
            r is Some ==> final(self).idx < final(self).prepared@.len(),
    {
        while self.idx < self.prepared.len()
            invariant
                self.wf(),
                self.idx >= old(self).idx,
                self.prepared@.len() == old(self).prepared@.len(),
                forall|q: int|
                    0 <= q < old(self).prepared@.len() ==> #[trigger] self.prepared@[q] == old(
                        self,
                    ).prepared@[q],
                forall|q: int, t: int|
                    #![trigger old(self).prepared@[q].filter.spec_matches(t)]
                    old(self).idx <= q < self.idx as int && old(self).prepared@[q].slots.start <= t
                        < old(self).prepared@[q].slots.end ==> !old(
                        self,
                    ).prepared@[q].filter.spec_matches(t),
            decreases self.prepared@.len() - self.idx,
        {
            let i = self.idx;
            let ghost pre = self.prepared@;
            let chunk = self.prepared[i].next_chunk();
            proof {
                assert forall|q: int|
                    0 <= q < self.prepared@.len() && q != i as int implies #[trigger] self
                    .prepared@[q] == pre[q] by {}
            }
            match chunk {
                Some(c) => {
                    let aid = self.prepared[i].arch_id;
                    return Some((aid, c));
                },
                None => {
                    self.idx = self.idx + 1;
                },
            }
        }
        None
    }
}

/// The flattened query iterator: yields one entity and slot at a time, in
/// batch order.
pub struct QueryIter<F> {
    pub inner: BatchedIter<F>,
    pub current: Option<Batch>,
}

impl<F: SlotFilter> QueryIter<F> {
    pub open spec fn wf(&self) -> bool {
        &&& self.inner.wf()
        &&& match self.current {
            Option::Some(b) => b.wf(),
            Option::None => true,
        }
    }

    /// The cached batch was cut from a live archetype and its captured ids
    /// are that archetype's entities at the batch's remaining slots.
    pub open spec fn batch_valid(&self, archetypes: &Archetypes) -> bool {
        match self.current {
            Option::Some(b) => archetypes.spec_is_live(b.spec_arch_id()) && b.spec_end()
                <= archetypes.spec_arch(b.spec_arch_id()).spec_len() && (forall|k: int|
                0 <= k < b.spec_ids().len() ==> #[trigger] b.spec_ids()[k] == archetypes.spec_arch(
                    b.spec_arch_id(),
                ).spec_entities()[b.spec_pos() + k]),
            Option::None => true,
        }
    }

    pub fn new(inner: BatchedIter<F>) -> (r: QueryIter<F>)
        requires
            inner.wf(),
        ensures
            r.wf(),
            r.current is None,
            r.inner == inner,
    {
        QueryIter { inner, current: None }
    }

    /// The next entity and slot of the query: drains the current batch,
    /// then fetches the next chunk from the remaining archetypes. A yielded
    /// slot lies in its live archetype and comes back with the entity
    /// stored there; nothing comes back only once every archetype is
    /// exhausted.
    pub fn next(&mut self, archetypes: &Archetypes) -> (r: Option<(Entity, usize)>)
        requires
            old(self).wf(),
            old(self).batch_valid(archetypes),
            archetypes.wf(),
        ensures
            final(self).wf(),
            final(self).batch_valid(archetypes),
            r is None ==> final(self).inner.idx == final(self).inner.prepared@.len(),
            r is Some ==> final(self).current is Some && {
                let b = final(self).current->Some_0;
                &&& archetypes.spec_is_live(b.spec_arch_id())
                &&& r->Some_0.1 < archetypes.spec_arch(b.spec_arch_id()).spec_len()
                &&& r->Some_0.1 + 1 == b.spec_pos()
                &&& r->Some_0.0 == archetypes.spec_arch(b.spec_arch_id()).spec_entities()[
                    r->Some_0.1 as int
                ]
            },
    {
        loop
            invariant
                self.wf(),
                self.batch_valid(archetypes),
                archetypes.wf(),
            decreases self.inner.prepared@.len() - self.inner.idx,
        {
            let ghost pre = *self;
            let take = match &mut self.current {
                Some(b) => b.next_with_id(),
                None => None,
            };
            if take.is_some() {
                proof {
                    let b0 = pre.current->Some_0;
                    let b1 = self.current->Some_0;
                    assert(take->Some_0.0 == b0.spec_ids()[0]);
                    assert(b0.spec_ids()[0] == archetypes.spec_arch(
                        b0.spec_arch_id(),
                    ).spec_entities()[b0.spec_pos()]);
                    assert forall|k: int| 0 <= k < b1.spec_ids().len() implies #[trigger] b1
                        .spec_ids()[k] == archetypes.spec_arch(b1.spec_arch_id()).spec_entities()[
                        b1.spec_pos() + k
                    ] by {
                        assert(b1.spec_ids()[k] == b0.spec_ids()[k + 1]);
                    }
                }
                return take;
            }
            self.current = None;
            match self.inner.next() {
                Some((aid, c)) => {
                    let mut usable = false;
                    if archetypes.is_live(aid) {
                        let arch = archetypes.get(aid);
                        if c.end <= arch.len() {
                            usable = true;
                            self.current = Some(Batch::new(arch, aid, c));
                            let ghost mid = *self;
                            let b = match &mut self.current {
                                Some(b) => b.next_with_id(),
                                None => None,
                            };
                            proof {
                                assert(b is Some);
                                let b0 = mid.current->Some_0;
                                let b1 = self.current->Some_0;
                                assert(b->Some_0.0 == b0.spec_ids()[0]);
                                assert forall|k: int|
                                    0 <= k < b1.spec_ids().len() implies #[trigger] b1.spec_ids()[
                                    k
                                ] == archetypes.spec_arch(b1.spec_arch_id()).spec_entities()[
                                    b1.spec_pos() + k
                                ] by {
                                    assert(b1.spec_ids()[k] == b0.spec_ids()[k + 1]);
                                }
                            }
                            return b;
                        }
                    }
                    if !usable {
                        // a stale archetype set: give the archetype up
                        self.inner.skip_current();
                        if self.inner.idx >= self.inner.prepared.len() {
                            return None;
                        }
                    }
                },
                None => {
                    return None;
                },
            }
        }
    }
}

} // verus!
