//! Self-compacting change tracking for one component column.
//!
//! A [`Changes`] list holds `(slice, tick, kind)` events. Within each kind
//! the slices are kept ascending; merging and trimming keep the list compact
//! as new events arrive.

use vstd::prelude::*;

use crate::component::ComponentDesc;
use crate::slice::Slice;

verus! {

/// The kind of a recorded change.
#[derive(Clone, Copy, PartialEq, Eq, Structural, Debug)]
pub enum ChangeKind {
    /// Component was modified
    Modified,
    /// Component was inserted
    Inserted,
    /// Component was removed
    Removed,
}

impl ChangeKind {
    /// Returns `true` if the change kind is `Removed`.
    pub fn is_removed(&self) -> (r: bool)
        ensures
            r == (self is Removed),
    {
        matches!(self, ChangeKind::Removed)
    }

    /// Returns `true` if the change kind is `Inserted`.
    pub fn is_inserted(&self) -> (r: bool)
        ensures
            r == (self is Inserted),
    {
        matches!(self, ChangeKind::Inserted)
    }

    /// Returns `true` if the change kind is `Modified`.
    pub fn is_modified(&self) -> (r: bool)
        ensures
            r == (self is Modified),
    {
        matches!(self, ChangeKind::Modified)
    }

    /// Returns `true` for the kinds a change query reacts to.
    pub fn is_modified_or_inserted(&self) -> (r: bool)
        ensures
            r == (self is Modified || self is Inserted),
    {
        matches!(self, ChangeKind::Modified | ChangeKind::Inserted)
    }
}

/// A change over a slice of slots in an archetype which occurred at a
/// specific world tick.
#[derive(Clone, Copy, PartialEq, Eq, Structural, Debug)]
pub struct Change {
    /// The slots affected
    pub slice: Slice,
    /// The world tick of the change event
    pub tick: u32,
    /// The kind of change
    pub kind: ChangeKind,
}

impl Change {
    /// Creates a new change
    pub fn new(slice: Slice, tick: u32, kind: ChangeKind) -> (r: Change)
        ensures
            r == (Change { slice, tick, kind }),
    {
        Change { slice, tick, kind }
    }

    /// Create a new modification event
    pub fn modified(slice: Slice, tick: u32) -> (r: Change)
        ensures
            r == (Change { slice, tick, kind: ChangeKind::Modified }),
    {
        Change { slice, tick, kind: ChangeKind::Modified }
    }

    /// Create a new insert event
    pub fn inserted(slice: Slice, tick: u32) -> (r: Change)
        ensures
            r == (Change { slice, tick, kind: ChangeKind::Inserted }),
    {
        Change { slice, tick, kind: ChangeKind::Inserted }
    }

    /// Create a new remove event
    pub fn removed(slice: Slice, tick: u32) -> (r: Change)
        ensures
            r == (Change { slice, tick, kind: ChangeKind::Removed }),
    {
        Change { slice, tick, kind: ChangeKind::Removed }
    }
}

/// The invariant of a change list: every slice is well-formed and non-empty,
/// and within each kind the slices are strictly ascending and pairwise
/// disjoint.
pub open spec fn changes_wf(s: Seq<Change>) -> bool {
    &&& forall|i: int|
        0 <= i < s.len() ==> (#[trigger] s[i]).slice.wf() && !s[i].slice.spec_is_empty()
    &&& forall|i: int, j: int|
        #![trigger s[i], s[j]]
        0 <= i < j < s.len() && s[i].kind == s[j].kind ==> s[i].slice.end <= s[j].slice.start
}

/// Whether an incoming change can extend `v` in place: same tick and kind,
/// `v` starting earlier (so the list order is kept), and the two slices
/// overlapping or touching.
pub open spec fn can_join(v: Change, c: Change) -> bool {
    v.slice.start < c.slice.start && v.tick == c.tick && v.kind == c.kind
        && v.slice.spec_union_defined(c.slice)
}

/// An older record of the same kind loses the slots the incoming change
/// covers, when what is left is one contiguous slice.
pub open spec fn trim_stale(v: Change, c: Change) -> Change {
    if v.kind == c.kind && v.tick < c.tick {
        match v.slice.spec_difference(c.slice) {
            Option::Some(d) => Change { slice: d, tick: v.tick, kind: v.kind },
            Option::None => v,
        }
    } else {
        v
    }
}

/// One pass of `set` over a stored entry: join when possible, else trim.
pub open spec fn merge_one(v: Change, c: Change) -> Change {
    if can_join(v, c) {
        Change { slice: v.slice.spec_union(c.slice), tick: v.tick, kind: v.kind }
    } else {
        trim_stale(v, c)
    }
}

/// The entries retained by one `set` pass, in order: each entry merged or
/// trimmed against the incoming change, entries whose slice became empty
/// dropped.
pub open spec fn merged_entries(s: Seq<Change>, c: Change) -> Seq<Change>
    decreases s.len(),
{
    if s.len() == 0 {
        Seq::empty()
    } else {
        let m = merge_one(s[0], c);
        let rest = merged_entries(s.skip(1), c);
        if m.slice.spec_is_empty() {
            rest
        } else {
            seq![m] + rest
        }
    }
}

/// Whether some stored entry absorbs the incoming change.
pub open spec fn any_join(s: Seq<Change>, c: Change) -> bool {
    exists|i: int| 0 <= i < s.len() && can_join(#[trigger] s[i], c)
}

/// Where an unabsorbed change is inserted: after the last retained entry of
/// the same kind whose slice is strictly less than the change's.
pub open spec fn insert_position(s: Seq<Change>, c: Change) -> int
    decreases s.len(),
{
    if s.len() == 0 {
        0
    } else if s.last().kind == c.kind && s.last().slice.spec_lt(c.slice) {
        s.len() as int
    } else {
        insert_position(s.drop_last(), c)
    }
}

/// The full effect of `set`: merge or trim every stored entry, drop emptied
/// ones, and insert the change itself unless it was absorbed.
pub open spec fn set_result(s: Seq<Change>, c: Change) -> Seq<Change> {
    let kept = merged_entries(s, c);
    if any_join(s, c) {
        kept
    } else {
        kept.insert(insert_position(kept, c), c)
    }
}

/// The slots an incoming change may cover without breaking the list
/// invariant for an entry `v` of the same kind: an older entry must not
/// strictly contain the change (the trim would need two pieces), an entry of
/// the same tick must be extendable or apart, and a newer entry must be
/// disjoint.
pub open spec fn elem_compatible(v: Change, c: Change) -> bool {
    &&& v.tick < c.tick ==> !(v.slice.start < c.slice.start && c.slice.end < v.slice.end)
    &&& v.tick == c.tick ==> v.slice.start < c.slice.start || v.slice.start >= c.slice.end
    &&& v.tick > c.tick ==> v.slice.end <= c.slice.start || c.slice.end <= v.slice.start
}

/// The incoming change is compatible with every stored entry of its kind.
pub open spec fn set_compatible(s: Seq<Change>, c: Change) -> bool {
    forall|i: int|
        0 <= i < s.len() && (#[trigger] s[i]).kind == c.kind ==> elem_compatible(s[i], c)
}

/// One step of the `remove` pass. An entry containing `slot` is split: the
/// part before the slot goes to the output at once, the part after it is
/// buffered so the output stays sorted, and a singleton change is reported as
/// removed. Buffered parts are flushed before any upcoming entry with a
/// greater slice.
pub open spec fn remove_step(
    v: Change,
    slot: usize,
    result: Seq<Change>,
    right: Seq<Change>,
    removed: Seq<Change>,
) -> (Seq<Change>, Seq<Change>, Seq<Change>) {
    if v.slice.start <= slot && slot + 1 <= v.slice.end {
        let l = Slice { start: v.slice.start, end: slot };
        let r = Slice { start: (slot + 1) as usize, end: v.slice.end };
        let removed2 = removed.push(
            Change {
                slice: Slice { start: slot, end: (slot + 1) as usize },
                tick: v.tick,
                kind: v.kind,
            },
        );
        let result2 = if !l.spec_is_empty() {
            let flush = right.len() > 0 && right[0].slice.spec_lt(l);
            let base = if flush {
                result + right
            } else {
                result
            };
            base.push(Change { slice: l, tick: v.tick, kind: v.kind })
        } else {
            result
        };
        let right2 = if !l.spec_is_empty() && right.len() > 0 && right[0].slice.spec_lt(l) {
            Seq::empty()
        } else {
            right
        };
        let right3 = if !r.spec_is_empty() {
            right2.push(Change { slice: r, tick: v.tick, kind: v.kind })
        } else {
            right2
        };
        (result2, right3, removed2)
    } else {
        let flush = right.len() > 0 && right[0].slice.spec_lt(v.slice);
        let base = if flush {
            result + right
        } else {
            result
        };
        let right2 = if flush {
            Seq::empty()
        } else {
            right
        };
        (base.push(v), right2, removed)
    }
}

/// The `remove` pass over the whole list, carrying the output, the buffer of
/// split-off right parts, and the removed changes.
pub open spec fn remove_loop(
    s: Seq<Change>,
    slot: usize,
    result: Seq<Change>,
    right: Seq<Change>,
    removed: Seq<Change>,
) -> (Seq<Change>, Seq<Change>, Seq<Change>)
    decreases s.len(),
{
    if s.len() == 0 {
        (result, right, removed)
    } else {
        let (r1, r2, r3) = remove_step(s[0], slot, result, right, removed);
        remove_loop(s.skip(1), slot, r1, r2, r3)
    }
}

/// The full effect of `remove`: the rewritten list (buffer drained at the
/// end) and the changes that covered the slot, one singleton per kind that
/// covered it.
pub open spec fn remove_result(s: Seq<Change>, slot: usize) -> (Seq<Change>, Seq<Change>) {
    let (result, right, removed) = remove_loop(
        s,
        slot,
        Seq::empty(),
        Seq::empty(),
        Seq::empty(),
    );
    (result + right, removed)
}

/// The effect of `migrate_to` on the destination list: every change removed
/// at the source slot is re-recorded as a singleton at the destination slot,
/// keeping its tick and kind.
pub open spec fn migrate_fold(removed: Seq<Change>, o: Seq<Change>, dst: usize) -> Seq<Change>
    decreases removed.len(),
{
    if removed.len() == 0 {
        o
    } else {
        let c = Change {
            slice: Slice { start: dst, end: (dst + 1) as usize },
            tick: removed[0].tick,
            kind: removed[0].kind,
        };
        migrate_fold(removed.skip(1), set_result(o, c), dst)
    }
}

/// A self compacting change tracking which holds either singular changes or
/// a range of changes, automatically merging adjacent ones.
///
/// Within each kind the changes are stored ascending, and they stay
/// pairwise non-overlapping under tick-monotone use (see `changes_laws`).
#[derive(Debug)]
pub struct Changes {
    info: ComponentDesc,
    inner: Vec<Change>,
}

impl View for Changes {
    type V = Seq<Change>;

    closed spec fn view(&self) -> Seq<Change> {
        self.inner@
    }
}

impl Changes {
    pub closed spec fn spec_info(&self) -> ComponentDesc {
        self.info
    }

    pub fn new(info: ComponentDesc) -> (r: Changes)
        ensures
            r@ == Seq::<Change>::empty(),
            r.spec_info() == info,
    {
        Changes { info, inner: Vec::new() }
    }

    /// The descriptor of the component this list tracks.
    pub fn info(&self) -> (r: ComponentDesc)
        ensures
            r == self.spec_info(),
    {
        self.info
    }

    /// Returns the change at `index`, if any.
    pub fn get(&self, index: usize) -> (r: Option<Change>)
        ensures
            index < self@.len() ==> r == Option::Some(self@[index as int]),
            index >= self@.len() ==> r is None,
    {
        if index < self.inner.len() {
            Some(self.inner[index])
        } else {
            None
        }
    }

    /// Returns the number of changes
    pub fn len(&self) -> (r: usize)
        ensures
            r == self@.len(),
    {
        self.inner.len()
    }

    /// Returns true if the change list is empty
    pub fn is_empty(&self) -> (r: bool)
        ensures
            r == (self@.len() == 0),
    {
        self.inner.len() == 0
    }

    /// All changes in stored (per-kind ascending) order.
    pub fn iter(&self) -> (r: &Vec<Change>)
        ensures
            r@ == self@,
    {
        &self.inner
    }

    /// Merges `change` into the list: older records of the same kind lose
    /// the covered slots, a record of the same tick and kind extending to
    /// the left absorbs the change, and otherwise the change is inserted at
    /// the position keeping its kind's slices ascending.
    pub fn set(&mut self, change: Change)
        ensures
            final(self)@ == set_result(old(self)@, change),
            final(self).spec_info() == old(self).spec_info(),
    {
        let ghost s = self.inner@;
        let n = self.inner.len();
        let mut result: Vec<Change> = Vec::new();
        let mut insert_point: usize = 0;
        let mut joined = false;
        let mut i: usize = 0;
        proof {
            assert(s.skip(0) =~= s);
            assert(Seq::<Change>::empty() + merged_entries(s, change) =~= merged_entries(
                s,
                change,
            ));
            assert(s.take(0) =~= Seq::<Change>::empty());
        }
        while i < n
            invariant
                n == s.len(),
                self.inner@ == s,
                i <= n,
                result@ + merged_entries(s.skip(i as int), change) == merged_entries(s, change),
                insert_point == insert_position(result@, change),
                insert_point <= result@.len(),
                joined == any_join(s.take(i as int), change),
            decreases n - i,
        {
            let v = self.inner[i];
            let ghost result_pre = result@;
            let m: Change;
            if v.kind == change.kind && v.tick == change.tick
                && v.slice.start < change.slice.start {
                match v.slice.union(&change.slice) {
                    Some(u) => {
                        m = Change { slice: u, tick: v.tick, kind: v.kind };
                        joined = true;
                    },
                    None => {
                        m = v;
                    },
                }
            } else if v.kind == change.kind && v.tick < change.tick {
                match v.slice.difference(&change.slice) {
                    Some(d) => {
                        m = Change { slice: d, tick: v.tick, kind: v.kind };
                    },
                    None => {
                        m = v;
                    },
                }
            } else {
                m = v;
            }
            proof {
                assert(s.skip(i as int)[0] == s[i as int]);
                assert(m == merge_one(s[i as int], change));
                assert(s.skip(i as int).skip(1) =~= s.skip(i as int + 1));
                // joined bookkeeping
                assert(s.take(i as int + 1).drop_last() =~= s.take(i as int));
                assert(s.take(i as int + 1).last() == s[i as int]);
                if can_join(s[i as int], change) {
                    assert(any_join(s.take(i as int + 1), change)) by {
                        assert(s.take(i as int + 1)[i as int] == s[i as int]);
                    }
                } else {
                    assert(any_join(s.take(i as int + 1), change) == any_join(
                        s.take(i as int),
                        change,
                    )) by {
                        if any_join(s.take(i as int + 1), change) {
                            let w = choose|k: int|
                                0 <= k < s.take(i as int + 1).len() && can_join(
                                    #[trigger] s.take(i as int + 1)[k],
                                    change,
                                );
                            assert(w < i as int + 1);
                            if w < i as int {
                                assert(s.take(i as int)[w] == s.take(i as int + 1)[w]);
                            } else {
                                assert(s.take(i as int + 1)[w] == s[i as int]);
                            }
                        }
                        if any_join(s.take(i as int), change) {
                            let w = choose|k: int|
                                0 <= k < s.take(i as int).len() && can_join(
                                    #[trigger] s.take(i as int)[k],
                                    change,
                                );
                            assert(s.take(i as int + 1)[w] == s.take(i as int)[w]);
                        }
                    }
                }
            }
            if !m.slice.is_empty() {
                result.push(m);
                if m.kind == change.kind && m.slice.lt(&change.slice) {
                    insert_point = result.len();
                }
                proof {
                    assert(result@.drop_last() =~= result_pre);
                    assert(result@.last() == m);
                    assert((result_pre.push(m)) + merged_entries(s.skip(i as int + 1), change)
                        =~= result_pre + (seq![m] + merged_entries(s.skip(i as int + 1), change)));
                }
            }
            i = i + 1;
        }
        proof {
            assert(s.skip(n as int) =~= Seq::<Change>::empty());
            assert(merged_entries(s, change) == result@);
            assert(s.take(n as int) =~= s);
        }
        if !joined {
            result.insert(insert_point, change);
        }
        self.inner = result;
    }

    /// Removes a slot from the change list, returning one singleton change
    /// per stored entry that covered it. Entries are split around the slot;
    /// the split-off right parts are re-queued so the list stays ordered.
    pub fn remove(&mut self, slot: usize) -> (removed: Vec<Change>)
        requires
            slot < usize::MAX,
        ensures
            final(self)@ == remove_result(old(self)@, slot).0,
            removed@ == remove_result(old(self)@, slot).1,
            final(self).spec_info() == old(self).spec_info(),
    {
        let ghost s = self.inner@;
        let slice = Slice::single(slot);
        let n = self.inner.len();
        let mut result: Vec<Change> = Vec::new();
        let mut right: Vec<Change> = Vec::new();
        let mut removed: Vec<Change> = Vec::new();
        let mut i: usize = 0;
        proof {
            assert(s.skip(0) =~= s);
        }
        while i < n
            invariant
                n == s.len(),
                self.inner@ == s,
                i <= n,
                slot < usize::MAX,
                slice == (Slice { start: slot, end: (slot + 1) as usize }),
                remove_loop(s.skip(i as int), slot, result@, right@, removed@) == remove_loop(
                    s,
                    slot,
                    Seq::<Change>::empty(),
                    Seq::<Change>::empty(),
                    Seq::<Change>::empty(),
                ),
            decreases n - i,
        {
            let v = self.inner[i];
            let ghost r0 = result@;
            let ghost ri0 = right@;
            let ghost rm0 = removed@;
            match v.slice.split_with(&slice) {
                Some((l, _, r)) => {
                    removed.push(Change::new(slice, v.tick, v.kind));
                    if !l.is_empty() {
                        if right.len() > 0 && right[0].slice.lt(&l) {
                            result.append(&mut right);
                        }
                        result.push(Change::new(l, v.tick, v.kind));
                    }
                    if !r.is_empty() {
                        right.push(Change::new(r, v.tick, v.kind));
                    }
                },
                None => {
                    if right.len() > 0 && right[0].slice.lt(&v.slice) {
                        result.append(&mut right);
                    }
                    result.push(v);
                },
            }
            proof {
                let step = remove_step(s[i as int], slot, r0, ri0, rm0);
                assert(result@ =~= step.0);
                assert(right@ =~= step.1);
                assert(removed@ =~= step.2);
                assert(s.skip(i as int)[0] == s[i as int]);
                assert(s.skip(i as int).skip(1) =~= s.skip(i as int + 1));
            }
            i = i + 1;
        }
        result.append(&mut right);
        proof {
            assert(s.skip(n as int) =~= Seq::<Change>::empty());
        }
        self.inner = result;
        removed
    }

    /// Moves every change record covering `src_slot` over to `other`,
    /// re-recorded at `dst_slot` with the tick and kind preserved.
    pub fn migrate_to(&mut self, other: &mut Changes, src_slot: usize, dst_slot: usize)
        requires
            src_slot < usize::MAX,
            dst_slot < usize::MAX,
        ensures
            final(self)@ == remove_result(old(self)@, src_slot).0,
            final(other)@ == migrate_fold(
                remove_result(old(self)@, src_slot).1,
                old(other)@,
                dst_slot,
            ),
            final(self).spec_info() == old(self).spec_info(),
            final(other).spec_info() == old(other).spec_info(),
    {
        let removed = self.remove(src_slot);
        let ghost rem = removed@;
        let ghost o0 = other@;
        let mut j: usize = 0;
        proof {
            assert(rem.skip(0) =~= rem);
        }
        while j < removed.len()
            invariant
                removed@ == rem,
                j <= rem.len(),
                dst_slot < usize::MAX,
                other.spec_info() == old(other).spec_info(),
                migrate_fold(rem.skip(j as int), other@, dst_slot) == migrate_fold(
                    rem,
                    o0,
                    dst_slot,
                ),
            decreases rem.len() - j,
        {
            let c = removed[j];
            other.set(Change::new(Slice::single(dst_slot), c.tick, c.kind));
            proof {
                assert(rem.skip(j as int)[0] == rem[j as int]);
                assert(rem.skip(j as int).skip(1) =~= rem.skip(j as int + 1));
            }
            j = j + 1;
        }
        proof {
            assert(rem.skip(rem.len() as int) =~= Seq::<Change>::empty());
        }
    }

    /// Removes `src` by swapping `dst` into its place: both slots' records
    /// are removed, the records found at `dst` are re-recorded at `src`, and
    /// the records originally at `src` are returned.
    pub fn swap_out(&mut self, src: usize, dst: usize) -> (r: Vec<Change>)
        requires
            src < usize::MAX,
            dst < usize::MAX,
        ensures
            final(self)@ == migrate_fold(
                remove_result(remove_result(old(self)@, src).0, dst).1,
                remove_result(remove_result(old(self)@, src).0, dst).0,
                src,
            ),
            r@ == remove_result(old(self)@, src).1,
            final(self).spec_info() == old(self).spec_info(),
    {
        let src_changes = self.remove(src);
        let dst_changes = self.remove(dst);
        let ghost rem = dst_changes@;
        let ghost s2 = self.inner@;
        let mut j: usize = 0;
        proof {
            assert(rem.skip(0) =~= rem);
        }
        while j < dst_changes.len()
            invariant
                dst_changes@ == rem,
                j <= rem.len(),
                src < usize::MAX,
                self.spec_info() == old(self).spec_info(),
                migrate_fold(rem.skip(j as int), self@, src) == migrate_fold(rem, s2, src),
            decreases rem.len() - j,
        {
            let c = dst_changes[j];
            self.set(Change::new(Slice::single(src), c.tick, c.kind));
            proof {
                assert(rem.skip(j as int)[0] == rem[j as int]);
                assert(rem.skip(j as int).skip(1) =~= rem.skip(j as int + 1));
            }
            j = j + 1;
        }
        proof {
            assert(rem.skip(rem.len() as int) =~= Seq::<Change>::empty());
        }
        src_changes
    }
}

} // verus!
