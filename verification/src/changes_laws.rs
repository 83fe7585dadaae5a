//! Proved laws of the change list.
//!
//! The central invariant: within each kind the stored slices are strictly
//! ascending, pairwise disjoint and non-empty. `set` keeps it whenever the
//! incoming change is compatible with the stored entries of its kind (in
//! particular whenever ticks are used monotonically and no older record
//! strictly surrounds the change); `remove`, `migrate_to` and `swap_out`
//! keep it outright.

use vstd::prelude::*;

use crate::changes::{
    any_join, can_join, changes_wf, elem_compatible, insert_position, merge_one, merged_entries,
    migrate_fold, remove_loop, remove_result, remove_step, set_compatible, set_result, Change,
};
use crate::slice::Slice;

verus! {

/// The changes `remove(slot)` reports: one singleton per stored entry that
/// covered the slot, in stored order, with tick and kind preserved.
pub open spec fn removed_of(s: Seq<Change>, slot: usize) -> Seq<Change>
    decreases s.len(),
{
    if s.len() == 0 {
        Seq::empty()
    } else {
        let head: Seq<Change> = if s[0].slice.start <= slot && slot + 1 <= s[0].slice.end {
            seq![
                Change {
                    slice: Slice { start: slot, end: (slot + 1) as usize },
                    tick: s[0].tick,
                    kind: s[0].kind,
                },
            ]
        } else {
            Seq::empty()
        };
        head + removed_of(s.skip(1), slot)
    }
}

/// Merging one entry keeps its kind and tick, keeps the slice well-formed,
/// and keeps it inside the original bounds unless the entry absorbed the
/// change, in which case it only grows to the right.
proof fn lemma_merge_one_props(v: Change, c: Change)
    requires
        v.slice.wf(),
        !v.slice.spec_is_empty(),
        c.slice.wf(),
        !c.slice.spec_is_empty(),
        v.kind == c.kind ==> elem_compatible(v, c),
    ensures
        merge_one(v, c).kind == v.kind,
        merge_one(v, c).tick == v.tick,
        merge_one(v, c).slice.wf(),
        can_join(v, c) ==> merge_one(v, c).slice.start == v.slice.start
            && merge_one(v, c).slice.end >= v.slice.end
            && merge_one(v, c).slice.end >= c.slice.end
            && !merge_one(v, c).slice.spec_is_empty(),
        !can_join(v, c) ==> v.slice.start <= merge_one(v, c).slice.start
            && merge_one(v, c).slice.end <= v.slice.end,
        (!can_join(v, c) && v.kind == c.kind && !merge_one(v, c).slice.spec_is_empty()) ==> (
        merge_one(v, c).slice.end <= c.slice.start || c.slice.end <= merge_one(v, c).slice.start),
{
}

/// Two ordered entries of one kind stay ordered and disjoint after a merge
/// pass with a compatible change.
proof fn lemma_merge_one_pair(u: Change, w: Change, c: Change)
    requires
        u.slice.wf(),
        !u.slice.spec_is_empty(),
        w.slice.wf(),
        !w.slice.spec_is_empty(),
        c.slice.wf(),
        !c.slice.spec_is_empty(),
        u.kind == w.kind,
        u.slice.end <= w.slice.start,
        u.kind == c.kind ==> elem_compatible(u, c),
        w.kind == c.kind ==> elem_compatible(w, c),
    ensures
        (!merge_one(u, c).slice.spec_is_empty() && !merge_one(w, c).slice.spec_is_empty())
            ==> merge_one(u, c).slice.end <= merge_one(w, c).slice.start,
{
    lemma_merge_one_props(u, c);
    lemma_merge_one_props(w, c);
    if can_join(w, c) {
        assert(!can_join(u, c));
    } else if can_join(u, c) {
        assert(!can_join(w, c));
        assert(w.slice.start >= c.slice.start);
    }
}

/// Every retained entry of a merge pass comes from some stored entry.
proof fn lemma_merged_entries_src(s: Seq<Change>, c: Change)
    ensures
        forall|p: int|
            0 <= p < merged_entries(s, c).len() ==> exists|i: int|
                0 <= i < s.len() && #[trigger] merged_entries(s, c)[p] == merge_one(s[i], c),
    decreases s.len(),
{
    if s.len() == 0 {
    } else {
        let tail = s.skip(1);
        lemma_merged_entries_src(tail, c);
        let m = merge_one(s[0], c);
        let rest = merged_entries(tail, c);
        assert forall|p: int| 0 <= p < merged_entries(s, c).len() implies exists|i: int|
            0 <= i < s.len() && #[trigger] merged_entries(s, c)[p] == merge_one(s[i], c) by {
            if m.slice.spec_is_empty() {
                let i = choose|i: int| 0 <= i < tail.len() && rest[p] == merge_one(tail[i], c);
                assert(tail[i] == s[i + 1]);
                assert(merged_entries(s, c)[p] == merge_one(s[i + 1], c));
            } else {
                if p == 0 {
                    assert(merged_entries(s, c)[0] == merge_one(s[0], c));
                } else {
                    assert(merged_entries(s, c)[p] == rest[p - 1]);
                    let i = choose|i: int|
                        0 <= i < tail.len() && rest[p - 1] == merge_one(tail[i], c);
                    assert(tail[i] == s[i + 1]);
                    assert(merged_entries(s, c)[p] == merge_one(s[i + 1], c));
                }
            }
        }
    }
}

/// Every stored entry that survives the merge pass is found among the
/// retained entries.
proof fn lemma_merged_entries_mem(s: Seq<Change>, c: Change)
    ensures
        forall|i: int|
            0 <= i < s.len() && !merge_one(#[trigger] s[i], c).slice.spec_is_empty()
                ==> exists|p: int|
                0 <= p < merged_entries(s, c).len() && merged_entries(s, c)[p] == merge_one(
                    s[i],
                    c,
                ),
    decreases s.len(),
{
    if s.len() == 0 {
    } else {
        let tail = s.skip(1);
        lemma_merged_entries_mem(tail, c);
        let m = merge_one(s[0], c);
        let rest = merged_entries(tail, c);
        assert forall|i: int|
            0 <= i < s.len() && !merge_one(#[trigger] s[i], c).slice.spec_is_empty() implies exists|
            p: int,
        |
            0 <= p < merged_entries(s, c).len() && merged_entries(s, c)[p] == merge_one(
                s[i],
                c,
            ) by {
            if i == 0 {
                assert(!m.slice.spec_is_empty());
                assert(merged_entries(s, c)[0] == merge_one(s[0], c));
            } else {
                assert(tail[i - 1] == s[i]);
                let p = choose|p: int|
                    0 <= p < rest.len() && rest[p] == merge_one(tail[i - 1], c);
                if m.slice.spec_is_empty() {
                    assert(merged_entries(s, c)[p] == merge_one(s[i], c));
                } else {
                    assert(merged_entries(s, c)[p + 1] == rest[p]);
                }
            }
        }
    }
}

/// A suffix of a well-formed list is well-formed, and compatibility carries
/// over to it.
proof fn lemma_tail_wf(s: Seq<Change>, c: Change)
    requires
        s.len() > 0,
        changes_wf(s),
        set_compatible(s, c),
    ensures
        changes_wf(s.skip(1)),
        set_compatible(s.skip(1), c),
{
    let tail = s.skip(1);
    assert forall|i: int| 0 <= i < tail.len() implies (#[trigger] tail[i]).slice.wf()
        && !tail[i].slice.spec_is_empty() by {
        assert(tail[i] == s[i + 1]);
    }
    assert forall|i: int, j: int|
        #![trigger tail[i], tail[j]]
        0 <= i < j < tail.len() && tail[i].kind == tail[j].kind implies tail[i].slice.end
        <= tail[j].slice.start by {
        assert(tail[i] == s[i + 1]);
        assert(tail[j] == s[j + 1]);
    }
    assert forall|i: int|
        0 <= i < tail.len() && (#[trigger] tail[i]).kind == c.kind implies elem_compatible(
        tail[i],
        c,
    ) by {
        assert(tail[i] == s[i + 1]);
    }
}

/// The merge pass of `set` keeps the list invariant.
proof fn lemma_merged_entries_wf(s: Seq<Change>, c: Change)
    requires
        changes_wf(s),
        c.slice.wf(),
        !c.slice.spec_is_empty(),
        set_compatible(s, c),
    ensures
        changes_wf(merged_entries(s, c)),
    decreases s.len(),
{
    if s.len() == 0 {
    } else {
        let tail = s.skip(1);
        lemma_tail_wf(s, c);
        lemma_merged_entries_wf(tail, c);
        lemma_merged_entries_src(tail, c);
        let m = merge_one(s[0], c);
        lemma_merge_one_props(s[0], c);
        let rest = merged_entries(tail, c);
        let out = merged_entries(s, c);
        if m.slice.spec_is_empty() {
        } else {
            assert(out == seq![m] + rest);
            assert(out[0] == m);
            assert forall|q: int| 1 <= q < out.len() implies #[trigger] out[q] == rest[q - 1] by {}
            assert forall|i: int| 0 <= i < out.len() implies (#[trigger] out[i]).slice.wf()
                && !out[i].slice.spec_is_empty() by {
                if i > 0 {
                    assert(out[i] == rest[i - 1]);
                }
            }
            assert forall|i: int, j: int|
                #![trigger out[i], out[j]]
                0 <= i < j < out.len() && out[i].kind == out[j].kind implies out[i].slice.end
                <= out[j].slice.start by {
                if i == 0 {
                    assert(out[j] == rest[j - 1]);
                    let k = choose|k: int|
                        0 <= k < tail.len() && rest[j - 1] == merge_one(tail[k], c);
                    assert(tail[k] == s[k + 1]);
                    lemma_merge_one_props(s[k + 1], c);
                    assert(s[0].slice.end <= s[k + 1].slice.start);
                    lemma_merge_one_pair(s[0], s[k + 1], c);
                } else {
                    assert(out[i] == rest[i - 1]);
                    assert(out[j] == rest[j - 1]);
                }
            }
        }
    }
}

/// Bounds and order facts about the insertion point of an unabsorbed change.
proof fn lemma_insert_position_props(s: Seq<Change>, c: Change)
    ensures
        0 <= insert_position(s, c) <= s.len(),
        forall|q: int|
            insert_position(s, c) <= q < s.len() ==> !((#[trigger] s[q]).kind == c.kind
                && s[q].slice.spec_lt(c.slice)),
        insert_position(s, c) > 0 ==> s[insert_position(s, c) - 1].kind == c.kind
            && s[insert_position(s, c) - 1].slice.spec_lt(c.slice),
    decreases s.len(),
{
    if s.len() == 0 {
    } else if s.last().kind == c.kind && s.last().slice.spec_lt(c.slice) {
    } else {
        let head = s.drop_last();
        lemma_insert_position_props(head, c);
        let pos = insert_position(s, c);
        assert(pos == insert_position(head, c));
        assert forall|q: int| pos <= q < s.len() implies !((#[trigger] s[q]).kind == c.kind
            && s[q].slice.spec_lt(c.slice)) by {
            if q < s.len() - 1 {
                assert(head[q] == s[q]);
            }
        }
        if pos > 0 {
            assert(head[pos - 1] == s[pos - 1]);
        }
    }
}

/// Law: `set` keeps each kind's slices strictly ascending, pairwise disjoint
/// and non-empty, whenever the incoming change is compatible with the stored
/// entries of its kind: no strictly older record surrounds it on both sides,
/// a record of the same tick starts left of it or past it, and any newer
/// record is disjoint from it. Tick-monotonic use with aligned ranges
/// satisfies this.
#[verifier::rlimit(100)]
#[verifier::spinoff_prover]
pub proof fn lemma_set_preserves_wf(s: Seq<Change>, c: Change)
    requires
        changes_wf(s),
        c.slice.wf(),
        !c.slice.spec_is_empty(),
        set_compatible(s, c),
    ensures
        changes_wf(set_result(s, c)),
{
    lemma_merged_entries_wf(s, c);
    lemma_merged_entries_src(s, c);
    let kept = merged_entries(s, c);
    if any_join(s, c) {
    } else {
        lemma_insert_position_props(kept, c);
        let pos = insert_position(kept, c);
        let out = kept.insert(pos, c);
        kept.insert_ensures(pos, c);
        // Each retained entry of the change's kind lies wholly on one side.
        assert forall|p: int|
            0 <= p < kept.len() && (#[trigger] kept[p]).kind == c.kind implies (kept[p].slice.end
            <= c.slice.start || c.slice.end <= kept[p].slice.start) by {
            let i = choose|i: int| 0 <= i < s.len() && kept[p] == merge_one(s[i], c);
            assert(!can_join(s[i], c));
            lemma_merge_one_props(s[i], c);
        }
        // Entries at or past the insertion point start past the change.
        assert forall|q: int|
            pos <= q < kept.len() && (#[trigger] kept[q]).kind == c.kind implies c.slice.end
            <= kept[q].slice.start by {
            if kept[q].slice.end <= c.slice.start {
                assert(kept[q].slice.spec_lt(c.slice));
            }
        }
        // Entries before the insertion point end before the change.
        assert forall|p: int|
            0 <= p < pos && (#[trigger] kept[p]).kind == c.kind implies kept[p].slice.end
            <= c.slice.start by {
            assert(kept[pos - 1].kind == c.kind && kept[pos - 1].slice.spec_lt(c.slice));
            assert(!(c.slice.end <= kept[pos - 1].slice.start));
            assert(kept[pos - 1].slice.end <= c.slice.start);
            if p < pos - 1 {
                assert(kept[p].slice.end <= kept[pos - 1].slice.start);
            }
        }
        assert forall|i: int| 0 <= i < out.len() implies (#[trigger] out[i]).slice.wf()
            && !out[i].slice.spec_is_empty() by {
            if i < pos {
                assert(out[i] == kept[i]);
            } else if i == pos {
                assert(out[i] == c);
            } else {
                assert(out[i] == kept[i - 1]);
            }
        }
        assert forall|i: int, j: int|
            #![trigger out[i], out[j]]
            0 <= i < j < out.len() && out[i].kind == out[j].kind implies out[i].slice.end
            <= out[j].slice.start by {
            if i < pos {
                assert(out[i] == kept[i]);
            } else if i == pos {
                assert(out[i] == c);
            } else {
                assert(out[i] == kept[i - 1]);
            }
            if j < pos {
                assert(out[j] == kept[j]);
            } else if j == pos {
                assert(out[j] == c);
            } else {
                assert(out[j] == kept[j - 1]);
            }
        }
        assert(changes_wf(out));
    }
}

/// Law: after `set(c)`, the slots of `c` are covered by entries of `c`'s
/// kind and tick.
pub proof fn lemma_set_covers(s: Seq<Change>, c: Change)
    ensures
        forall|t: int|
            c.slice.spec_contains(t) ==> exists|p: int|
                0 <= p < set_result(s, c).len() && (#[trigger] set_result(s, c)[p]).kind == c.kind
                    && set_result(s, c)[p].tick == c.tick && set_result(s, c)[p].slice.spec_contains(
                    t,
                ),
{
    let kept = merged_entries(s, c);
    if any_join(s, c) {
        let i = choose|i: int| 0 <= i < s.len() && can_join(#[trigger] s[i], c);
        let m = merge_one(s[i], c);
        assert(m.slice == s[i].slice.spec_union(c.slice));
        assert(!m.slice.spec_is_empty());
        lemma_merged_entries_mem(s, c);
        let p = choose|p: int| 0 <= p < kept.len() && kept[p] == merge_one(s[i], c);
        assert forall|t: int| c.slice.spec_contains(t) implies exists|q: int|
            0 <= q < set_result(s, c).len() && (#[trigger] set_result(s, c)[q]).kind == c.kind
                && set_result(s, c)[q].tick == c.tick && set_result(s, c)[q].slice.spec_contains(
                t,
            ) by {
            assert(set_result(s, c)[p] == m);
            assert(m.slice.spec_contains(t));
        }
    } else {
        lemma_insert_position_props(kept, c);
        let pos = insert_position(kept, c);
        kept.insert_ensures(pos, c);
        assert forall|t: int| c.slice.spec_contains(t) implies exists|q: int|
            0 <= q < set_result(s, c).len() && (#[trigger] set_result(s, c)[q]).kind == c.kind
                && set_result(s, c)[q].tick == c.tick && set_result(s, c)[q].slice.spec_contains(
                t,
            ) by {
            assert(set_result(s, c)[pos] == c);
        }
    }
}

/// Dropping the first entry of a well-formed list leaves it well-formed.
proof fn lemma_changes_wf_skip(s: Seq<Change>)
    requires
        s.len() > 0,
        changes_wf(s),
    ensures
        changes_wf(s.skip(1)),
{
    let tail = s.skip(1);
    assert forall|i: int| 0 <= i < tail.len() implies (#[trigger] tail[i]).slice.wf()
        && !tail[i].slice.spec_is_empty() by {
        assert(tail[i] == s[i + 1]);
    }
    assert forall|i: int, j: int|
        #![trigger tail[i], tail[j]]
        0 <= i < j < tail.len() && tail[i].kind == tail[j].kind implies tail[i].slice.end
        <= tail[j].slice.start by {
        assert(tail[i] == s[i + 1]);
        assert(tail[j] == s[j + 1]);
    }
}

/// The working state of the `remove` pass: output well-formed and slot-free,
/// buffered right parts all anchored just past the slot, one per kind, and
/// everything ordered against what is still to come.
spec fn remove_inv(s: Seq<Change>, slot: usize, result: Seq<Change>, right: Seq<Change>) -> bool {
    &&& changes_wf(s)
    &&& changes_wf(result)
    &&& forall|p: int|
        0 <= p < right.len() ==> (#[trigger] right[p]).slice.wf()
            && !right[p].slice.spec_is_empty() && right[p].slice.start == slot + 1
    &&& forall|p: int, q: int|
        #![trigger right[p], right[q]]
        0 <= p < q < right.len() ==> right[p].kind != right[q].kind
    &&& forall|x: int, y: int|
        #![trigger result[x], right[y]]
        0 <= x < result.len() && 0 <= y < right.len() && result[x].kind == right[y].kind
            ==> result[x].slice.end <= right[y].slice.start
    &&& forall|y: int, z: int|
        #![trigger right[y], s[z]]
        0 <= y < right.len() && 0 <= z < s.len() && right[y].kind == s[z].kind
            ==> right[y].slice.end <= s[z].slice.start
    &&& forall|x: int, z: int|
        #![trigger result[x], s[z]]
        0 <= x < result.len() && 0 <= z < s.len() && result[x].kind == s[z].kind
            ==> result[x].slice.end <= s[z].slice.start
    &&& forall|x: int|
        0 <= x < result.len() ==> !(#[trigger] result[x]).slice.spec_contains(slot as int)
}

/// The `remove` pass keeps its working-state invariant to the end.
proof fn lemma_remove_loop_inv(
    s: Seq<Change>,
    slot: usize,
    result: Seq<Change>,
    right: Seq<Change>,
    removed: Seq<Change>,
)
    requires
        slot < usize::MAX,
        remove_inv(s, slot, result, right),
    ensures
        remove_inv(
            Seq::empty(),
            slot,
            remove_loop(s, slot, result, right, removed).0,
            remove_loop(s, slot, result, right, removed).1,
        ),
    decreases s.len(),
{
    if s.len() == 0 {
    } else {
        let v = s[0];
        let tail = s.skip(1);
        lemma_changes_wf_skip(s);
        let step = remove_step(v, slot, result, right, removed);
        let res2 = step.0;
        let right2 = step.1;
        assert forall|z: int| 0 <= z < tail.len() implies #[trigger] tail[z] == s[z + 1] by {}
        if v.slice.start <= slot && slot + 1 <= v.slice.end {
            let l = Slice { start: v.slice.start, end: slot };
            let r = Slice { start: (slot + 1) as usize, end: v.slice.end };
            // no buffered right of v's kind can exist
            assert forall|y: int| 0 <= y < right.len() implies (#[trigger] right[y]).kind
                != v.kind by {
                if right[y].kind == v.kind {
                    assert(right[y].slice.end <= s[0].slice.start);
                    assert(right[y].slice.end >= slot + 2);
                }
            }
            // the flush condition cannot fire against the left part
            if !l.spec_is_empty() && right.len() > 0 {
                assert(right[0].slice.start == slot + 1);
                assert(!right[0].slice.spec_lt(l));
            }
            if !l.spec_is_empty() {
                assert(res2 == result.push(Change { slice: l, tick: v.tick, kind: v.kind }));
            } else {
                assert(res2 == result);
            }
            assert(remove_inv(tail, slot, res2, right2)) by {
                assert(changes_wf(res2)) by {
                    if !l.spec_is_empty() {
                        let lc = Change { slice: l, tick: v.tick, kind: v.kind };
                        assert forall|x: int, j: int|
                            #![trigger res2[x], res2[j]]
                            0 <= x < j < res2.len() && res2[x].kind == res2[j].kind implies
                            res2[x].slice.end <= res2[j].slice.start by {
                            if j == res2.len() - 1 {
                                assert(res2[j] == lc);
                                assert(res2[x] == result[x]);
                                if result[x].kind == v.kind {
                                    assert(result[x].slice.end <= s[0].slice.start);
                                }
                            } else {
                                assert(res2[x] == result[x]);
                                assert(res2[j] == result[j]);
                            }
                        }
                        assert forall|x: int| 0 <= x < res2.len() implies (#[trigger]
                        res2[x]).slice.wf() && !res2[x].slice.spec_is_empty() by {
                            if x < result.len() {
                                assert(res2[x] == result[x]);
                            }
                        }
                    }
                }
                assert forall|x: int| 0 <= x < res2.len() implies !(#[trigger]
                res2[x]).slice.spec_contains(slot as int) by {
                    if x < result.len() {
                        assert(res2[x] == result[x]);
                    }
                }
                assert forall|p: int| 0 <= p < right2.len() implies (#[trigger]
                right2[p]).slice.wf() && !right2[p].slice.spec_is_empty()
                    && right2[p].slice.start == slot + 1 by {
                    if p < right.len() {
                        assert(right2[p] == right[p]);
                    }
                }
                assert forall|p: int, q: int|
                    #![trigger right2[p], right2[q]]
                    0 <= p < q < right2.len() implies right2[p].kind != right2[q].kind by {
                    if q < right.len() {
                        assert(right2[p] == right[p]);
                        assert(right2[q] == right[q]);
                    } else if q == right.len() {
                        assert(right2[p] == right[p]);
                    }
                }
                assert forall|x: int, y: int|
                    #![trigger res2[x], right2[y]]
                    0 <= x < res2.len() && 0 <= y < right2.len() && res2[x].kind
                        == right2[y].kind implies res2[x].slice.end <= right2[y].slice.start by {
                    assert(right2[y].slice.start == slot + 1);
                    if x < result.len() {
                        assert(res2[x] == result[x]);
                        if y < right.len() {
                            assert(right2[y] == right[y]);
                        } else {
                            // result entry of v's kind ends before v starts
                            assert(result[x].slice.end <= s[0].slice.start);
                        }
                    } else {
                        assert(res2[x].slice.end == slot);
                    }
                }
                assert forall|y: int, z: int|
                    #![trigger right2[y], tail[z]]
                    0 <= y < right2.len() && 0 <= z < tail.len() && right2[y].kind
                        == tail[z].kind implies right2[y].slice.end <= tail[z].slice.start by {
                    assert(tail[z] == s[z + 1]);
                    if y < right.len() {
                        assert(right2[y] == right[y]);
                    } else {
                        assert(right2[y].slice.end == v.slice.end);
                        assert(s[0].slice.end <= s[z + 1].slice.start);
                    }
                }
                assert forall|x: int, z: int|
                    #![trigger res2[x], tail[z]]
                    0 <= x < res2.len() && 0 <= z < tail.len() && res2[x].kind
                        == tail[z].kind implies res2[x].slice.end <= tail[z].slice.start by {
                    assert(tail[z] == s[z + 1]);
                    if x < result.len() {
                        assert(res2[x] == result[x]);
                    } else {
                        assert(res2[x].slice.end == slot);
                        assert(s[0].slice.end <= s[z + 1].slice.start);
                    }
                }
            }
            lemma_remove_loop_inv(tail, slot, res2, right2, step.2);
        } else {
            let flush = right.len() > 0 && right[0].slice.spec_lt(v.slice);
            // any buffered right of v's kind forces the flush
            assert forall|y: int|
                0 <= y < right.len() && (#[trigger] right[y]).kind == v.kind implies flush by {
                assert(right[y].slice.end <= s[0].slice.start);
                assert(right[y].slice.end >= slot + 2);
                assert(right[0].slice.start == slot + 1);
                assert(right[0].slice.spec_lt(v.slice));
            }
            let base = if flush {
                result + right
            } else {
                result
            };
            assert(res2 == base.push(v));
            assert(remove_inv(tail, slot, res2, right2)) by {
                if flush {
                    assert(right2 == Seq::<Change>::empty());
                    assert forall|x: int| 0 <= x < res2.len() implies (#[trigger]
                    res2[x]).slice.wf() && !res2[x].slice.spec_is_empty() by {
                        if x < result.len() {
                            assert(res2[x] == result[x]);
                        } else if x < result.len() + right.len() {
                            assert(res2[x] == right[x - result.len()]);
                        } else {
                            assert(res2[x] == v);
                        }
                    }
                    assert forall|x: int, j: int|
                        #![trigger res2[x], res2[j]]
                        0 <= x < j < res2.len() && res2[x].kind == res2[j].kind implies
                        res2[x].slice.end <= res2[j].slice.start by {
                        if j < result.len() {
                            assert(res2[x] == result[x]);
                            assert(res2[j] == result[j]);
                        } else if j < result.len() + right.len() {
                            assert(res2[j] == right[j - result.len()]);
                            if x < result.len() {
                                assert(res2[x] == result[x]);
                            } else {
                                assert(res2[x] == right[x - result.len()]);
                                assert(res2[x].kind != res2[j].kind);
                            }
                        } else {
                            assert(res2[j] == v);
                            if x < result.len() {
                                assert(res2[x] == result[x]);
                                assert(result[x].slice.end <= s[0].slice.start);
                            } else {
                                assert(res2[x] == right[x - result.len()]);
                                assert(right[x - result.len()].slice.end <= s[0].slice.start);
                            }
                        }
                    }
                    assert forall|x: int| 0 <= x < res2.len() implies !(#[trigger]
                    res2[x]).slice.spec_contains(slot as int) by {
                        if x < result.len() {
                            assert(res2[x] == result[x]);
                        } else if x < result.len() + right.len() {
                            assert(res2[x] == right[x - result.len()]);
                            assert(res2[x].slice.start == slot + 1);
                        } else {
                            assert(res2[x] == v);
                        }
                    }
                    assert forall|x: int, z: int|
                        #![trigger res2[x], tail[z]]
                        0 <= x < res2.len() && 0 <= z < tail.len() && res2[x].kind
                            == tail[z].kind implies res2[x].slice.end <= tail[z].slice.start by {
                        assert(tail[z] == s[z + 1]);
                        if x < result.len() {
                            assert(res2[x] == result[x]);
                        } else if x < result.len() + right.len() {
                            assert(res2[x] == right[x - result.len()]);
                        } else {
                            assert(res2[x] == v);
                            assert(s[0].slice.end <= s[z + 1].slice.start);
                        }
                    }
                } else {
                    assert(right2 == right);
                    // no buffered right shares v's kind here
                    assert forall|x: int, y: int|
                        #![trigger res2[x], right2[y]]
                        0 <= x < res2.len() && 0 <= y < right2.len() && res2[x].kind
                            == right2[y].kind implies res2[x].slice.end
                        <= right2[y].slice.start by {
                        if x < result.len() {
                            assert(res2[x] == result[x]);
                        } else {
                            assert(res2[x] == v);
                        }
                    }
                    assert forall|x: int| 0 <= x < res2.len() implies (#[trigger]
                    res2[x]).slice.wf() && !res2[x].slice.spec_is_empty() by {
                        if x < result.len() {
                            assert(res2[x] == result[x]);
                        } else {
                            assert(res2[x] == v);
                        }
                    }
                    assert forall|x: int, j: int|
                        #![trigger res2[x], res2[j]]
                        0 <= x < j < res2.len() && res2[x].kind == res2[j].kind implies
                        res2[x].slice.end <= res2[j].slice.start by {
                        if j < result.len() {
                            assert(res2[x] == result[x]);
                            assert(res2[j] == result[j]);
                        } else {
                            assert(res2[j] == v);
                            assert(res2[x] == result[x]);
                            assert(result[x].slice.end <= s[0].slice.start);
                        }
                    }
                    assert forall|x: int| 0 <= x < res2.len() implies !(#[trigger]
                    res2[x]).slice.spec_contains(slot as int) by {
                        if x < result.len() {
                            assert(res2[x] == result[x]);
                        } else {
                            assert(res2[x] == v);
                        }
                    }
                    assert forall|x: int, z: int|
                        #![trigger res2[x], tail[z]]
                        0 <= x < res2.len() && 0 <= z < tail.len() && res2[x].kind
                            == tail[z].kind implies res2[x].slice.end <= tail[z].slice.start by {
                        assert(tail[z] == s[z + 1]);
                        if x < result.len() {
                            assert(res2[x] == result[x]);
                        } else {
                            assert(res2[x] == v);
                            assert(s[0].slice.end <= s[z + 1].slice.start);
                        }
                    }
                }
            }
            lemma_remove_loop_inv(tail, slot, res2, right2, step.2);
        }
    }
}

/// Law: `remove` keeps the list invariant and leaves no record covering the
/// removed slot.
pub proof fn lemma_remove_preserves_wf(s: Seq<Change>, slot: usize)
    requires
        changes_wf(s),
        slot < usize::MAX,
    ensures
        changes_wf(remove_result(s, slot).0),
        forall|x: int|
            0 <= x < remove_result(s, slot).0.len() ==> !(#[trigger] remove_result(
                s,
                slot,
            ).0[x]).slice.spec_contains(slot as int),
{
    lemma_remove_loop_inv(s, slot, Seq::empty(), Seq::empty(), Seq::empty());
    let out = remove_loop(s, slot, Seq::empty(), Seq::empty(), Seq::empty());
    let res = out.0;
    let right = out.1;
    let fin = res + right;
    assert(remove_result(s, slot).0 == fin);
    assert forall|i: int| 0 <= i < fin.len() implies (#[trigger] fin[i]).slice.wf()
        && !fin[i].slice.spec_is_empty() && !fin[i].slice.spec_contains(slot as int) by {
        if i < res.len() {
            assert(fin[i] == res[i]);
        } else {
            assert(fin[i] == right[i - res.len()]);
            assert(fin[i].slice.start == slot + 1);
        }
    }
    assert forall|i: int, j: int|
        #![trigger fin[i], fin[j]]
        0 <= i < j < fin.len() && fin[i].kind == fin[j].kind implies fin[i].slice.end
        <= fin[j].slice.start by {
        if j < res.len() {
            assert(fin[i] == res[i]);
            assert(fin[j] == res[j]);
        } else if i < res.len() {
            assert(fin[i] == res[i]);
            assert(fin[j] == right[j - res.len()]);
        } else {
            assert(fin[i] == right[i - res.len()]);
            assert(fin[j] == right[j - res.len()]);
            assert(fin[i].kind != fin[j].kind);
        }
    }
}

/// The removed changes accumulate exactly as `removed_of` describes.
proof fn lemma_remove_loop_removed(
    s: Seq<Change>,
    slot: usize,
    result: Seq<Change>,
    right: Seq<Change>,
    removed: Seq<Change>,
)
    ensures
        remove_loop(s, slot, result, right, removed).2 == removed + removed_of(s, slot),
    decreases s.len(),
{
    if s.len() == 0 {
        assert(removed + removed_of(s, slot) =~= removed);
    } else {
        let step = remove_step(s[0], slot, result, right, removed);
        lemma_remove_loop_removed(s.skip(1), slot, step.0, step.1, step.2);
        if s[0].slice.start <= slot && slot + 1 <= s[0].slice.end {
            let h = Change {
                slice: Slice { start: slot, end: (slot + 1) as usize },
                tick: s[0].tick,
                kind: s[0].kind,
            };
            assert(step.2 == removed.push(h));
            assert(removed.push(h) + removed_of(s.skip(1), slot) =~= removed + (seq![h]
                + removed_of(s.skip(1), slot)));
        } else {
            assert(step.2 == removed);
            assert(removed + removed_of(s.skip(1), slot) =~= removed + (Seq::<Change>::empty()
                + removed_of(s.skip(1), slot)));
        }
    }
}

/// What `remove` reports is exactly `removed_of`.
proof fn lemma_remove_result_removed(s: Seq<Change>, slot: usize)
    ensures
        remove_result(s, slot).1 == removed_of(s, slot),
{
    lemma_remove_loop_removed(s, slot, Seq::empty(), Seq::empty(), Seq::empty());
    assert(Seq::<Change>::empty() + removed_of(s, slot) =~= removed_of(s, slot));
}

/// Every reported change is a singleton at the removed slot.
proof fn lemma_removed_of_slices(s: Seq<Change>, slot: usize)
    ensures
        forall|j: int|
            0 <= j < removed_of(s, slot).len() ==> (#[trigger] removed_of(s, slot)[j]).slice
                == (Slice { start: slot, end: (slot + 1) as usize }),
    decreases s.len(),
{
    if s.len() == 0 {
    } else {
        let tail = s.skip(1);
        lemma_removed_of_slices(tail, slot);
        let rest = removed_of(tail, slot);
        let out = removed_of(s, slot);
        assert forall|j: int| 0 <= j < out.len() implies (#[trigger] out[j]).slice == (Slice {
            start: slot,
            end: (slot + 1) as usize,
        }) by {
            if s[0].slice.start <= slot && slot + 1 <= s[0].slice.end {
                if j > 0 {
                    assert(out[j] == rest[j - 1]);
                }
            } else {
                assert(out[j] == rest[j]);
            }
        }
    }
}

/// Every reported change carries the tick and kind of a stored record that
/// covered the slot.
proof fn lemma_removed_of_src(s: Seq<Change>, slot: usize)
    ensures
        forall|j: int|
            0 <= j < removed_of(s, slot).len() ==> exists|i: int|
                0 <= i < s.len() && (#[trigger] removed_of(s, slot)[j]).tick == s[i].tick
                    && removed_of(s, slot)[j].kind == s[i].kind && s[i].slice.spec_contains(
                    slot as int,
                ),
    decreases s.len(),
{
    if s.len() == 0 {
    } else {
        let tail = s.skip(1);
        lemma_removed_of_src(tail, slot);
        let rest = removed_of(tail, slot);
        let out = removed_of(s, slot);
        assert forall|j: int| 0 <= j < out.len() implies exists|i: int|
            0 <= i < s.len() && (#[trigger] out[j]).tick == s[i].tick && out[j].kind == s[i].kind
                && s[i].slice.spec_contains(slot as int) by {
            let covered = s[0].slice.start <= slot && slot + 1 <= s[0].slice.end;
            if covered && j == 0 {
                assert(out[0].tick == s[0].tick && out[0].kind == s[0].kind);
            } else {
                let jr = if covered { j - 1 } else { j };
                assert(out[j] == rest[jr]);
                let i = choose|i: int|
                    0 <= i < tail.len() && rest[jr].tick == tail[i].tick && rest[jr].kind
                        == tail[i].kind && tail[i].slice.spec_contains(slot as int);
                assert(tail[i] == s[i + 1]);
            }
        }
    }
}

/// Every stored record covering the slot is reported.
proof fn lemma_removed_of_mem(s: Seq<Change>, slot: usize)
    ensures
        forall|i: int|
            0 <= i < s.len() && (#[trigger] s[i]).slice.spec_contains(slot as int)
                ==> exists|j: int|
                0 <= j < removed_of(s, slot).len() && removed_of(s, slot)[j].tick == s[i].tick
                    && removed_of(s, slot)[j].kind == s[i].kind,
    decreases s.len(),
{
    if s.len() == 0 {
    } else {
        let tail = s.skip(1);
        lemma_removed_of_mem(tail, slot);
        let rest = removed_of(tail, slot);
        let out = removed_of(s, slot);
        let covered = s[0].slice.start <= slot && slot + 1 <= s[0].slice.end;
        assert forall|i: int|
            0 <= i < s.len() && (#[trigger] s[i]).slice.spec_contains(slot as int) implies exists|
            j: int,
        |
            0 <= j < out.len() && out[j].tick == s[i].tick && out[j].kind == s[i].kind by {
            if i == 0 {
                assert(covered);
                assert(out[0].tick == s[0].tick && out[0].kind == s[0].kind);
            } else {
                assert(tail[i - 1] == s[i]);
                let j = choose|j: int|
                    0 <= j < rest.len() && rest[j].tick == tail[i - 1].tick && rest[j].kind
                        == tail[i - 1].kind;
                if covered {
                    assert(out[j + 1] == rest[j]);
                } else {
                    assert(out[j] == rest[j]);
                }
            }
        }
    }
}

/// Law: what `remove` reports is `removed_of`: one singleton at the slot per
/// covering record, with tick and kind carried over, and nothing else.
pub proof fn lemma_removed_shape(s: Seq<Change>, slot: usize)
    ensures
        remove_result(s, slot).1 == removed_of(s, slot),
        forall|j: int|
            0 <= j < removed_of(s, slot).len() ==> (#[trigger] removed_of(s, slot)[j]).slice
                == (Slice { start: slot, end: (slot + 1) as usize }),
        forall|j: int|
            0 <= j < removed_of(s, slot).len() ==> exists|i: int|
                0 <= i < s.len() && (#[trigger] removed_of(s, slot)[j]).tick == s[i].tick
                    && removed_of(s, slot)[j].kind == s[i].kind && s[i].slice.spec_contains(
                    slot as int,
                ),
        forall|i: int|
            0 <= i < s.len() && (#[trigger] s[i]).slice.spec_contains(slot as int)
                ==> exists|j: int|
                0 <= j < removed_of(s, slot).len() && removed_of(s, slot)[j].tick == s[i].tick
                    && removed_of(s, slot)[j].kind == s[i].kind,
{
    lemma_remove_result_removed(s, slot);
    lemma_removed_of_slices(s, slot);
    lemma_removed_of_src(s, slot);
    lemma_removed_of_mem(s, slot);
}

/// In a well-formed list at most one record per kind covers a slot, so the
/// removed changes have pairwise distinct kinds.
proof fn lemma_removed_of_distinct(s: Seq<Change>, slot: usize)
    requires
        changes_wf(s),
    ensures
        forall|j1: int, j2: int|
            #![trigger removed_of(s, slot)[j1], removed_of(s, slot)[j2]]
            0 <= j1 < j2 < removed_of(s, slot).len() ==> removed_of(s, slot)[j1].kind
                != removed_of(s, slot)[j2].kind,
    decreases s.len(),
{
    if s.len() == 0 {
    } else {
        let tail = s.skip(1);
        lemma_changes_wf_skip(s);
        lemma_removed_of_distinct(tail, slot);
        lemma_removed_of_src(tail, slot);
        let rest = removed_of(tail, slot);
        let out = removed_of(s, slot);
        if s[0].slice.start <= slot && slot + 1 <= s[0].slice.end {
            assert forall|j: int| 0 <= j < rest.len() implies (#[trigger] rest[j]).kind
                != s[0].kind by {
                if rest[j].kind == s[0].kind {
                    let i = choose|i: int|
                        0 <= i < tail.len() && rest[j].tick == tail[i].tick && rest[j].kind
                            == tail[i].kind && tail[i].slice.spec_contains(slot as int);
                    assert(tail[i] == s[i + 1]);
                    assert(s[0].slice.end <= s[i + 1].slice.start);
                }
            }
            assert forall|j1: int, j2: int|
                #![trigger out[j1], out[j2]]
                0 <= j1 < j2 < out.len() implies out[j1].kind != out[j2].kind by {
                assert(out[j2] == rest[j2 - 1]);
                if j1 > 0 {
                    assert(out[j1] == rest[j1 - 1]);
                }
            }
        } else {
            assert forall|j1: int, j2: int|
                #![trigger out[j1], out[j2]]
                0 <= j1 < j2 < out.len() implies out[j1].kind != out[j2].kind by {
                assert(out[j1] == rest[j1]);
                assert(out[j2] == rest[j2]);
            }
        }
    }
}

/// Entries of other kinds pass through `set` untouched.
proof fn lemma_set_other_kinds(s: Seq<Change>, c: Change)
    ensures
        forall|i: int|
            0 <= i < s.len() && (#[trigger] s[i]).kind != c.kind
                && !s[i].slice.spec_is_empty() ==> exists|p: int|
                0 <= p < set_result(s, c).len() && set_result(s, c)[p] == s[i],
{
    lemma_merged_entries_mem(s, c);
    let kept = merged_entries(s, c);
    let pos = insert_position(kept, c);
    lemma_insert_position_props(kept, c);
    if !any_join(s, c) {
        kept.insert_ensures(pos, c);
    }
    assert forall|i: int|
        0 <= i < s.len() && (#[trigger] s[i]).kind != c.kind
            && !s[i].slice.spec_is_empty() implies exists|p: int|
        0 <= p < set_result(s, c).len() && set_result(s, c)[p] == s[i] by {
        assert(merge_one(s[i], c) == s[i]);
        let p = choose|p: int| 0 <= p < kept.len() && kept[p] == merge_one(s[i], c);
        if any_join(s, c) {
            assert(set_result(s, c)[p] == s[i]);
        } else {
            if p < pos {
                assert(set_result(s, c)[p] == kept[p]);
            } else {
                assert(set_result(s, c)[p + 1] == kept[p]);
            }
        }
    }
}

/// A record whose kind none of the migrated changes shares survives the
/// whole fold.
proof fn lemma_fold_preserves_entry(removed: Seq<Change>, o: Seq<Change>, dst: usize, ch: Change)
    requires
        dst < usize::MAX,
        !ch.slice.spec_is_empty(),
        forall|j: int| 0 <= j < removed.len() ==> (#[trigger] removed[j]).kind != ch.kind,
        exists|p: int| 0 <= p < o.len() && o[p] == ch,
    ensures
        exists|p: int|
            0 <= p < migrate_fold(removed, o, dst).len() && migrate_fold(removed, o, dst)[p]
                == ch,
    decreases removed.len(),
{
    if removed.len() == 0 {
        assert(migrate_fold(removed, o, dst) == o);
    } else {
        let c0 = Change {
            slice: Slice { start: dst, end: (dst + 1) as usize },
            tick: removed[0].tick,
            kind: removed[0].kind,
        };
        lemma_set_other_kinds(o, c0);
        let p = choose|p: int| 0 <= p < o.len() && o[p] == ch;
        assert(o[p].kind != c0.kind);
        assert forall|j: int| 0 <= j < removed.skip(1).len() implies (#[trigger] removed.skip(
            1,
        )[j]).kind != ch.kind by {
            assert(removed.skip(1)[j] == removed[j + 1]);
        }
        lemma_fold_preserves_entry(removed.skip(1), set_result(o, c0), dst, ch);
        assert(migrate_fold(removed, o, dst) == migrate_fold(
            removed.skip(1),
            set_result(o, c0),
            dst,
        ));
    }
}


/// Every migrated change ends up covering the destination slot with its tick
/// and kind.
proof fn lemma_fold_covers(removed: Seq<Change>, o: Seq<Change>, dst: usize)
    requires
        dst < usize::MAX,
        forall|j1: int, j2: int|
            #![trigger removed[j1], removed[j2]]
            0 <= j1 < j2 < removed.len() ==> removed[j1].kind != removed[j2].kind,
    ensures
        forall|j: int|
            0 <= j < removed.len() ==> exists|p: int|
                0 <= p < migrate_fold(removed, o, dst).len() && (#[trigger] migrate_fold(
                    removed,
                    o,
                    dst,
                )[p]).kind == (#[trigger] removed[j]).kind && migrate_fold(removed, o, dst)[p].tick
                    == removed[j].tick && migrate_fold(removed, o, dst)[p].slice.spec_contains(
                    dst as int,
                ),
    decreases removed.len(),
{
    if removed.len() == 0 {
    } else {
        let c0 = Change {
            slice: Slice { start: dst, end: (dst + 1) as usize },
            tick: removed[0].tick,
            kind: removed[0].kind,
        };
        let o1 = set_result(o, c0);
        lemma_set_covers(o, c0);
        assert(c0.slice.spec_contains(dst as int));
        let q = choose|q: int|
            0 <= q < o1.len() && o1[q].kind == c0.kind && o1[q].tick == c0.tick
                && o1[q].slice.spec_contains(dst as int);
        let ch = o1[q];
        assert forall|j: int| 0 <= j < removed.skip(1).len() implies (#[trigger] removed.skip(
            1,
        )[j]).kind != ch.kind by {
            assert(removed.skip(1)[j] == removed[j + 1]);
        }
        lemma_fold_preserves_entry(removed.skip(1), o1, dst, ch);
        assert forall|j1: int, j2: int|
            #![trigger removed.skip(1)[j1], removed.skip(1)[j2]]
            0 <= j1 < j2 < removed.skip(1).len() implies removed.skip(1)[j1].kind != removed.skip(
            1,
        )[j2].kind by {
            assert(removed.skip(1)[j1] == removed[j1 + 1]);
            assert(removed.skip(1)[j2] == removed[j2 + 1]);
        }
        lemma_fold_covers(removed.skip(1), o1, dst);
        assert forall|j: int| 0 <= j < removed.len() implies exists|p: int|
            0 <= p < migrate_fold(removed, o, dst).len() && (#[trigger] migrate_fold(
                removed,
                o,
                dst,
            )[p]).kind == (#[trigger] removed[j]).kind && migrate_fold(removed, o, dst)[p].tick
                == removed[j].tick && migrate_fold(removed, o, dst)[p].slice.spec_contains(
                dst as int,
            ) by {
            assert(migrate_fold(removed, o, dst) == migrate_fold(removed.skip(1), o1, dst));
            if j == 0 {
                let p = choose|p: int|
                    0 <= p < migrate_fold(removed.skip(1), o1, dst).len() && migrate_fold(
                        removed.skip(1),
                        o1,
                        dst,
                    )[p] == ch;
                assert(migrate_fold(removed, o, dst)[p] == ch);
            } else {
                assert(removed.skip(1)[j - 1] == removed[j]);
            }
        }
    }
}


/// Law (migration): every change record covering the source slot shows up in
/// the destination list as a record of the same tick and kind covering the
/// destination slot. `removed` is what `remove` reports at the source slot
/// (see `lemma_removed_shape`); that the source keeps no record covering the
/// slot is `lemma_remove_preserves_wf`.
#[verifier::rlimit(100)]
#[verifier::spinoff_prover]
pub proof fn lemma_migrate_moves_records(
    s: Seq<Change>,
    removed: Seq<Change>,
    o: Seq<Change>,
    src: usize,
    dst: usize,
)
    requires
        changes_wf(s),
        src < usize::MAX,
        dst < usize::MAX,
        removed == removed_of(s, src),
    ensures
        forall|i: int|
            0 <= i < s.len() && (#[trigger] s[i]).slice.spec_contains(src as int)
                ==> exists|p: int|
                0 <= p < migrate_fold(removed, o, dst).len() && (#[trigger] migrate_fold(
                    removed,
                    o,
                    dst,
                )[p]).kind == s[i].kind && migrate_fold(removed, o, dst)[p].tick == s[i].tick
                    && migrate_fold(removed, o, dst)[p].slice.spec_contains(dst as int),
{
    lemma_removed_of_src(s, src);
    lemma_removed_of_mem(s, src);
    lemma_removed_of_distinct(s, src);
    lemma_fold_covers(removed, o, dst);
    let fold = migrate_fold(removed, o, dst);
    assert forall|i: int|
        0 <= i < s.len() && (#[trigger] s[i]).slice.spec_contains(src as int) implies exists|
        p: int,
    |
        0 <= p < fold.len() && (#[trigger] fold[p]).kind == s[i].kind && fold[p].tick == s[i].tick
            && fold[p].slice.spec_contains(dst as int) by {
        let j = choose|j: int|
            0 <= j < removed.len() && removed[j].tick == s[i].tick && removed[j].kind
                == s[i].kind;
        let p = choose|p: int|
            0 <= p < fold.len() && (#[trigger] fold[p]).kind == removed[j].kind && fold[p].tick
                == removed[j].tick && fold[p].slice.spec_contains(dst as int);
        assert(0 <= p < fold.len() && fold[p].kind == s[i].kind && fold[p].tick == s[i].tick
            && fold[p].slice.spec_contains(dst as int));
    }
}


/// Every entry of a `set` result is the incoming change or a merged stored
/// entry.
proof fn lemma_set_result_src(s: Seq<Change>, c: Change)
    ensures
        forall|p: int|
            0 <= p < set_result(s, c).len() ==> (#[trigger] set_result(s, c)[p]) == c
                || exists|i: int| 0 <= i < s.len() && set_result(s, c)[p] == merge_one(s[i], c),
{
    lemma_merged_entries_src(s, c);
    let kept = merged_entries(s, c);
    let pos = insert_position(kept, c);
    lemma_insert_position_props(kept, c);
    if !any_join(s, c) {
        kept.insert_ensures(pos, c);
    }
    assert forall|p: int| 0 <= p < set_result(s, c).len() implies (#[trigger] set_result(
        s,
        c,
    )[p]) == c || exists|i: int|
        0 <= i < s.len() && set_result(s, c)[p] == merge_one(s[i], c) by {
        if any_join(s, c) {
            assert(set_result(s, c)[p] == kept[p]);
        } else {
            if p < pos {
                assert(set_result(s, c)[p] == kept[p]);
            } else if p == pos {
                assert(set_result(s, c)[p] == c);
            } else {
                assert(set_result(s, c)[p] == kept[p - 1]);
            }
        }
    }
}

/// Re-recording the removed singletons keeps the destination list
/// well-formed, as long as no stored record of a migrated kind covers the
/// destination slot.
proof fn lemma_fold_wf(removed: Seq<Change>, o: Seq<Change>, dst: usize)
    requires
        dst < usize::MAX,
        changes_wf(o),
        forall|j1: int, j2: int|
            #![trigger removed[j1], removed[j2]]
            0 <= j1 < j2 < removed.len() ==> removed[j1].kind != removed[j2].kind,
        forall|p: int, j: int|
            #![trigger o[p], removed[j]]
            0 <= p < o.len() && 0 <= j < removed.len() && o[p].kind == removed[j].kind
                ==> !o[p].slice.spec_contains(dst as int),
    ensures
        changes_wf(migrate_fold(removed, o, dst)),
    decreases removed.len(),
{
    if removed.len() == 0 {
    } else {
        let c0 = Change {
            slice: Slice { start: dst, end: (dst + 1) as usize },
            tick: removed[0].tick,
            kind: removed[0].kind,
        };
        assert(set_compatible(o, c0)) by {
            assert forall|i: int|
                0 <= i < o.len() && (#[trigger] o[i]).kind == c0.kind implies elem_compatible(
                o[i],
                c0,
            ) by {
                assert(!o[i].slice.spec_contains(dst as int));
            }
        }
        lemma_set_preserves_wf(o, c0);
        lemma_set_result_src(o, c0);
        let o1 = set_result(o, c0);
        let rest = removed.skip(1);
        assert forall|j: int| 0 <= j < rest.len() implies (#[trigger] rest[j]).kind
            != c0.kind by {
            assert(rest[j] == removed[j + 1]);
        }
        assert forall|p: int, j: int|
            #![trigger o1[p], rest[j]]
            0 <= p < o1.len() && 0 <= j < rest.len() && o1[p].kind == rest[j].kind implies !o1[p]
            .slice.spec_contains(dst as int) by {
            assert(rest[j] == removed[j + 1]);
            assert(o1[p].kind != c0.kind);
            assert(o1[p] != c0);
            let i = choose|i: int| 0 <= i < o.len() && o1[p] == merge_one(o[i], c0);
            assert(o[i].kind != c0.kind);
            assert(merge_one(o[i], c0) == o[i]);
        }
        assert forall|j1: int, j2: int|
            #![trigger rest[j1], rest[j2]]
            0 <= j1 < j2 < rest.len() implies rest[j1].kind != rest[j2].kind by {
            assert(rest[j1] == removed[j1 + 1]);
            assert(rest[j2] == removed[j2 + 1]);
        }
        lemma_fold_wf(rest, o1, dst);
        assert(migrate_fold(removed, o, dst) == migrate_fold(rest, o1, dst));
    }
}

/// Splitting entries around a slot never widens them: any slot no entry
/// covered stays uncovered.
proof fn lemma_remove_loop_avoids(
    s: Seq<Change>,
    slot: usize,
    result: Seq<Change>,
    right: Seq<Change>,
    removed: Seq<Change>,
    protected: int,
)
    requires
        forall|z: int| 0 <= z < s.len() ==> !(#[trigger] s[z]).slice.spec_contains(protected),
        forall|x: int|
            0 <= x < result.len() ==> !(#[trigger] result[x]).slice.spec_contains(protected),
        forall|y: int|
            0 <= y < right.len() ==> !(#[trigger] right[y]).slice.spec_contains(protected),
    ensures
        forall|x: int|
            0 <= x < remove_loop(s, slot, result, right, removed).0.len() ==> !(
            #[trigger] remove_loop(s, slot, result, right, removed).0[x]).slice.spec_contains(
                protected,
            ),
        forall|y: int|
            0 <= y < remove_loop(s, slot, result, right, removed).1.len() ==> !(
            #[trigger] remove_loop(s, slot, result, right, removed).1[y]).slice.spec_contains(
                protected,
            ),
    decreases s.len(),
{
    if s.len() == 0 {
    } else {
        let v = s[0];
        let step = remove_step(v, slot, result, right, removed);
        assert forall|z: int| 0 <= z < s.skip(1).len() implies !(#[trigger] s.skip(
            1,
        )[z]).slice.spec_contains(protected) by {
            assert(s.skip(1)[z] == s[z + 1]);
        }
        if v.slice.start <= slot && slot + 1 <= v.slice.end {
            let l = Slice { start: v.slice.start, end: slot };
            let r = Slice { start: (slot + 1) as usize, end: v.slice.end };
            let flush = !l.spec_is_empty() && right.len() > 0 && right[0].slice.spec_lt(l);
            let base = if flush {
                result + right
            } else {
                result
            };
            let res2 = if !l.spec_is_empty() {
                base.push(Change { slice: l, tick: v.tick, kind: v.kind })
            } else {
                result
            };
            let right2 = if flush {
                Seq::<Change>::empty()
            } else {
                right
            };
            assert(step.0 == res2);
            assert forall|x: int| 0 <= x < res2.len() implies !(#[trigger] res2[x]).slice
                .spec_contains(protected) by {
                if !l.spec_is_empty() && x == res2.len() - 1 {
                    assert(res2[x].slice == l);
                } else if flush {
                    if x < result.len() {
                        assert(res2[x] == result[x]);
                    } else {
                        assert(res2[x] == right[x - result.len()]);
                    }
                } else {
                    assert(res2[x] == result[x]);
                }
            }
            assert forall|y: int| 0 <= y < step.1.len() implies !(#[trigger] step.1[y]).slice
                .spec_contains(protected) by {
                if !r.spec_is_empty() && y == step.1.len() - 1 {
                    assert(step.1[y].slice == r);
                } else {
                    assert(step.1[y] == right2[y]);
                    assert(!flush);
                    assert(right2[y] == right[y]);
                }
            }
            lemma_remove_loop_avoids(s.skip(1), slot, step.0, step.1, step.2, protected);
        } else {
            let flush = right.len() > 0 && right[0].slice.spec_lt(v.slice);
            let base = if flush {
                result + right
            } else {
                result
            };
            assert(step.0 == base.push(v));
            assert forall|x: int| 0 <= x < step.0.len() implies !(#[trigger] step.0[x]).slice
                .spec_contains(protected) by {
                if x == step.0.len() - 1 {
                    assert(step.0[x] == v);
                } else if flush && x >= result.len() {
                    assert(step.0[x] == right[x - result.len()]);
                } else {
                    assert(step.0[x] == result[x]);
                }
            }
            assert forall|y: int| 0 <= y < step.1.len() implies !(#[trigger] step.1[y]).slice
                .spec_contains(protected) by {
                assert(!flush);
                assert(step.1[y] == right[y]);
            }
            lemma_remove_loop_avoids(s.skip(1), slot, step.0, step.1, step.2, protected);
        }
    }
}

/// `remove` never makes a record cover a slot it did not cover before.
pub proof fn lemma_remove_avoids(s: Seq<Change>, slot: usize, protected: int)
    requires
        forall|z: int| 0 <= z < s.len() ==> !(#[trigger] s[z]).slice.spec_contains(protected),
    ensures
        forall|x: int|
            0 <= x < remove_result(s, slot).0.len() ==> !(#[trigger] remove_result(
                s,
                slot,
            ).0[x]).slice.spec_contains(protected),
{
    lemma_remove_loop_avoids(s, slot, Seq::empty(), Seq::empty(), Seq::empty(), protected);
    let out = remove_loop(s, slot, Seq::empty(), Seq::empty(), Seq::empty());
    let fin = out.0 + out.1;
    assert forall|x: int| 0 <= x < fin.len() implies !(#[trigger] fin[x]).slice.spec_contains(
        protected,
    ) by {
        if x < out.0.len() {
            assert(fin[x] == out.0[x]);
        } else {
            assert(fin[x] == out.1[x - out.0.len()]);
        }
    }
}

/// Law: `migrate_to` keeps both lists well-formed whenever no record of the
/// destination list covers the destination slot (in particular when the
/// destination slot is a freshly added row).
pub proof fn lemma_migrate_to_preserves_wf(s: Seq<Change>, o: Seq<Change>, src: usize, dst: usize)
    requires
        changes_wf(s),
        changes_wf(o),
        src < usize::MAX,
        dst < usize::MAX,
        forall|p: int| 0 <= p < o.len() ==> !(#[trigger] o[p]).slice.spec_contains(dst as int),
    ensures
        changes_wf(remove_result(s, src).0),
        changes_wf(migrate_fold(remove_result(s, src).1, o, dst)),
{
    lemma_remove_preserves_wf(s, src);
    lemma_remove_result_removed(s, src);
    lemma_removed_of_distinct(s, src);
    lemma_fold_wf(remove_result(s, src).1, o, dst);
}

/// Law: `swap_out` keeps the list well-formed.
pub proof fn lemma_swap_out_preserves_wf(s: Seq<Change>, src: usize, dst: usize)
    requires
        changes_wf(s),
        src < usize::MAX,
        dst < usize::MAX,
    ensures
        changes_wf(
            migrate_fold(
                remove_result(remove_result(s, src).0, dst).1,
                remove_result(remove_result(s, src).0, dst).0,
                src,
            ),
        ),
{
    lemma_remove_preserves_wf(s, src);
    let s1 = remove_result(s, src).0;
    lemma_remove_preserves_wf(s1, dst);
    let s2 = remove_result(s1, dst).0;
    lemma_remove_avoids(s1, dst, src as int);
    lemma_remove_result_removed(s1, dst);
    lemma_removed_of_distinct(s1, dst);
    lemma_fold_wf(remove_result(s1, dst).1, s2, src);
}

} // verus!
