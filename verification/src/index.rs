//! The inverted archetype index: which archetypes hold a component key, and
//! through which column. Relation components additionally register under
//! the two wildcard keys so pattern queries can find them.

use vstd::prelude::*;

use crate::archetype::{Archetype, ArchetypeId};
use crate::component::{ComponentKey, DUMMY};

verus! {

/// What the index records for one `(key, archetype)` pair.
#[derive(Clone, Copy, PartialEq, Eq, Structural, Debug)]
pub struct ArchetypeRecord {
    /// The column of the key in the archetype (for a wildcard, of one of
    /// the relations backing it).
    pub cell_index: usize,
    /// How many relation instances back this wildcard record; zero for a
    /// direct record.
    pub relation_count: usize,
}

/// One row of the index: a component key, an archetype holding it, and the
/// record.
#[derive(Clone, Copy, PartialEq, Eq, Structural, Debug)]
pub struct IndexEntry {
    pub key: ComponentKey,
    pub arch_id: ArchetypeId,
    pub record: ArchetypeRecord,
}

pub open spec fn idx_contains(s: Seq<IndexEntry>, key: ComponentKey, arch_id: ArchetypeId) -> bool {
    exists|i: int| 0 <= i < s.len() && (#[trigger] s[i]).key == key && s[i].arch_id == arch_id
}

/// The index holds a record for `(key, arch_id)` backed by at least one
/// relation instance.
pub open spec fn idx_backed(s: Seq<IndexEntry>, key: ComponentKey, arch_id: ArchetypeId) -> bool {
    exists|i: int|
        0 <= i < s.len() && (#[trigger] s[i]).key == key && s[i].arch_id == arch_id
            && s[i].record.relation_count >= 1
}

pub open spec fn idx_unique(s: Seq<IndexEntry>) -> bool {
    forall|i: int, j: int|
        #![trigger s[i], s[j]]
        0 <= i < j < s.len() ==> !(s[i].key == s[j].key && s[i].arch_id == s[j].arch_id)
}

/// Whether a relation component of key `k` backs the wildcard key `w`: `w`
/// is the any-relation or the any-target wildcard of `k`.
pub open spec fn backs_wildcard(k: ComponentKey, w: ComponentKey) -> bool {
    k.object is Some && (w == (ComponentKey { id: DUMMY, object: k.object }) || w == (
    ComponentKey { id: k.id, object: Option::Some(DUMMY) }))
}

/// Whether `key` is one of the two wildcard keys of some relation component
/// of the archetype.
pub open spec fn is_wildcard_of(arch: &Archetype, key: ComponentKey) -> bool {
    exists|i: int|
        0 <= i < arch.spec_components().len() && backs_wildcard(
            (#[trigger] arch.spec_components()[i]).key,
            key,
        )
}

/// Column `c` holds the first component of the archetype backing the
/// wildcard key `w`.
pub open spec fn first_backing(arch: &Archetype, w: ComponentKey, c: int) -> bool {
    &&& 0 <= c < arch.spec_components().len()
    &&& backs_wildcard(arch.spec_components()[c].key, w)
    &&& forall|b: int|
        0 <= b < c ==> !backs_wildcard((#[trigger] arch.spec_components()[b]).key, w)
}

/// The index holds the direct record for `(key, arch_id)`: the key's own
/// column, and no wildcard backing.
pub open spec fn idx_direct_at(
    s: Seq<IndexEntry>,
    key: ComponentKey,
    arch_id: ArchetypeId,
    cell: int,
) -> bool {
    exists|i: int|
        0 <= i < s.len() && (#[trigger] s[i]).key == key && s[i].arch_id == arch_id
            && s[i].record.cell_index == cell && s[i].record.relation_count == 0
}

/// The index holds the wildcard record for `(w, arch_id)`: backed by at
/// least one relation instance, its cell the first backing column.
pub open spec fn idx_wildcard_at(
    s: Seq<IndexEntry>,
    w: ComponentKey,
    arch_id: ArchetypeId,
    arch: &Archetype,
) -> bool {
    exists|i: int|
        0 <= i < s.len() && (#[trigger] s[i]).key == w && s[i].arch_id == arch_id
            && s[i].record.relation_count >= 1 && first_backing(
            arch,
            w,
            s[i].record.cell_index as int,
        )
}

/// A component key as archetypes store it: a real id, and no wildcard
/// target.
pub open spec fn concrete_key(k: ComponentKey) -> bool {
    k.id != DUMMY && k.object != Option::Some(DUMMY)
}

/// The inverted index from component key to the archetypes storing it.
pub struct ArchetypeIndex {
    entries: Vec<IndexEntry>,
}

impl ArchetypeIndex {
    pub closed spec fn spec_entries(&self) -> Seq<IndexEntry> {
        self.entries@
    }

    pub open spec fn wf(&self) -> bool {
        idx_unique(self.spec_entries())
    }

    pub fn new() -> (r: ArchetypeIndex)
        ensures
            r.wf(),
            r.spec_entries() == Seq::<IndexEntry>::empty(),
    {
        ArchetypeIndex { entries: Vec::new() }
    }

    /// Looks up the record for a key in an archetype.
    pub fn get(&self, key: &ComponentKey, arch_id: ArchetypeId) -> (r: Option<ArchetypeRecord>)
        ensures
            r is Some <==> idx_contains(self.spec_entries(), *key, arch_id),
            r is Some ==> exists|i: int|
                0 <= i < self.spec_entries().len() && (#[trigger] self.spec_entries()[i]).key
                    == *key && self.spec_entries()[i].arch_id == arch_id
                    && self.spec_entries()[i].record == r->Some_0,
    {
        let mut i: usize = 0;
        while i < self.entries.len()
            invariant
                i <= self.entries@.len(),
                forall|k: int|
                    0 <= k < i as int ==> !((#[trigger] self.entries@[k]).key == *key
                        && self.entries@[k].arch_id == arch_id),
            decreases self.entries@.len() - i,
        {
            let e = &self.entries[i];
            if e.key == *key && e.arch_id == arch_id {
                return Some(e.record);
            }
            i = i + 1;
        }
        None
    }

    /// The archetypes holding `key`, in registration order.
    pub fn archetypes_with(&self, key: &ComponentKey) -> (r: Vec<ArchetypeId>)
        ensures
            forall|p: int|
                0 <= p < r@.len() ==> idx_contains(self.spec_entries(), *key, #[trigger] r@[p]),
            forall|i: int|
                0 <= i < self.spec_entries().len() && (#[trigger] self.spec_entries()[i]).key
                    == *key ==> r@.contains(self.spec_entries()[i].arch_id),
    {
        let mut out: Vec<ArchetypeId> = Vec::new();
        let mut i: usize = 0;
        while i < self.entries.len()
            invariant
                i <= self.entries@.len(),
                forall|p: int|
                    0 <= p < out@.len() ==> idx_contains(
                        self.spec_entries(),
                        *key,
                        #[trigger] out@[p],
                    ),
                forall|k: int|
                    0 <= k < i as int && (#[trigger] self.entries@[k]).key == *key
                        ==> out@.contains(self.entries@[k].arch_id),
            decreases self.entries@.len() - i,
        {
            let e = &self.entries[i];
            let ghost out0 = out@;
            if e.key == *key {
                out.push(e.arch_id);
                proof {
                    assert(out@.last() == self.entries@[i as int].arch_id);
                    assert forall|k: int|
                        0 <= k < i as int + 1 && (#[trigger] self.entries@[k]).key
                            == *key implies out@.contains(self.entries@[k].arch_id) by {
                        if k < i as int {
                            let p = choose|p: int|
                                0 <= p < out0.len() && out0[p] == self.entries@[k].arch_id;
                            assert(out@[p] == out0[p]);
                        } else {
                            assert(out@[out@.len() - 1] == self.entries@[k].arch_id);
                        }
                    }
                }
            }
            i = i + 1;
        }
        out
    }

    /// Registers one wildcard backing: creates the record with count one or
    /// raises the count of the existing record.
    fn register_relation(&mut self, arch_id: ArchetypeId, key: ComponentKey, cell_index: usize)
        requires
            old(self).wf(),
        ensures
            final(self).wf(),
            final(self).spec_entries().len() >= old(self).spec_entries().len(),
            final(self).spec_entries().len() <= old(self).spec_entries().len() + 1,
            forall|i: int|
                0 <= i < old(self).spec_entries().len() ==> {
                    let o = old(self).spec_entries()[i];
                    let n = #[trigger] final(self).spec_entries()[i];
                    n.key == o.key && n.arch_id == o.arch_id && n.record.cell_index
                        == o.record.cell_index && n.record.relation_count
                        >= o.record.relation_count
                },
            forall|i: int|
                0 <= i < old(self).spec_entries().len() && !((#[trigger] old(self).spec_entries()[
                    i
                ]).key == key && old(self).spec_entries()[i].arch_id == arch_id) ==> final(self).spec_entries()[i] == old(self).spec_entries()[i],
            forall|i: int|
                old(self).spec_entries().len() <= i < final(self).spec_entries().len() ==> (
                #[trigger] final(self).spec_entries()[i]) == (IndexEntry {
                    key,
                    arch_id,
                    record: ArchetypeRecord { cell_index, relation_count: 1 },
                }),
            exists|i: int|
                0 <= i < final(self).spec_entries().len() && (#[trigger] final(self).spec_entries()[i]).key == key && final(self).spec_entries()[i].arch_id == arch_id
                    && final(self).spec_entries()[i].record.relation_count >= 1,
    {
        let mut i: usize = 0;
        while i < self.entries.len()
            invariant
                old(self).wf(),
                self.entries@ == old(self).spec_entries(),
                i <= self.entries@.len(),
                forall|k: int|
                    0 <= k < i as int ==> !((#[trigger] self.entries@[k]).key == key
                        && self.entries@[k].arch_id == arch_id),
            decreases self.entries@.len() - i,
        {
            if self.entries[i].key == key && self.entries[i].arch_id == arch_id {
                proof {
                    assert(self.entries@[i as int] == old(self).spec_entries()[i as int]);
                }
                let e = self.entries[i];
                // the count is bounded by the archetype's component count,
                // so the guard never bites; it only discharges the overflow
                // check
                let bumped: usize = if e.record.relation_count < usize::MAX {
                    e.record.relation_count + 1
                } else {
                    e.record.relation_count
                };
                self.entries[i] = IndexEntry {
                    key: e.key,
                    arch_id: e.arch_id,
                    record: ArchetypeRecord {
                        cell_index: e.record.cell_index,
                        relation_count: bumped,
                    },
                };
                proof {
                    let s = self.entries@;
                    assert(s.len() == old(self).spec_entries().len());
                    assert forall|p: int| 0 <= p < s.len() implies (#[trigger] s[p]).key == old(
                        self,
                    ).spec_entries()[p].key && s[p].arch_id == old(self).spec_entries()[p].arch_id
                        && s[p].record.cell_index == old(self).spec_entries()[p].record.cell_index
                        && s[p].record.relation_count >= old(self).spec_entries()[
                        p
                    ].record.relation_count by {
                        if p != i as int {
                            assert(s[p] == old(self).spec_entries()[p]);
                        }
                    }
                    assert forall|p: int, q: int|
                        #![trigger s[p], s[q]]
                        0 <= p < q < s.len() implies !(s[p].key == s[q].key && s[p].arch_id
                        == s[q].arch_id) by {
                        assert(s[p].key == old(self).spec_entries()[p].key && s[p].arch_id == old(
                            self,
                        ).spec_entries()[p].arch_id);
                        assert(s[q].key == old(self).spec_entries()[q].key && s[q].arch_id == old(
                            self,
                        ).spec_entries()[q].arch_id);
                    }
                    assert(s[i as int].record.relation_count >= 1);
                }
                return ;
            }
            i = i + 1;
        }
        self.entries.push(
            IndexEntry { key, arch_id, record: ArchetypeRecord { cell_index, relation_count: 1 } },
        );
        proof {
            let s = self.entries@;
            assert(s.last().key == key && s.last().arch_id == arch_id);
            assert forall|p: int, q: int|
                #![trigger s[p], s[q]]
                0 <= p < q < s.len() implies !(s[p].key == s[q].key && s[p].arch_id
                == s[q].arch_id) by {
                if q < s.len() - 1 {
                    assert(s[p] == old(self).spec_entries()[p]);
                    assert(s[q] == old(self).spec_entries()[q]);
                } else {
                    assert(s[p] == old(self).spec_entries()[p]);
                }
            }
        }
    }

    /// Appends the direct record for one component key.
    fn push_direct(&mut self, arch_id: ArchetypeId, key: ComponentKey, cell_index: usize)
        requires
            old(self).wf(),
            !idx_contains(old(self).spec_entries(), key, arch_id),
        ensures
            final(self).wf(),
            final(self).spec_entries() == old(self).spec_entries().push(
                IndexEntry {
                    key,
                    arch_id,
                    record: ArchetypeRecord { cell_index, relation_count: 0 },
                },
            ),
    {
        self.entries.push(
            IndexEntry { key, arch_id, record: ArchetypeRecord { cell_index, relation_count: 0 } },
        );
        proof {
            let s = self.entries@;
            assert forall|p: int, q: int|
                #![trigger s[p], s[q]]
                0 <= p < q < s.len() implies !(s[p].key == s[q].key && s[p].arch_id
                == s[q].arch_id) by {
                if q < s.len() - 1 {
                    assert(s[p] == old(self).spec_entries()[p]);
                    assert(s[q] == old(self).spec_entries()[q]);
                } else {
                    assert(s[p] == old(self).spec_entries()[p]);
                    assert(s[q] == (IndexEntry {
                        key,
                        arch_id,
                        record: ArchetypeRecord { cell_index, relation_count: 0 },
                    }));
                }
            }
        }
    }

    /// Registers every component of a freshly created archetype: a direct
    /// record per component carrying its own column and no backing count,
    /// and for each relation the two wildcard records `(DUMMY, object)` and
    /// `(id, DUMMY)`, each backed by at least one relation instance and
    /// carrying the first backing column.
    #[verifier::rlimit(100)]
    #[verifier::spinoff_prover]
    pub fn register(&mut self, arch_id: ArchetypeId, arch: &Archetype)
        requires
            old(self).wf(),
            arch.wf(),
            forall|i: int|
                0 <= i < old(self).spec_entries().len() ==> (#[trigger] old(self).spec_entries()[
                    i
                ]).arch_id != arch_id,
            forall|i: int|
                0 <= i < arch.spec_components().len() ==> concrete_key(
                    (#[trigger] arch.spec_components()[i]).key,
                ),
        ensures
            final(self).wf(),
            final(self).spec_entries().len() >= old(self).spec_entries().len()
                + arch.spec_components().len(),
            forall|i: int|
                0 <= i < old(self).spec_entries().len() ==> #[trigger] final(self).spec_entries()[
                    i
                ] == old(self).spec_entries()[i],
            forall|i: int|
                old(self).spec_entries().len() <= i < final(self).spec_entries().len() ==> (
                #[trigger] final(self).spec_entries()[i]).arch_id == arch_id,
            forall|k: ComponentKey|
                #![trigger idx_contains(final(self).spec_entries(), k, arch_id)]
                concrete_key(k) ==> (idx_contains(final(self).spec_entries(), k, arch_id)
                    <==> arch.spec_has(k)),
            // the direct record of a component holds its own column and no
            // backing count
            forall|c: int|
                0 <= c < arch.spec_components().len() ==> idx_direct_at(
                    final(self).spec_entries(),
                    (#[trigger] arch.spec_components()[c]).key,
                    arch_id,
                    c,
                ),
            // each wildcard record is backed and holds the first backing
            // column
            forall|k: ComponentKey|
                is_wildcard_of(arch, k) ==> idx_wildcard_at(
                    final(self).spec_entries(),
                    k,
                    arch_id,
                    arch,
                ),
            forall|k: ComponentKey|
                is_wildcard_of(arch, k) ==> idx_backed(final(self).spec_entries(), k, arch_id),
            forall|i: int|
                old(self).spec_entries().len() <= i < final(self).spec_entries().len()
                    ==> arch.spec_has((#[trigger] final(self).spec_entries()[i]).key)
                    || is_wildcard_of(arch, final(self).spec_entries()[i].key),
    {
        let n = arch.components().len();
        let ghost orig = self.entries@;
        let mut t: usize = 0;
        while t < n
            invariant
                self.wf(),
                arch.wf(),
                n == arch.spec_components().len(),
                t <= n,
                forall|i: int|
                    0 <= i < arch.spec_components().len() ==> concrete_key(
                        (#[trigger] arch.spec_components()[i]).key,
                    ),
                self.entries@.len() >= orig.len() + t,
                forall|i: int| 0 <= i < orig.len() ==> #[trigger] self.entries@[i] == orig[i],
                forall|i: int| 0 <= i < orig.len() ==> (#[trigger] orig[i]).arch_id != arch_id,
                forall|i: int|
                    orig.len() <= i < self.entries@.len() ==> (#[trigger] self.entries@[i]).arch_id
                        == arch_id,
                forall|i: int|
                    orig.len() <= i < self.entries@.len() ==> exists|u: int|
                        0 <= u < t as int && ((#[trigger] self.entries@[i]).key == (
                        #[trigger] arch.spec_components()[u]).key || backs_wildcard(
                            arch.spec_components()[u].key,
                            self.entries@[i].key,
                        )),
                forall|u: int|
                    0 <= u < t as int ==> idx_direct_at(
                        self.entries@,
                        (#[trigger] arch.spec_components()[u]).key,
                        arch_id,
                        u,
                    ),
                forall|w: ComponentKey|
                    #![trigger idx_wildcard_at(self.entries@, w, arch_id, arch)]
                    (exists|u: int|
                        0 <= u < t as int && backs_wildcard(
                            (#[trigger] arch.spec_components()[u]).key,
                            w,
                        )) ==> idx_wildcard_at(self.entries@, w, arch_id, arch),
            decreases n - t,
        {
            let desc = arch.components()[t];
            let key = desc.key;
            let ghost before = self.entries@;
            let ghost k1 = ComponentKey { id: DUMMY, object: key.object };
            let ghost k2 = ComponentKey { id: key.id, object: Option::Some(DUMMY) };
            if key.object.is_some() {
                self.register_relation(arch_id, ComponentKey { id: DUMMY, object: key.object }, t);
            }
            let ghost s1 = self.entries@;
            if key.object.is_some() {
                self.register_relation(
                    arch_id,
                    ComponentKey { id: key.id, object: Some(DUMMY) },
                    t,
                );
            }
            let ghost mid = self.entries@;
            proof {
                assert(arch.spec_has(key)) by {
                    assert(arch.spec_components()[t as int].key == key);
                }
                assert(concrete_key(key));
                assert(!concrete_key(k1) && !concrete_key(k2));
                assert(k1 != k2) by {
                    assert(k1.id == DUMMY && k2.id == key.id);
                }
                // entries of a key other than the two wildcards of this step
                // are exactly preserved by the two wildcard registrations
                assert forall|i: int|
                    0 <= i < before.len() && (#[trigger] before[i]).key != k1 && before[i].key
                        != k2 implies mid[i] == before[i] by {
                    assert(s1[i] == before[i]);
                }
                // all entries keep key, archetype, column; the count never
                // drops
                assert forall|i: int| 0 <= i < before.len() implies (#[trigger] mid[i]).key
                    == before[i].key && mid[i].arch_id == before[i].arch_id
                    && mid[i].record.cell_index == before[i].record.cell_index
                    && mid[i].record.relation_count >= before[i].record.relation_count by {
                    assert(s1[i].key == before[i].key && s1[i].arch_id == before[i].arch_id
                        && s1[i].record.cell_index == before[i].record.cell_index
                        && s1[i].record.relation_count >= before[i].record.relation_count);
                }
                // the direct record for this key is not there yet
                assert(!idx_contains(mid, key, arch_id)) by {
                    if idx_contains(mid, key, arch_id) {
                        let i = choose|i: int|
                            0 <= i < mid.len() && (#[trigger] mid[i]).key == key && mid[i].arch_id
                                == arch_id;
                        assert(i >= orig.len());
                        if i < before.len() {
                            assert(before[i].key == key);
                            let u = choose|u: int|
                                0 <= u < t as int && ((#[trigger] before[i]).key == (
                                #[trigger] arch.spec_components()[u]).key || backs_wildcard(
                                    arch.spec_components()[u].key,
                                    before[i].key,
                                ));
                            if before[i].key == arch.spec_components()[u].key {
                                assert(arch.spec_components()[u].key.spec_lt(
                                    arch.spec_components()[t as int].key,
                                ));
                            }
                        }
                    }
                }
            }
            self.push_direct(arch_id, key, t);
            proof {
                let cur = self.entries@;
                assert(cur.last() == (IndexEntry {
                    key,
                    arch_id,
                    record: ArchetypeRecord { cell_index: t, relation_count: 0 },
                }));
                assert forall|i: int| 0 <= i < mid.len() implies #[trigger] cur[i] == mid[i] by {}
                // the direct records: the ones already made survive the two
                // wildcard registrations, and this step adds its own
                assert forall|u: int| 0 <= u < t as int + 1 implies idx_direct_at(
                    cur,
                    (#[trigger] arch.spec_components()[u]).key,
                    arch_id,
                    u,
                ) by {
                    if u < t as int {
                        let i = choose|i: int|
                            0 <= i < before.len() && (#[trigger] before[i]).key
                                == arch.spec_components()[u].key && before[i].arch_id == arch_id
                                && before[i].record.cell_index == u
                                && before[i].record.relation_count == 0;
                        assert(before[i].key != k1 && before[i].key != k2);
                        assert(cur[i] == before[i]);
                    } else {
                        assert(cur[cur.len() - 1].key == key);
                    }
                }
                // the wildcard records: old ones carried over, and the two
                // of this step created with this column or bumped in place
                assert forall|w: ComponentKey|
                    #![trigger idx_wildcard_at(cur, w, arch_id, arch)]
                    (exists|u: int|
                        0 <= u < t as int + 1 && backs_wildcard(
                            (#[trigger] arch.spec_components()[u]).key,
                            w,
                        )) implies idx_wildcard_at(cur, w, arch_id, arch) by {
                    let u = choose|u: int|
                        0 <= u < t as int + 1 && backs_wildcard(
                            (#[trigger] arch.spec_components()[u]).key,
                            w,
                        );
                    if u < t as int {
                        assert(idx_wildcard_at(before, w, arch_id, arch));
                        let i = choose|i: int|
                            0 <= i < before.len() && (#[trigger] before[i]).key == w
                                && before[i].arch_id == arch_id
                                && before[i].record.relation_count >= 1 && first_backing(
                                arch,
                                w,
                                before[i].record.cell_index as int,
                            );
                        assert(cur[i].key == w && cur[i].arch_id == arch_id
                            && cur[i].record.relation_count >= 1 && cur[i].record.cell_index
                            == before[i].record.cell_index);
                    } else {
                        assert(key.object is Some);
                        assert(w == k1 || w == k2);
                        // a wildcard entry in `before` would mean an earlier
                        // backing component
                        assert(idx_contains(before, w, arch_id) ==> idx_wildcard_at(
                            before,
                            w,
                            arch_id,
                            arch,
                        )) by {
                            if idx_contains(before, w, arch_id) {
                                let i = choose|i: int|
                                    0 <= i < before.len() && (#[trigger] before[i]).key == w
                                        && before[i].arch_id == arch_id;
                                assert(i >= orig.len());
                                let u0 = choose|u0: int|
                                    0 <= u0 < t as int && ((#[trigger] before[i]).key == (
                                    #[trigger] arch.spec_components()[u0]).key || backs_wildcard(
                                        arch.spec_components()[u0].key,
                                        before[i].key,
                                    ));
                                assert(backs_wildcard(arch.spec_components()[u0].key, w));
                            }
                        }
                        assert(!idx_contains(before, w, arch_id) ==> first_backing(
                            arch,
                            w,
                            t as int,
                        )) by {
                            if !idx_contains(before, w, arch_id) {
                                assert(backs_wildcard(arch.spec_components()[t as int].key, w));
                                assert forall|b: int| 0 <= b < t as int implies !backs_wildcard(
                                    (#[trigger] arch.spec_components()[b]).key,
                                    w,
                                ) by {
                                    if backs_wildcard(arch.spec_components()[b].key, w) {
                                        assert(idx_wildcard_at(before, w, arch_id, arch));
                                        let i = choose|i: int|
                                            0 <= i < before.len() && (#[trigger] before[i]).key
                                                == w && before[i].arch_id == arch_id
                                                && before[i].record.relation_count >= 1
                                                && first_backing(
                                                arch,
                                                w,
                                                before[i].record.cell_index as int,
                                            );
                                    }
                                }
                            }
                        }
                        if w == k1 {
                            // settled by the first registration, preserved by
                            // the second (another key) and the direct push
                            if idx_contains(before, k1, arch_id) {
                                let i = choose|i: int|
                                    0 <= i < before.len() && (#[trigger] before[i]).key == k1
                                        && before[i].arch_id == arch_id
                                        && before[i].record.relation_count >= 1 && first_backing(
                                        arch,
                                        k1,
                                        before[i].record.cell_index as int,
                                    );
                                assert(cur[i].key == k1 && cur[i].arch_id == arch_id
                                    && cur[i].record.relation_count >= 1
                                    && cur[i].record.cell_index == before[i].record.cell_index);
                            } else {
                                let i = choose|i: int|
                                    0 <= i < s1.len() && (#[trigger] s1[i]).key == k1
                                        && s1[i].arch_id == arch_id && s1[i].record.relation_count
                                        >= 1;
                                assert(i >= before.len());
                                assert(s1[i] == (IndexEntry {
                                    key: k1,
                                    arch_id,
                                    record: ArchetypeRecord { cell_index: t, relation_count: 1 },
                                }));
                                assert(mid[i].key == s1[i].key && mid[i].arch_id == s1[i].arch_id
                                    && mid[i].record.cell_index == s1[i].record.cell_index
                                    && mid[i].record.relation_count
                                    >= s1[i].record.relation_count);
                                assert(cur[i] == mid[i]);
                            }
                        } else {
                            // the second registration: the record for k2 was
                            // either already a wildcard record or is created
                            // with this column
                            if idx_contains(before, k2, arch_id) {
                                let i = choose|i: int|
                                    0 <= i < before.len() && (#[trigger] before[i]).key == k2
                                        && before[i].arch_id == arch_id
                                        && before[i].record.relation_count >= 1 && first_backing(
                                        arch,
                                        k2,
                                        before[i].record.cell_index as int,
                                    );
                                assert(s1[i].key == k2 && s1[i].arch_id == arch_id
                                    && s1[i].record.relation_count >= 1 && s1[i].record.cell_index
                                    == before[i].record.cell_index);
                                assert(mid[i].key == s1[i].key && mid[i].arch_id == s1[i].arch_id
                                    && mid[i].record.cell_index == s1[i].record.cell_index
                                    && mid[i].record.relation_count
                                    >= s1[i].record.relation_count);
                                assert(cur[i] == mid[i]);
                            } else {
                                assert(!idx_contains(s1, k2, arch_id)) by {
                                    if idx_contains(s1, k2, arch_id) {
                                        let i = choose|i: int|
                                            0 <= i < s1.len() && (#[trigger] s1[i]).key == k2
                                                && s1[i].arch_id == arch_id;
                                        if i < before.len() {
                                            assert(s1[i].key == before[i].key);
                                        } else {
                                            assert(s1[i].key == k1);
                                        }
                                    }
                                }
                                let i = choose|i: int|
                                    0 <= i < mid.len() && (#[trigger] mid[i]).key == k2
                                        && mid[i].arch_id == arch_id
                                        && mid[i].record.relation_count >= 1;
                                assert(i >= s1.len());
                                assert(mid[i] == (IndexEntry {
                                    key: k2,
                                    arch_id,
                                    record: ArchetypeRecord { cell_index: t, relation_count: 1 },
                                }));
                                assert(cur[i] == mid[i]);
                            }
                        }
                    }
                }
                // every new entry's key is the key or a wildcard of one of
                // the components handled so far
                assert forall|i: int|
                    orig.len() <= i < cur.len() implies exists|u: int|
                        0 <= u < t as int + 1 && ((#[trigger] cur[i]).key == (
                        #[trigger] arch.spec_components()[u]).key || backs_wildcard(
                            arch.spec_components()[u].key,
                            cur[i].key,
                        )) by {
                    if i < before.len() {
                        let u = choose|u: int|
                            0 <= u < t as int && ((#[trigger] before[i]).key == (
                            #[trigger] arch.spec_components()[u]).key || backs_wildcard(
                                arch.spec_components()[u].key,
                                before[i].key,
                            ));
                        assert(cur[i].key == before[i].key);
                    } else if i < s1.len() {
                        assert(cur[i].key == k1);
                        assert(backs_wildcard(arch.spec_components()[t as int].key, k1));
                    } else if i < mid.len() {
                        assert(cur[i].key == k2);
                        assert(backs_wildcard(arch.spec_components()[t as int].key, k2));
                    } else {
                        assert(cur[i].key == key);
                        assert(cur[i].key == arch.spec_components()[t as int].key);
                    }
                }
            }
            t = t + 1;
        }
        proof {
            assert forall|c: int| 0 <= c < arch.spec_components().len() implies idx_direct_at(
                self.entries@,
                (#[trigger] arch.spec_components()[c]).key,
                arch_id,
                c,
            ) by {}
            assert forall|k: ComponentKey| is_wildcard_of(arch, k) implies idx_wildcard_at(
                self.entries@,
                k,
                arch_id,
                arch,
            ) && idx_backed(self.entries@, k, arch_id) by {
                let u = choose|u: int|
                    0 <= u < arch.spec_components().len() && backs_wildcard(
                        (#[trigger] arch.spec_components()[u]).key,
                        k,
                    );
                assert(idx_wildcard_at(self.entries@, k, arch_id, arch));
                let i = choose|i: int|
                    0 <= i < self.entries@.len() && (#[trigger] self.entries@[i]).key == k && self.entries@[i].arch_id == arch_id && self.entries@[i].record.relation_count
                        >= 1 && first_backing(
                        arch,
                        k,
                        self.entries@[i].record.cell_index as int,
                    );
            }
            assert forall|i: int|
                orig.len() <= i < self.entries@.len() implies arch.spec_has(
                (#[trigger] self.entries@[i]).key,
            ) || is_wildcard_of(arch, self.entries@[i].key) by {
                let u = choose|u: int|
                    0 <= u < n as int && ((#[trigger] self.entries@[i]).key == (
                    #[trigger] arch.spec_components()[u]).key || backs_wildcard(
                        arch.spec_components()[u].key,
                        self.entries@[i].key,
                    ));
            }
            assert forall|k: ComponentKey|
                #![trigger idx_contains(self.entries@, k, arch_id)]
                concrete_key(k) implies (idx_contains(self.entries@, k, arch_id)
                <==> arch.spec_has(k)) by {
                if idx_contains(self.entries@, k, arch_id) {
                    let i = choose|i: int|
                        0 <= i < self.entries@.len() && (#[trigger] self.entries@[i]).key == k && self.entries@[i].arch_id
                            == arch_id;
                    assert(i >= orig.len());
                    let u = choose|u: int|
                        0 <= u < n as int && ((#[trigger] self.entries@[i]).key == (
                        #[trigger] arch.spec_components()[u]).key || backs_wildcard(
                            arch.spec_components()[u].key,
                            self.entries@[i].key,
                        ));
                    assert(self.entries@[i].key == arch.spec_components()[u].key);
                }
                if arch.spec_has(k) {
                    let u = choose|u: int|
                        0 <= u < arch.spec_components().len() && (
                        #[trigger] arch.spec_components()[u]).key == k;
                    assert(idx_direct_at(
                        self.entries@,
                        arch.spec_components()[u].key,
                        arch_id,
                        u,
                    ));
                    let i = choose|i: int|
                        0 <= i < self.entries@.len() && (#[trigger] self.entries@[i]).key == k && self.entries@[i].arch_id == arch_id
                            && self.entries@[i].record.cell_index == u
                            && self.entries@[i].record.relation_count == 0;
                }
            }
        }
    }

    /// Unregisters an archetype: every record for it, direct and wildcard,
    /// is dropped; all other records are kept as they are, in their
    /// registration order.
    pub fn unregister(&mut self, arch_id: ArchetypeId)
        requires
            old(self).wf(),
        ensures
            final(self).wf(),
            final(self).spec_entries() == old(self).spec_entries().filter(
                |e: IndexEntry| e.arch_id != arch_id,
            ),
            forall|k: ComponentKey| !idx_contains(final(self).spec_entries(), k, arch_id),
            forall|i: int|
                0 <= i < final(self).spec_entries().len() ==> (#[trigger] final(self).spec_entries()[i]).arch_id != arch_id,
            forall|i: int|
                0 <= i < old(self).spec_entries().len() && (#[trigger] old(self).spec_entries()[
                    i
                ]).arch_id != arch_id ==> final(self).spec_entries().contains(
                    old(self).spec_entries()[i],
                ),
            forall|i: int|
                0 <= i < final(self).spec_entries().len() ==> old(self).spec_entries().contains(
                    #[trigger] final(self).spec_entries()[i],
                ),
    {
        let ghost s = self.entries@;
        let mut kept: Vec<IndexEntry> = Vec::new();
        let mut i: usize = 0;
        proof {
            assert(s.take(0) =~= Seq::<IndexEntry>::empty());
            assert(s.take(0).filter(|e: IndexEntry| e.arch_id != arch_id) =~= Seq::<
                IndexEntry,
            >::empty());
        }
        while i < self.entries.len()
            invariant
                self.entries@ == s,
                i <= s.len(),
                kept@ == s.take(i as int).filter(|e: IndexEntry| e.arch_id != arch_id),
                forall|p: int| 0 <= p < kept@.len() ==> (#[trigger] kept@[p]).arch_id != arch_id,
                forall|p: int|
                    0 <= p < kept@.len() ==> exists|q: int|
                        0 <= q < i as int && #[trigger] kept@[p] == s[q],
                forall|q: int|
                    0 <= q < i as int && (#[trigger] s[q]).arch_id != arch_id ==> kept@.contains(
                        s[q],
                    ),
                idx_unique(s) ==> idx_unique(kept@),
            decreases s.len() - i,
        {
            let e = self.entries[i];
            let ghost kept0 = kept@;
            proof {
                reveal_with_fuel(Seq::filter, 2);
                assert(s.take(i as int + 1).drop_last() =~= s.take(i as int));
                assert(s.take(i as int + 1).last() == s[i as int]);
            }
            if !(e.arch_id == arch_id) {
                kept.push(e);
                proof {
                    assert forall|p: int| 0 <= p < kept@.len() implies exists|q: int|
                        0 <= q < i as int + 1 && #[trigger] kept@[p] == s[q] by {
                        if p < kept0.len() {
                            assert(kept@[p] == kept0[p]);
                        } else {
                            assert(kept@[p] == s[i as int]);
                        }
                    }
                    if idx_unique(s) {
                        assert forall|p1: int, p2: int|
                            #![trigger kept@[p1], kept@[p2]]
                            0 <= p1 < p2 < kept@.len() implies !(kept@[p1].key == kept@[p2].key
                            && kept@[p1].arch_id == kept@[p2].arch_id) by {
                            if p2 == kept@.len() - 1 {
                                assert(kept@[p1] == kept0[p1]);
                                let q = choose|q: int| 0 <= q < i as int && kept0[p1] == s[q];
                            } else {
                                assert(kept@[p1] == kept0[p1]);
                                assert(kept@[p2] == kept0[p2]);
                            }
                        }
                    }
                }
            }
            proof {
                assert forall|q: int|
                    0 <= q < i as int + 1 && (#[trigger] s[q]).arch_id != arch_id implies kept@
                    .contains(s[q]) by {
                    if q < i as int {
                        let p = choose|p: int| 0 <= p < kept0.len() && kept0[p] == s[q];
                        assert(kept@[p] == s[q]);
                    } else {
                        assert(kept@[kept@.len() - 1] == s[q]);
                    }
                }
            }
            i = i + 1;
        }
        proof {
            assert(s.take(s.len() as int) =~= s);
        }
        self.entries = kept;
    }
}

} // verus!
