//! Enumerating the relations of one kind on an entity: the `(target,
//! value)` pairs of every relation column with a given id.

use vstd::prelude::*;

use crate::archetype::Archetype;
use crate::component::{ComponentKey, Entity, DUMMY};

verus! {

/// Whether a component is a relation instance with the given id.
pub open spec fn is_relation_of(key: ComponentKey, id: Entity) -> bool {
    key.id == id && key.object is Some
}

/// Whether a `(target, value)` pair is one of the relation entries of an
/// archetype's row: some relation column of the id carries the target and
/// stores the value at the slot.
pub open spec fn relation_entry_of(
    arch: Archetype,
    slot: int,
    relation: Entity,
    e: (Entity, Vec<u8>),
) -> bool {
    exists|ci: int|
        0 <= ci < arch.spec_components().len() && is_relation_of(
            (#[trigger] arch.spec_components()[ci]).key,
            relation,
        ) && arch.spec_components()[ci].key.object == Option::Some(e.0) && e.1@
            == arch.spec_cells()[ci].storage@[slot]@
}

/// A fetch for all relations of one id, whatever their target.
#[derive(Clone, Copy, PartialEq, Eq, Structural, Debug)]
pub struct Relations {
    pub key: ComponentKey,
}

/// Query all relations of the specified kind: the key's object is the
/// wildcard target.
pub fn relations_like(relation: Entity) -> (r: Relations)
    ensures
        r.key == (ComponentKey { id: relation, object: Option::Some(DUMMY) }),
{
    Relations { key: ComponentKey { id: relation, object: Some(DUMMY) } }
}

/// The `(target, column)` pairs of one archetype's relation block for the
/// fetched id, in component order.
pub struct PreparedRelations {
    pub borrows: Vec<(Entity, usize)>,
}

impl Relations {
    /// Every relation fetch matches every archetype; an archetype without
    /// the relation merely yields no pairs.
    pub fn filter_arch(&self, _arch: &Archetype) -> (r: bool)
        ensures
            r,
    {
        true
    }

    /// Collects the relation columns of the fetched id: one `(target,
    /// column index)` pair per matching component, in component order.
    pub fn prepare(&self, arch: &Archetype) -> (r: PreparedRelations)
        requires
            arch.wf(),
        ensures
            forall|p: int|
                0 <= p < r.borrows@.len() ==> {
                    let (obj, ci) = #[trigger] r.borrows@[p];
                    &&& ci < arch.spec_components().len()
                    &&& is_relation_of(arch.spec_components()[ci as int].key, self.key.id)
                    &&& arch.spec_components()[ci as int].key.object == Option::Some(obj)
                },
            forall|ci: int|
                0 <= ci < arch.spec_components().len() && is_relation_of(
                    (#[trigger] arch.spec_components()[ci]).key,
                    self.key.id,
                ) ==> exists|p: int|
                    0 <= p < r.borrows@.len() && (#[trigger] r.borrows@[p]).1 == ci as usize,
    {
        let comps = arch.components();
        let mut borrows: Vec<(Entity, usize)> = Vec::new();
        let mut ci: usize = 0;
        while ci < comps.len()
            invariant
                comps@ == arch.spec_components(),
                ci <= comps@.len(),
                forall|p: int|
                    0 <= p < borrows@.len() ==> {
                        let (obj, c) = #[trigger] borrows@[p];
                        &&& c < arch.spec_components().len()
                        &&& is_relation_of(arch.spec_components()[c as int].key, self.key.id)
                        &&& arch.spec_components()[c as int].key.object == Option::Some(obj)
                    },
                forall|c: int|
                    0 <= c < ci as int && is_relation_of(
                        (#[trigger] arch.spec_components()[c]).key,
                        self.key.id,
                    ) ==> exists|p: int|
                        0 <= p < borrows@.len() && (#[trigger] borrows@[p]).1 == c as usize,
            decreases comps@.len() - ci,
        {
            let key = comps[ci].key;
            if key.id == self.key.id {
                match key.object {
                    Some(obj) => {
                        let ghost b0 = borrows@;
                        borrows.push((obj, ci));
                        proof {
                            assert(borrows@.last() == (obj, ci));
                            assert forall|c: int|
                                0 <= c < ci as int + 1 && is_relation_of(
                                    (#[trigger] arch.spec_components()[c]).key,
                                    self.key.id,
                                ) implies exists|p: int|
                                0 <= p < borrows@.len() && (#[trigger] borrows@[p]).1
                                    == c as usize by {
                                if c < ci as int {
                                    let p = choose|p: int|
                                        0 <= p < b0.len() && (#[trigger] b0[p]).1 == c as usize;
                                    assert(borrows@[p] == b0[p]);
                                } else {
                                    assert(borrows@[borrows@.len() - 1].1 == ci);
                                }
                            }
                        }
                    },
                    None => {},
                }
            }
            ci = ci + 1;
        }
        PreparedRelations { borrows }
    }
}

impl PreparedRelations {
    /// The relations of the entity at `slot`: each target paired with the
    /// raw value stored in its column at that slot.
    pub fn fetch(&self, arch: &Archetype, slot: usize) -> (r: RelationsIter)
        requires
            arch.wf(),
            slot < arch.spec_len(),
            forall|p: int|
                0 <= p < self.borrows@.len() ==> (#[trigger] self.borrows@[p]).1
                    < arch.spec_components().len(),
        ensures
            r.entries@.len() == self.borrows@.len(),
            r.pos == 0,
            forall|p: int|
                0 <= p < self.borrows@.len() ==> (#[trigger] r.entries@[p]).0
                    == self.borrows@[p].0 && r.entries@[p].1@ == arch.spec_cells()[
                    self.borrows@[p].1 as int
                ].storage@[slot as int]@,
    {
        let mut entries: Vec<(Entity, Vec<u8>)> = Vec::new();
        let mut p: usize = 0;
        while p < self.borrows.len()
            invariant
                arch.wf(),
                slot < arch.spec_len(),
                p <= self.borrows@.len(),
                entries@.len() == p,
                forall|q: int|
                    0 <= q < self.borrows@.len() ==> (#[trigger] self.borrows@[q]).1
                        < arch.spec_components().len(),
                forall|q: int|
                    0 <= q < p as int ==> (#[trigger] entries@[q]).0 == self.borrows@[q].0
                        && entries@[q].1@ == arch.spec_cells()[self.borrows@[q].1 as int].storage@[
                        slot as int
                    ]@,
            decreases self.borrows@.len() - p,
        {
            let (obj, ci) = self.borrows[p];
            let cell = arch.cell(ci);
            let mut value: Vec<u8> = Vec::new();
            let row = &cell.storage[slot];
            let mut b: usize = 0;
            while b < row.len()
                invariant
                    row@ == arch.spec_cells()[self.borrows@[p as int].1 as int].storage@[
                        slot as int
                    ]@,
                    b <= row@.len(),
                    value@ == row@.take(b as int),
                decreases row@.len() - b,
            {
                value.push(row[b]);
                proof {
                    assert(value@ =~= row@.take(b as int + 1));
                }
                b = b + 1;
            }
            proof {
                assert(row@.take(row@.len() as int) =~= row@);
            }
            entries.push((obj, value));
            p = p + 1;
        }
        RelationsIter { entries, pos: 0 }
    }
}

/// Iterates the relation target and value pairs for one fetched slot.
pub struct RelationsIter {
    pub entries: Vec<(Entity, Vec<u8>)>,
    pub pos: usize,
}

impl RelationsIter {
    /// The next `(target, value)` pair.
    pub fn next(&mut self) -> (r: Option<(Entity, Vec<u8>)>)
        requires
            old(self).pos <= old(self).entries@.len(),
        ensures
            final(self).entries@ == old(self).entries@,
            old(self).pos == old(self).entries@.len() ==> r is None && *final(self) == *old(
                self,
            ),
            old(self).pos < old(self).entries@.len() ==> {
                &&& final(self).pos == old(self).pos + 1
                &&& r is Some
                &&& r->Some_0.0 == old(self).entries@[old(self).pos as int].0
                &&& r->Some_0.1@ == old(self).entries@[old(self).pos as int].1@
            },
    {
        if self.pos == self.entries.len() {
            None
        } else {
            let (obj, v) = &self.entries[self.pos];
            let e = *obj;
            let mut value: Vec<u8> = Vec::new();
            let mut b: usize = 0;
            while b < v.len()
                invariant
                    v@ == old(self).entries@[old(self).pos as int].1@,
                    b <= v@.len(),
                    value@ == v@.take(b as int),
                decreases v@.len() - b,
            {
                value.push(v[b]);
                proof {
                    assert(value@ =~= v@.take(b as int + 1));
                }
                b = b + 1;
            }
            proof {
                assert(v@.take(v@.len() as int) =~= v@);
            }
            self.pos = self.pos + 1;
            Some((e, value))
        }
    }
}

} // verus!
