//! A borrowed view of one entity: its location in the archetype graph and
//! read access to its components. The entity-to-location map itself lives
//! with the caller (the world façade), which hands the location in.

use vstd::prelude::*;

use crate::archetypes::Archetypes;
use crate::component::{ComponentKey, Entity};
use crate::error::Error;
use crate::relations::{is_relation_of, relation_entry_of, relations_like, RelationsIter};

verus! {

/// One entity's current place: archetype, slot, and its id.
#[derive(Clone, Copy, PartialEq, Eq, Structural, Debug)]
pub struct EntityRef {
    pub arch_id: crate::archetype::ArchetypeId,
    pub slot: usize,
    pub id: Entity,
}

impl EntityRef {
    pub open spec fn wf(&self, archetypes: Archetypes) -> bool {
        archetypes.spec_is_live(self.arch_id) && self.slot < archetypes.spec_arch(
            self.arch_id,
        ).spec_len()
    }

    pub fn new(arch_id: crate::archetype::ArchetypeId, slot: usize, id: Entity) -> (r: EntityRef)
        ensures
            r == (EntityRef { arch_id, slot, id }),
    {
        EntityRef { arch_id, slot, id }
    }

    /// Returns the entity id.
    pub fn id(&self) -> (r: Entity)
        ensures
            r == self.id,
    {
        self.id
    }

    /// Check if the entity currently has the specified component without
    /// borrowing.
    pub fn has(&self, archetypes: &Archetypes, key: &ComponentKey) -> (r: bool)
        requires
            archetypes.wf(),
            archetypes.spec_is_live(self.arch_id),
        ensures
            r == archetypes.spec_arch(self.arch_id).spec_has(*key),
    {
        archetypes.get(self.arch_id).has(key)
    }

    /// The raw value of a component of this entity: `MissingComponent`
    /// exactly when the entity does not have the key.
    pub fn get(&self, archetypes: &Archetypes, key: &ComponentKey) -> (r: Result<Vec<u8>, Error>)
        requires
            archetypes.wf(),
            self.wf(*archetypes),
        ensures
            r is Ok <==> archetypes.spec_arch(self.arch_id).spec_has(*key),
            r is Err ==> r->Err_0 == Error::MissingComponent(self.id, *key),
            r is Ok ==> exists|ci: int|
                0 <= ci < archetypes.spec_arch(self.arch_id).spec_components().len() && (
                #[trigger] archetypes.spec_arch(self.arch_id).spec_components()[ci]).key == *key
                    && r->Ok_0@ == archetypes.spec_arch(self.arch_id).spec_cells()[ci].storage@[
                    self.slot as int
                ]@,
    {
        let arch = archetypes.get(self.arch_id);
        match arch.component_index(key) {
            Some(ci) => {
                let cell = arch.cell(ci);
                let row = &cell.storage[self.slot];
                let mut value: Vec<u8> = Vec::new();
                let mut b: usize = 0;
                while b < row.len()
                    invariant
                        row@ == archetypes.spec_arch(self.arch_id).spec_cells()[
                            ci as int
                        ].storage@[self.slot as int]@,
                        ci < archetypes.spec_arch(self.arch_id).spec_components().len(),
                        archetypes.spec_arch(self.arch_id).spec_components()[
                            ci as int
                        ].key == *key,
                        b <= row@.len(),
                        value@ == row@.take(b as int),
                    decreases row@.len() - b,
                {
                    value.push(row[b]);
                    proof {
                        assert(value@ =~= row@.take(b as int + 1));
                    }
                    b = b + 1;
                }
                proof {
                    assert(row@.take(row@.len() as int) =~= row@);
                }
                Ok(value)
            },
            None => Err(Error::MissingComponent(self.id, *key)),
        }
    }

    /// Returns all relations to other entities of the specified kind, as
    /// `(target, raw value)` pairs: one pair per relation column of the id,
    /// carrying this entity's stored value, and nothing else.
    #[verifier::rlimit(100)]
    #[verifier::spinoff_prover]
    pub fn relations(&self, archetypes: &Archetypes, relation: Entity) -> (r: RelationsIter)
        requires
            archetypes.wf(),
            self.wf(*archetypes),
        ensures
            r.pos == 0,
            forall|p: int|
                #![trigger r.entries@[p]]
                0 <= p < r.entries@.len() ==> relation_entry_of(
                    archetypes.spec_arch(self.arch_id),
                    self.slot as int,
                    relation,
                    r.entries@[p],
                ),
            forall|ci: int|
                0 <= ci < archetypes.spec_arch(self.arch_id).spec_components().len()
                    && is_relation_of(
                    (#[trigger] archetypes.spec_arch(self.arch_id).spec_components()[ci]).key,
                    relation,
                ) ==> exists|p: int|
                    0 <= p < r.entries@.len() && archetypes.spec_arch(
                        self.arch_id,
                    ).spec_components()[ci].key.object == Option::Some(
                        (#[trigger] r.entries@[p]).0,
                    ) && r.entries@[p].1@ == archetypes.spec_arch(self.arch_id).spec_cells()[
                        ci
                    ].storage@[self.slot as int]@,
    {
        let arch = archetypes.get(self.arch_id);
        let ncomps = arch.components().len();
        let fetch = relations_like(relation);
        let prepared = fetch.prepare(arch);
        let out = prepared.fetch(arch, self.slot);
        proof {
            assert(arch.spec_components().len() == ncomps);
            let a = archetypes.spec_arch(self.arch_id);
            assert(arch.spec_components() == a.spec_components());
            assert(arch.spec_cells() == a.spec_cells());
            assert forall|p: int|
                #![trigger out.entries@[p]]
                0 <= p < out.entries@.len() implies relation_entry_of(
                archetypes.spec_arch(self.arch_id),
                self.slot as int,
                relation,
                out.entries@[p],
            ) by {
                assert(prepared.borrows@[p] == prepared.borrows@[p]);
                let (obj, c) = prepared.borrows@[p];
                assert(c < arch.spec_components().len());
                assert(is_relation_of(arch.spec_components()[c as int].key, fetch.key.id));
                assert(arch.spec_components()[c as int].key.object == Option::Some(obj));
                assert(out.entries@[p].0 == obj);
                assert(out.entries@[p].1@ == arch.spec_cells()[c as int].storage@[
                    self.slot as int
                ]@);
                assert(archetypes.spec_arch(self.arch_id).spec_components()[c as int]
                    == arch.spec_components()[c as int]);
                assert(archetypes.spec_arch(self.arch_id).spec_cells()[c as int]
                    == arch.spec_cells()[c as int]);
            }
            assert forall|ci: int|
                0 <= ci < archetypes.spec_arch(self.arch_id).spec_components().len()
                    && is_relation_of(
                    (#[trigger] archetypes.spec_arch(self.arch_id).spec_components()[ci]).key,
                    relation,
                ) implies exists|p: int|
                0 <= p < out.entries@.len() && archetypes.spec_arch(
                    self.arch_id,
                ).spec_components()[ci].key.object == Option::Some(
                    (#[trigger] out.entries@[p]).0,
                ) && out.entries@[p].1@ == archetypes.spec_arch(self.arch_id).spec_cells()[
                    ci
                ].storage@[self.slot as int]@ by {
                assert(arch.spec_components()[ci] == archetypes.spec_arch(
                    self.arch_id,
                ).spec_components()[ci]);
                assert(is_relation_of(arch.spec_components()[ci].key, fetch.key.id));
                let p = choose|p: int|
                    0 <= p < prepared.borrows@.len() && (#[trigger] prepared.borrows@[p]).1
                        == ci as usize;
                assert(prepared.borrows@[p] == prepared.borrows@[p]);
                let (obj2, c2) = prepared.borrows@[p];
                assert(c2 == ci as usize);
                assert(arch.spec_components()[c2 as int].key.object == Option::Some(obj2));
                assert(c2 as int == ci);
                assert(out.entries@[p].0 == prepared.borrows@[p].0);
                assert(arch.spec_components()[ci].key.object == Option::Some(
                    prepared.borrows@[p].0,
                ));
                assert(out.entries@[p].1@ == arch.spec_cells()[ci].storage@[self.slot as int]@);
                assert(archetypes.spec_arch(self.arch_id).spec_cells()[ci] == arch.spec_cells()[
                    ci
                ]);
            }
        }
        out
    }
}

} // verus!
