//! One archetype: the columnar storage of all entities sharing one exact
//! set of component kinds, with its graph edges and subscribers.

use vstd::prelude::*;

use crate::borrow::BorrowState;
use crate::changes::{migrate_fold, remove_result, set_result, Change, ChangeKind, Changes};
use crate::component::{ComponentDesc, ComponentKey, Entity};
use crate::events::Subscriber;
use crate::slice::Slice;

verus! {

/// An archetype id: the position of the archetype in the store that owns
/// it.
pub type ArchetypeId = usize;

/// One component column: the descriptor, one erased value of `desc.size`
/// bytes per slot, the change list, and the runtime borrow accounting.
pub struct Cell {
    pub desc: ComponentDesc,
    pub storage: Vec<Vec<u8>>,
    pub changes: Changes,
    pub borrow: BorrowState,
}

/// Keys of an association list, in order.
pub open spec fn edge_keys(s: Seq<(ComponentKey, ArchetypeId)>) -> Seq<ComponentKey> {
    s.map_values(|e: (ComponentKey, ArchetypeId)| e.0)
}

pub open spec fn edges_unique(s: Seq<(ComponentKey, ArchetypeId)>) -> bool {
    forall|i: int, j: int|
        #![trigger s[i], s[j]]
        0 <= i < j < s.len() ==> s[i].0 != s[j].0
}

pub open spec fn edges_contain(s: Seq<(ComponentKey, ArchetypeId)>, k: ComponentKey) -> bool {
    exists|i: int| 0 <= i < s.len() && (#[trigger] s[i]).0 == k
}

pub open spec fn edges_lookup(s: Seq<(ComponentKey, ArchetypeId)>, k: ComponentKey) -> Option<
    ArchetypeId,
>
    decreases s.len(),
{
    if s.len() == 0 {
        Option::None
    } else if s[0].0 == k {
        Option::Some(s[0].1)
    } else {
        edges_lookup(s.skip(1), k)
    }
}

/// A byte-for-byte copy of one stored value.
pub(crate) fn copy_bytes(row: &Vec<u8>) -> (r: Vec<u8>)
    ensures
        r@ == row@,
{
    let mut value: Vec<u8> = Vec::new();
    let mut b: usize = 0;
    while b < row.len()
        invariant
            b <= row@.len(),
            value@ == row@.take(b as int),
        decreases row@.len() - b,
    {
        value.push(row[b]);
        proof {
            assert(value@ =~= row@.take(b as int + 1));
        }
        b = b + 1;
    }
    proof {
        assert(row@.take(row@.len() as int) =~= row@);
    }
    value
}

/// The columnar storage of one set of component kinds, the graph edges to
/// the neighbouring archetypes, and the attached subscribers.
pub struct Archetype {
    components: Vec<ComponentDesc>,
    cells: Vec<Cell>,
    entities: Vec<Entity>,
    outgoing: Vec<(ComponentKey, ArchetypeId)>,
    incoming: Vec<(ComponentKey, ArchetypeId)>,
    subscribers: Vec<Subscriber>,
}

impl Archetype {
    pub closed spec fn spec_components(&self) -> Seq<ComponentDesc> {
        self.components@
    }

    pub closed spec fn spec_cells(&self) -> Seq<Cell> {
        self.cells@
    }

    pub closed spec fn spec_entities(&self) -> Seq<Entity> {
        self.entities@
    }

    pub closed spec fn spec_outgoing(&self) -> Seq<(ComponentKey, ArchetypeId)> {
        self.outgoing@
    }

    pub closed spec fn spec_incoming(&self) -> Seq<(ComponentKey, ArchetypeId)> {
        self.incoming@
    }

    pub closed spec fn spec_subscribers(&self) -> Seq<Subscriber> {
        self.subscribers@
    }

    pub open spec fn spec_len(&self) -> int {
        self.spec_entities().len() as int
    }

    pub open spec fn spec_has(&self, key: ComponentKey) -> bool {
        exists|i: int|
            0 <= i < self.spec_components().len() && (#[trigger] self.spec_components()[i]).key
                == key
    }

    /// The component descriptors are strictly ordered by key (so each key
    /// appears once), every column has exactly one value per entity, each
    /// value has the declared size, each column tracks changes for its own
    /// descriptor, and the edge lists hold each key at most once.
    pub open spec fn wf(&self) -> bool {
        &&& forall|i: int, j: int|
            #![trigger self.spec_components()[i], self.spec_components()[j]]
            0 <= i < j < self.spec_components().len() ==> self.spec_components()[i].key.spec_lt(
                self.spec_components()[j].key,
            )
        &&& self.spec_cells().len() == self.spec_components().len()
        &&& forall|i: int|
            0 <= i < self.spec_cells().len() ==> (#[trigger] self.spec_cells()[i]).desc
                == self.spec_components()[i]
        &&& forall|i: int|
            0 <= i < self.spec_cells().len() ==> (#[trigger] self.spec_cells()[i]).storage@.len()
                == self.spec_len()
        &&& forall|i: int|
            0 <= i < self.spec_cells().len()
                ==> (#[trigger] self.spec_cells()[i]).changes.spec_info()
                == self.spec_components()[i]
        &&& forall|i: int, j: int|
            #![trigger self.spec_cells()[i].storage@[j]]
            0 <= i < self.spec_cells().len() && 0 <= j < self.spec_len()
                ==> self.spec_cells()[i].storage@[j]@.len() == self.spec_components()[i].size
        &&& edges_unique(self.spec_outgoing())
        &&& edges_unique(self.spec_incoming())
    }

    /// The empty archetype: no components, no entities. The root of the
    /// archetype graph.
    pub fn empty() -> (r: Archetype)
        ensures
            r.wf(),
            r.spec_components() == Seq::<ComponentDesc>::empty(),
            r.spec_entities() == Seq::<Entity>::empty(),
            r.spec_outgoing() == Seq::<(ComponentKey, ArchetypeId)>::empty(),
            r.spec_incoming() == Seq::<(ComponentKey, ArchetypeId)>::empty(),
            r.spec_subscribers() == Seq::<Subscriber>::empty(),
    {
        Archetype {
            components: Vec::new(),
            cells: Vec::new(),
            entities: Vec::new(),
            outgoing: Vec::new(),
            incoming: Vec::new(),
            subscribers: Vec::new(),
        }
    }

    /// A fresh archetype for the given component set, one empty column per
    /// component.
    pub fn new(components: Vec<ComponentDesc>) -> (r: Archetype)
        requires
            forall|i: int, j: int|
                #![trigger components@[i], components@[j]]
                0 <= i < j < components@.len() ==> components@[i].key.spec_lt(components@[j].key),
        ensures
            r.wf(),
            r.spec_components() == components@,
            r.spec_entities() == Seq::<Entity>::empty(),
            r.spec_outgoing() == Seq::<(ComponentKey, ArchetypeId)>::empty(),
            r.spec_incoming() == Seq::<(ComponentKey, ArchetypeId)>::empty(),
            r.spec_subscribers() == Seq::<Subscriber>::empty(),
    {
        let mut cells: Vec<Cell> = Vec::new();
        let mut i: usize = 0;
        while i < components.len()
            invariant
                i <= components@.len(),
                cells@.len() == i,
                forall|k: int|
                    0 <= k < i as int ==> (#[trigger] cells@[k]).desc == components@[k]
                        && cells@[k].storage@.len() == 0 && cells@[k].changes.spec_info()
                        == components@[k],
            decreases components@.len() - i,
        {
            let desc = components[i];
            cells.push(
                Cell {
                    desc,
                    storage: Vec::new(),
                    changes: Changes::new(desc),
                    borrow: BorrowState::new(),
                },
            );
            i = i + 1;
        }
        Archetype {
            components,
            cells,
            entities: Vec::new(),
            outgoing: Vec::new(),
            incoming: Vec::new(),
            subscribers: Vec::new(),
        }
    }

    /// The number of entities stored.
    pub fn len(&self) -> (r: usize)
        ensures
            r == self.spec_len(),
    {
        self.entities.len()
    }

    pub fn is_empty(&self) -> (r: bool)
        ensures
            r == (self.spec_len() == 0),
    {
        self.entities.len() == 0
    }

    /// All slots of this archetype, as the slice `[0, len)`.
    pub fn slots(&self) -> (r: Slice)
        ensures
            r.start == 0,
            r.end == self.spec_len(),
    {
        Slice::new(0, self.entities.len())
    }

    /// Whether a component of this key is stored here.
    pub fn has(&self, key: &ComponentKey) -> (r: bool)
        ensures
            r == self.spec_has(*key),
    {
        self.component_index(key).is_some()
    }

    /// The column index of a key, when present.
    pub fn component_index(&self, key: &ComponentKey) -> (r: Option<usize>)
        ensures
            match r {
                Option::Some(i) => i < self.spec_components().len()
                    && self.spec_components()[i as int].key == *key,
                Option::None => !self.spec_has(*key),
            },
    {
        let mut i: usize = 0;
        while i < self.components.len()
            invariant
                i <= self.components@.len(),
                forall|k: int|
                    0 <= k < i as int ==> (#[trigger] self.components@[k]).key != *key,
            decreases self.components@.len() - i,
        {
            if self.components[i].key == *key {
                return Some(i);
            }
            i = i + 1;
        }
        None
    }

    pub fn components(&self) -> (r: &Vec<ComponentDesc>)
        ensures
            r@ == self.spec_components(),
    {
        &self.components
    }

    pub fn entities(&self) -> (r: &Vec<Entity>)
        ensures
            r@ == self.spec_entities(),
    {
        &self.entities
    }

    /// The entity stored at a slot.
    pub fn entity(&self, slot: usize) -> (r: Entity)
        requires
            slot < self.spec_len(),
        ensures
            r == self.spec_entities()[slot as int],
    {
        self.entities[slot]
    }

    /// One column, for reading values and change lists.
    pub fn cell(&self, index: usize) -> (r: &Cell)
        requires
            index < self.spec_cells().len(),
        ensures
            *r == self.spec_cells()[index as int],
    {
        &self.cells[index]
    }

    pub fn outgoing(&self) -> (r: &Vec<(ComponentKey, ArchetypeId)>)
        ensures
            r@ == self.spec_outgoing(),
    {
        &self.outgoing
    }

    pub fn incoming(&self) -> (r: &Vec<(ComponentKey, ArchetypeId)>)
        ensures
            r@ == self.spec_incoming(),
    {
        &self.incoming
    }

    /// The outgoing edge for a key: the archetype holding these components
    /// plus that key.
    pub fn outgoing_get(&self, key: &ComponentKey) -> (r: Option<ArchetypeId>)
        ensures
            r == edges_lookup(self.spec_outgoing(), *key),
    {
        let ghost s = self.outgoing@;
        let mut i: usize = 0;
        proof {
            assert(s.skip(0) =~= s);
        }
        while i < self.outgoing.len()
            invariant
                self.outgoing@ == s,
                i <= s.len(),
                edges_lookup(s.skip(i as int), *key) == edges_lookup(s, *key),
            decreases s.len() - i,
        {
            proof {
                assert(s.skip(i as int)[0] == s[i as int]);
                assert(s.skip(i as int).skip(1) =~= s.skip(i as int + 1));
            }
            if self.outgoing[i].0 == *key {
                return Some(self.outgoing[i].1);
            }
            i = i + 1;
        }
        proof {
            assert(s.skip(s.len() as int) =~= Seq::<(ComponentKey, ArchetypeId)>::empty());
        }
        None
    }

    /// Adds the outgoing edge `key -> child`.
    pub fn add_child(&mut self, key: ComponentKey, id: ArchetypeId)
        requires
            !edges_contain(old(self).spec_outgoing(), key),
        ensures
            final(self).spec_outgoing() == old(self).spec_outgoing().push((key, id)),
            final(self).spec_incoming() == old(self).spec_incoming(),
            final(self).spec_components() == old(self).spec_components(),
            final(self).spec_cells() == old(self).spec_cells(),
            final(self).spec_entities() == old(self).spec_entities(),
            final(self).spec_subscribers() == old(self).spec_subscribers(),
            old(self).wf() ==> final(self).wf(),
    {
        self.outgoing.push((key, id));
        proof {
            let s = self.outgoing@;
            if old(self).wf() {
                assert forall|i: int, j: int|
                    #![trigger s[i], s[j]]
                    0 <= i < j < s.len() implies s[i].0 != s[j].0 by {
                    if j < s.len() - 1 {
                        assert(s[i] == old(self).spec_outgoing()[i]);
                        assert(s[j] == old(self).spec_outgoing()[j]);
                    } else {
                        assert(s[i] == old(self).spec_outgoing()[i]);
                    }
                }
            }
        }
    }

    /// Adds the incoming edge `key -> parent`.
    pub fn add_incoming(&mut self, key: ComponentKey, id: ArchetypeId)
        requires
            !edges_contain(old(self).spec_incoming(), key),
        ensures
            final(self).spec_incoming() == old(self).spec_incoming().push((key, id)),
            final(self).spec_outgoing() == old(self).spec_outgoing(),
            final(self).spec_components() == old(self).spec_components(),
            final(self).spec_cells() == old(self).spec_cells(),
            final(self).spec_entities() == old(self).spec_entities(),
            final(self).spec_subscribers() == old(self).spec_subscribers(),
            old(self).wf() ==> final(self).wf(),
    {
        self.incoming.push((key, id));
        proof {
            let s = self.incoming@;
            if old(self).wf() {
                assert forall|i: int, j: int|
                    #![trigger s[i], s[j]]
                    0 <= i < j < s.len() implies s[i].0 != s[j].0 by {
                    if j < s.len() - 1 {
                        assert(s[i] == old(self).spec_incoming()[i]);
                        assert(s[j] == old(self).spec_incoming()[j]);
                    } else {
                        assert(s[i] == old(self).spec_incoming()[i]);
                    }
                }
            }
        }
    }

    /// Drops the outgoing edge for `key`, keeping the others.
    pub fn remove_link(&mut self, key: &ComponentKey)
        ensures
            final(self).spec_outgoing() == old(self).spec_outgoing().filter(
                |e: (ComponentKey, ArchetypeId)| e.0 != *key,
            ),
            !edges_contain(final(self).spec_outgoing(), *key),
            forall|k2: ComponentKey|
                edges_contain(final(self).spec_outgoing(), k2) ==> edges_contain(
                    old(self).spec_outgoing(),
                    k2,
                ),
            final(self).spec_incoming() == old(self).spec_incoming(),
            final(self).spec_components() == old(self).spec_components(),
            final(self).spec_cells() == old(self).spec_cells(),
            final(self).spec_entities() == old(self).spec_entities(),
            final(self).spec_subscribers() == old(self).spec_subscribers(),
            old(self).wf() ==> final(self).wf(),
    {
        let ghost s = self.outgoing@;
        let mut kept: Vec<(ComponentKey, ArchetypeId)> = Vec::new();
        let mut i: usize = 0;
        proof {
            assert(s.take(0) =~= Seq::<(ComponentKey, ArchetypeId)>::empty());
            assert(s.take(0).filter(|e: (ComponentKey, ArchetypeId)| e.0 != *key) =~= Seq::<
                (ComponentKey, ArchetypeId),
            >::empty());
        }
        while i < self.outgoing.len()
            invariant
                self.outgoing@ == s,
                i <= s.len(),
                kept@ == s.take(i as int).filter(|e: (ComponentKey, ArchetypeId)| e.0 != *key),
                forall|p: int|
                    0 <= p < kept@.len() ==> exists|q: int|
                        0 <= q < i as int && #[trigger] kept@[p] == s[q],
                edges_unique(s) ==> edges_unique(kept@),
            decreases s.len() - i,
        {
            let e = self.outgoing[i];
            let ghost kept0 = kept@;
            proof {
                reveal_with_fuel(Seq::filter, 2);
                assert(s.take(i as int + 1).drop_last() =~= s.take(i as int));
                assert(s.take(i as int + 1).last() == s[i as int]);
            }
            if !(e.0 == *key) {
                kept.push(e);
                proof {
                    assert forall|p: int| 0 <= p < kept@.len() implies exists|q: int|
                        0 <= q < i as int + 1 && #[trigger] kept@[p] == s[q] by {
                        if p < kept0.len() {
                            assert(kept@[p] == kept0[p]);
                        } else {
                            assert(kept@[p] == s[i as int]);
                        }
                    }
                    if edges_unique(s) {
                        assert forall|p1: int, p2: int|
                            #![trigger kept@[p1], kept@[p2]]
                            0 <= p1 < p2 < kept@.len() implies kept@[p1].0 != kept@[p2].0 by {
                            if p2 == kept@.len() - 1 {
                                assert(kept@[p1] == kept0[p1]);
                                let q = choose|q: int| 0 <= q < i as int && kept0[p1] == s[q];
                                assert(s[q].0 != s[i as int].0);
                            } else {
                                assert(kept@[p1] == kept0[p1]);
                                assert(kept@[p2] == kept0[p2]);
                            }
                        }
                    }
                }
            }
            i = i + 1;
        }
        proof {
            assert(s.take(s.len() as int) =~= s);
        }
        self.outgoing = kept;
        proof {
            let out = self.outgoing@;
            assert forall|k2: ComponentKey| edges_contain(out, k2) implies edges_contain(
                s,
                k2,
            ) by {
                let i = choose|i: int| 0 <= i < out.len() && (#[trigger] out[i]).0 == k2;
                let q = choose|q: int| 0 <= q < s.len() && out[i] == s[q];
            }
            assert(!edges_contain(out, *key)) by {
                if edges_contain(out, *key) {
                    let i = choose|i: int| 0 <= i < out.len() && (#[trigger] out[i]).0 == *key;
                    s.take(s.len() as int).filter_lemma(
                        |e: (ComponentKey, ArchetypeId)| e.0 != *key,
                    );
                }
            }
        }
    }

    /// Attaches a subscriber to this archetype.
    pub fn add_handler(&mut self, s: Subscriber)
        ensures
            final(self).spec_subscribers() == old(self).spec_subscribers().push(s),
            final(self).spec_outgoing() == old(self).spec_outgoing(),
            final(self).spec_incoming() == old(self).spec_incoming(),
            final(self).spec_components() == old(self).spec_components(),
            final(self).spec_cells() == old(self).spec_cells(),
            final(self).spec_entities() == old(self).spec_entities(),
            old(self).wf() ==> final(self).wf(),
    {
        self.subscribers.push(s);
    }

    /// Whether a subscriber wants this archetype: every required key is
    /// present.
    pub fn matches_subscriber(&self, s: &Subscriber) -> (r: bool)
        ensures
            r == forall|i: int|
                0 <= i < s.spec_required().len() ==> self.spec_has(
                    #[trigger] s.spec_required()[i],
                ),
    {
        let req = s.required();
        let mut i: usize = 0;
        while i < req.len()
            invariant
                req@ == s.spec_required(),
                i <= req@.len(),
                forall|k: int| 0 <= k < i as int ==> self.spec_has(#[trigger] req@[k]),
            decreases req@.len() - i,
        {
            if !self.has(&req[i]) {
                return false;
            }
            i = i + 1;
        }
        true
    }

    /// Appends a row for `id`: one zeroed value per column, each column
    /// recording an insertion at `tick` for the new slot. Returns the slot.
    pub fn push(&mut self, id: Entity, tick: u32) -> (slot: usize)
        requires
            old(self).wf(),
            old(self).spec_len() < usize::MAX,
        ensures
            final(self).wf(),
            slot == old(self).spec_len(),
            final(self).spec_entities() == old(self).spec_entities().push(id),
            final(self).spec_components() == old(self).spec_components(),
            final(self).spec_outgoing() == old(self).spec_outgoing(),
            final(self).spec_incoming() == old(self).spec_incoming(),
            final(self).spec_subscribers() == old(self).spec_subscribers(),
            final(self).spec_cells().len() == old(self).spec_cells().len(),
            forall|i: int|
                0 <= i < final(self).spec_cells().len() ==> {
                    let oldc = old(self).spec_cells()[i];
                    let newc = #[trigger] final(self).spec_cells()[i];
                    newc.desc == oldc.desc && newc.borrow == oldc.borrow
                        && newc.storage@.len() == oldc.storage@.len() + 1 && newc.storage@.last()@
                        =~= Seq::<u8>::new(oldc.desc.size as nat, |k: int| 0u8)
                        && (forall|j: int|
                        0 <= j < oldc.storage@.len() ==> newc.storage@[j] == oldc.storage@[j])
                        && newc.changes@ == set_result(
                        oldc.changes@,
                        Change {
                            slice: Slice {
                                start: old(self).spec_len() as usize,
                                end: (old(self).spec_len() + 1) as usize,
                            },
                            tick,
                            kind: ChangeKind::Inserted,
                        },
                    )
                },
    {
        let slot = self.entities.len();
        self.entities.push(id);
        let n = self.cells.len();
        let mut i: usize = 0;
        while i < n
            invariant
                n == self.cells@.len(),
                self.cells@.len() == old(self).spec_cells().len(),
                i <= n,
                slot == old(self).spec_len(),
                slot < usize::MAX,
                self.components@ == old(self).spec_components(),
                self.entities@ == old(self).spec_entities().push(id),
                self.outgoing@ == old(self).spec_outgoing(),
                self.incoming@ == old(self).spec_incoming(),
                self.subscribers@ == old(self).spec_subscribers(),
                forall|k: int|
                    0 <= k < self.cells@.len() ==> (#[trigger] self.cells@[k]).desc == old(
                        self,
                    ).spec_cells()[k].desc,
                forall|k: int|
                    i as int <= k < self.cells@.len() ==> #[trigger] self.cells@[k] == old(
                        self,
                    ).spec_cells()[k],
                forall|k: int|
                    0 <= k < i as int ==> {
                        let oldc = old(self).spec_cells()[k];
                        let newc = #[trigger] self.cells@[k];
                        newc.borrow == oldc.borrow && newc.storage@.len() == oldc.storage@.len()
                            + 1 && newc.storage@.last()@ =~= Seq::<u8>::new(
                            oldc.desc.size as nat,
                            |t: int| 0u8,
                        ) && (forall|j: int|
                            0 <= j < oldc.storage@.len() ==> newc.storage@[j]
                                == oldc.storage@[j]) && newc.changes@ == set_result(
                            oldc.changes@,
                            Change {
                                slice: Slice { start: slot, end: (slot + 1) as usize },
                                tick,
                                kind: ChangeKind::Inserted,
                            },
                        ) && newc.changes.spec_info() == oldc.changes.spec_info()
                    },
            decreases n - i,
        {
            let size = self.cells[i].desc.size;
            let zeroes: Vec<u8> = vec![0u8; size];
            self.cells[i].storage.push(zeroes);
            self.cells[i].changes.set(
                Change::new(Slice::single(slot), tick, ChangeKind::Inserted),
            );
            i = i + 1;
        }
        slot
    }

    /// Overwrites the value of one column at one slot, recording a
    /// modification at `tick`.
    pub fn write_value(&mut self, cell_index: usize, slot: usize, value: Vec<u8>, tick: u32)
        requires
            old(self).wf(),
            cell_index < old(self).spec_cells().len(),
            slot < old(self).spec_len(),
            value@.len() == old(self).spec_components()[cell_index as int].size,
        ensures
            final(self).wf(),
            final(self).spec_entities() == old(self).spec_entities(),
            final(self).spec_components() == old(self).spec_components(),
            final(self).spec_outgoing() == old(self).spec_outgoing(),
            final(self).spec_incoming() == old(self).spec_incoming(),
            final(self).spec_cells().len() == old(self).spec_cells().len(),
            forall|k: int|
                0 <= k < final(self).spec_cells().len() && k != cell_index as int ==> #[trigger]
                final(self).spec_cells()[k] == old(self).spec_cells()[k],
            final(self).spec_cells()[cell_index as int].storage@ == old(self).spec_cells()[
                cell_index as int
            ].storage@.update(slot as int, value),
            final(self).spec_cells()[cell_index as int].changes@ == set_result(
                old(self).spec_cells()[cell_index as int].changes@,
                Change {
                    slice: Slice { start: slot, end: (slot + 1) as usize },
                    tick,
                    kind: ChangeKind::Modified,
                },
            ),
            final(self).spec_cells()[cell_index as int].desc == old(self).spec_cells()[
                cell_index as int
            ].desc,
            final(self).spec_cells()[cell_index as int].borrow == old(self).spec_cells()[
                cell_index as int
            ].borrow,
    {
        let n = self.entities.len();
        proof {
            assert(slot < n);
        }
        self.cells[cell_index].storage[slot] = value;
        self.cells[cell_index].changes.set(
            Change::new(Slice::single(slot), tick, ChangeKind::Modified),
        );
    }

    /// Moves the row at `slot` into `dst`: shared columns carry their value
    /// and migrate their change records; columns absent from `dst` are
    /// dropped with a `Removed` record; the freed slot is filled from the
    /// last row. Returns the destination slot and the entity moved into the
    /// freed slot, if any.
    #[verifier::rlimit(100)]
    #[verifier::spinoff_prover]
    pub fn move_to(&mut self, dst: &mut Archetype, slot: usize, tick: u32) -> (r: (
        usize,
        Option<Entity>,
    ))
        requires
            old(self).wf(),
            old(dst).wf(),
            slot < old(self).spec_len(),
            old(dst).spec_len() < usize::MAX,
            // a key shared by both archetypes names the same value layout
            forall|dj: int, si: int|
                0 <= dj < old(dst).spec_components().len() && 0 <= si < old(
                    self,
                ).spec_components().len() && (#[trigger] old(dst).spec_components()[dj]).key == (
                #[trigger] old(self).spec_components()[si]).key ==> old(dst).spec_components()[
                    dj
                ].size == old(self).spec_components()[si].size,
        ensures
            final(self).wf(),
            final(dst).wf(),
            r.0 == old(dst).spec_len(),
            final(dst).spec_entities() == old(dst).spec_entities().push(
                old(self).spec_entities()[slot as int],
            ),
            final(self).spec_entities() == old(self).spec_entities().update(
                slot as int,
                old(self).spec_entities().last(),
            ).drop_last(),
            r.1 == (if slot + 1 == old(self).spec_len() {
                Option::<Entity>::None
            } else {
                Option::Some(old(self).spec_entities().last())
            }),
            final(self).spec_components() == old(self).spec_components(),
            final(dst).spec_components() == old(dst).spec_components(),
            final(self).spec_outgoing() == old(self).spec_outgoing(),
            final(self).spec_incoming() == old(self).spec_incoming(),
            final(dst).spec_outgoing() == old(dst).spec_outgoing(),
            final(dst).spec_incoming() == old(dst).spec_incoming(),
            final(self).spec_subscribers() == old(self).spec_subscribers(),
            final(dst).spec_subscribers() == old(dst).spec_subscribers(),
            final(self).spec_cells().len() == old(self).spec_cells().len(),
            final(dst).spec_cells().len() == old(dst).spec_cells().len(),
            // a destination column shared with the source carries the value
            // at `slot` and the migrated change records on top of its own
            // insertion record
            forall|dj: int, si: int|
                0 <= dj < old(dst).spec_cells().len() && 0 <= si < old(self).spec_cells().len()
                    && (#[trigger] old(dst).spec_components()[dj]).key == (#[trigger] old(
                    self,
                ).spec_components()[si]).key ==> {
                    let oldc = old(dst).spec_cells()[dj];
                    let newc = final(dst).spec_cells()[dj];
                    newc.desc == oldc.desc && newc.borrow == oldc.borrow && newc.storage@.len()
                        == oldc.storage@.len() + 1 && (forall|j: int|
                        0 <= j < oldc.storage@.len() ==> newc.storage@[j] == oldc.storage@[j])
                        && newc.storage@.last()@ == old(self).spec_cells()[si].storage@[
                        slot as int
                    ]@ && newc.changes@ == migrate_fold(
                        remove_result(old(self).spec_cells()[si].changes@, slot).1,
                        set_result(
                            oldc.changes@,
                            Change {
                                slice: Slice {
                                    start: old(dst).spec_len() as usize,
                                    end: (old(dst).spec_len() + 1) as usize,
                                },
                                tick,
                                kind: ChangeKind::Inserted,
                            },
                        ),
                        old(dst).spec_len() as usize,
                    )
                },
            // a destination column the source lacks gets a zeroed value and
            // only the insertion record
            forall|dj: int|
                0 <= dj < old(dst).spec_cells().len() && !old(self).spec_has(
                    (#[trigger] old(dst).spec_components()[dj]).key,
                ) ==> {
                    let oldc = old(dst).spec_cells()[dj];
                    let newc = final(dst).spec_cells()[dj];
                    newc.desc == oldc.desc && newc.borrow == oldc.borrow && newc.storage@.len()
                        == oldc.storage@.len() + 1 && newc.storage@.last()@ =~= Seq::<u8>::new(
                        oldc.desc.size as nat,
                        |k: int| 0u8,
                    ) && (forall|j: int|
                        0 <= j < oldc.storage@.len() ==> newc.storage@[j] == oldc.storage@[j])
                        && newc.changes@ == set_result(
                        oldc.changes@,
                        Change {
                            slice: Slice {
                                start: old(dst).spec_len() as usize,
                                end: (old(dst).spec_len() + 1) as usize,
                            },
                            tick,
                            kind: ChangeKind::Inserted,
                        },
                    )
                },
            // a source column: its records lose the moved slot (shared) or
            // gain a removal record (dropped), then the last slot's records
            // swap into the freed slot
            forall|si: int|
                #![trigger old(self).spec_cells()[si]]
                0 <= si < old(self).spec_cells().len() ==> {
                    let oldc = old(self).spec_cells()[si];
                    let newc = final(self).spec_cells()[si];
                    let base = if old(dst).spec_has(old(self).spec_components()[si].key) {
                        remove_result(oldc.changes@, slot).0
                    } else {
                        set_result(
                            oldc.changes@,
                            Change {
                                slice: Slice { start: slot, end: (slot + 1) as usize },
                                tick,
                                kind: ChangeKind::Removed,
                            },
                        )
                    };
                    newc.desc == oldc.desc && newc.borrow == oldc.borrow && newc.storage@
                        == oldc.storage@.update(slot as int, oldc.storage@.last()).drop_last()
                        && newc.changes@ == migrate_fold(
                        remove_result(
                            remove_result(base, slot).0,
                            (old(self).spec_len() - 1) as usize,
                        ).1,
                        remove_result(
                            remove_result(base, slot).0,
                            (old(self).spec_len() - 1) as usize,
                        ).0,
                        slot,
                    )
                },
    {
        let total = self.entities.len();
        proof {
            assert(slot < usize::MAX);
        }
        let ent = self.entities[slot];
        let dst_slot = dst.push(ent, tick);
        let ghost dst1 = *dst;
        let n = self.cells.len();
        let mut si: usize = 0;
        while si < n
            invariant
                old(self).wf(),
                old(dst).wf(),
                slot < old(self).spec_len(),
                slot < usize::MAX,
                old(dst).spec_len() < usize::MAX,
                dst_slot == old(dst).spec_len(),
                n == self.cells@.len(),
                si <= n,
                forall|dj: int, si2: int|
                    0 <= dj < old(dst).spec_components().len() && 0 <= si2 < old(
                        self,
                    ).spec_components().len() && (#[trigger] old(dst).spec_components()[dj]).key
                        == (#[trigger] old(self).spec_components()[si2]).key ==> old(
                        dst,
                    ).spec_components()[dj].size == old(self).spec_components()[si2].size,
                // the source: entities, components and edges untouched;
                // columns up to `si` updated, the rest as they were
                self.components@ == old(self).spec_components(),
                self.entities@ == old(self).spec_entities(),
                self.outgoing@ == old(self).spec_outgoing(),
                self.incoming@ == old(self).spec_incoming(),
                self.subscribers@ == old(self).spec_subscribers(),
                self.cells@.len() == old(self).spec_cells().len(),
                forall|k: int|
                    si as int <= k < n as int ==> #[trigger] self.cells@[k] == old(
                        self,
                    ).spec_cells()[k],
                forall|k: int|
                    0 <= k < si as int ==> {
                        let oldc = old(self).spec_cells()[k];
                        let newc = #[trigger] self.cells@[k];
                        newc.desc == oldc.desc && newc.borrow == oldc.borrow && newc.storage@
                            == oldc.storage@ && newc.changes.spec_info()
                            == oldc.changes.spec_info() && newc.changes@ == (if old(
                            dst,
                        ).spec_has(old(self).spec_components()[k].key) {
                            remove_result(oldc.changes@, slot).0
                        } else {
                            set_result(
                                oldc.changes@,
                                Change {
                                    slice: Slice { start: slot, end: (slot + 1) as usize },
                                    tick,
                                    kind: ChangeKind::Removed,
                                },
                            )
                        })
                    },
                // the destination: the pushed row everywhere; columns whose
                // key a handled source column shares updated further
                dst.spec_components() == old(dst).spec_components(),
                dst.spec_entities() == dst1.spec_entities(),
                dst1.spec_entities() == old(dst).spec_entities().push(
                    old(self).spec_entities()[slot as int],
                ),
                dst.spec_outgoing() == old(dst).spec_outgoing(),
                dst.spec_incoming() == old(dst).spec_incoming(),
                dst.spec_subscribers() == old(dst).spec_subscribers(),
                dst.spec_cells().len() == old(dst).spec_cells().len(),
                dst1.spec_cells().len() == old(dst).spec_cells().len(),
                forall|dj: int|
                    0 <= dj < old(dst).spec_cells().len() ==> (
                    #[trigger] dst1.spec_cells()[dj]).desc == old(dst).spec_cells()[dj].desc
                        && dst1.spec_cells()[dj].borrow == old(dst).spec_cells()[dj].borrow
                        && dst1.spec_cells()[dj].storage@.len() == old(dst).spec_cells()[
                        dj
                    ].storage@.len() + 1 && dst1.spec_cells()[dj].storage@.last()@ =~= Seq::<
                        u8,
                    >::new(old(dst).spec_cells()[dj].desc.size as nat, |k: int| 0u8) && (forall|
                        j: int,
                    |
                        0 <= j < old(dst).spec_cells()[dj].storage@.len()
                            ==> dst1.spec_cells()[dj].storage@[j] == old(dst).spec_cells()[
                            dj
                        ].storage@[j]) && dst1.spec_cells()[dj].changes@ == set_result(
                        old(dst).spec_cells()[dj].changes@,
                        Change {
                            slice: Slice {
                                start: dst_slot,
                                end: (dst_slot + 1) as usize,
                            },
                            tick,
                            kind: ChangeKind::Inserted,
                        },
                    ) && dst1.spec_cells()[dj].changes.spec_info() == old(dst).spec_cells()[
                        dj
                    ].changes.spec_info(),
                forall|dj: int, u: int|
                    0 <= dj < old(dst).spec_cells().len() && 0 <= u < si as int && (
                    #[trigger] old(dst).spec_components()[dj]).key == (#[trigger] old(
                        self,
                    ).spec_components()[u]).key ==> {
                        let oldc = old(dst).spec_cells()[dj];
                        let newc = dst.spec_cells()[dj];
                        newc.desc == oldc.desc && newc.borrow == oldc.borrow
                            && newc.storage@.len() == oldc.storage@.len() + 1 && (forall|j: int|
                            0 <= j < oldc.storage@.len() ==> newc.storage@[j]
                                == oldc.storage@[j]) && newc.storage@.last()@ == old(
                            self,
                        ).spec_cells()[u].storage@[slot as int]@ && newc.changes@ == migrate_fold(
                            remove_result(old(self).spec_cells()[u].changes@, slot).1,
                            set_result(
                                oldc.changes@,
                                Change {
                                    slice: Slice {
                                        start: dst_slot,
                                        end: (dst_slot + 1) as usize,
                                    },
                                    tick,
                                    kind: ChangeKind::Inserted,
                                },
                            ),
                            dst_slot,
                        ) && newc.changes.spec_info() == oldc.changes.spec_info()
                    },
                forall|dj: int|
                    0 <= dj < old(dst).spec_cells().len() && (forall|u: int|
                        0 <= u < si as int ==> (#[trigger] old(dst).spec_components()[dj]).key
                            != (#[trigger] old(self).spec_components()[u]).key) ==> dst.spec_cells()[dj] == dst1.spec_cells()[dj],
            decreases n - si,
        {
            let key = self.cells[si].desc.key;
            proof {
                assert(self.cells@[si as int] == old(self).spec_cells()[si as int]);
                assert(old(self).spec_cells()[si as int].desc == old(self).spec_components()[
                    si as int
                ]);
            }
            let ghost dst_pre = *dst;
            match dst.component_index(&key) {
                Some(dj) => {
                    proof {
                        assert(old(dst).spec_components()[dj as int].key == key);
                        assert(old(dst).spec_has(key));
                        // no earlier source column shares this key, so the
                        // destination column still holds its pushed state
                        assert forall|u: int| 0 <= u < si as int implies (#[trigger] old(
                            dst,
                        ).spec_components()[dj as int]).key != (#[trigger] old(
                            self,
                        ).spec_components()[u]).key by {
                            assert(old(self).spec_components()[u].key.spec_lt(
                                old(self).spec_components()[si as int].key,
                            ));
                        }
                        assert(dst.spec_cells()[dj as int] == dst1.spec_cells()[dj as int]);
                        assert(old(dst).spec_components()[dj as int].size == old(
                            self,
                        ).spec_components()[si as int].size);
                    }
                    let value = copy_bytes(&self.cells[si].storage[slot]);
                    dst.cells[dj].storage[dst_slot] = value;
                    self.cells[si].changes.migrate_to(&mut dst.cells[dj].changes, slot, dst_slot);
                    proof {
                        let oldc = old(dst).spec_cells()[dj as int];
                        assert(dst.spec_cells()[dj as int].storage@.len() == oldc.storage@.len()
                            + 1);
                        assert(dst.spec_cells()[dj as int].storage@.last()@ == old(
                            self,
                        ).spec_cells()[si as int].storage@[slot as int]@);
                        assert forall|dj2: int|
                            0 <= dj2 < old(dst).spec_cells().len() && dj2 != dj as int implies
                            #[trigger] dst.spec_cells()[dj2] == dst_pre.spec_cells()[dj2] by {}
                        // a second destination column never shares the key
                        assert forall|dj2: int|
                            0 <= dj2 < old(dst).spec_components().len() && dj2 != dj as int
                                implies (#[trigger] old(dst).spec_components()[dj2]).key
                            != key by {
                            if dj2 < dj as int {
                                assert(old(dst).spec_components()[dj2].key.spec_lt(
                                    old(dst).spec_components()[dj as int].key,
                                ));
                            } else {
                                assert(old(dst).spec_components()[dj as int].key.spec_lt(
                                    old(dst).spec_components()[dj2].key,
                                ));
                            }
                        }
                    }
                },
                None => {
                    proof {
                        assert(!old(dst).spec_has(key)) by {
                            if old(dst).spec_has(key) {
                                let w = choose|w: int|
                                    0 <= w < old(dst).spec_components().len() && (#[trigger] old(
                                        dst,
                                    ).spec_components()[w]).key == key;
                            }
                        }
                    }
                    self.cells[si].changes.set(
                        Change::new(Slice::single(slot), tick, ChangeKind::Removed),
                    );
                },
            }
            si = si + 1;
        }
        proof {
            assert(self.wf()) by {
                assert forall|i: int|
                    0 <= i < self.cells@.len() implies (#[trigger] self.cells@[i]).desc
                    == self.components@[i] && self.cells@[i].storage@.len()
                    == self.entities@.len() && self.cells@[i].changes.spec_info()
                    == self.components@[i] by {}
            }
            assert(dst.wf()) by {
                assert forall|i: int|
                    0 <= i < dst.spec_cells().len() implies (#[trigger] dst.spec_cells()[i]).desc
                    == dst.spec_components()[i] && dst.spec_cells()[i].storage@.len()
                    == dst.spec_entities().len() && dst.spec_cells()[i].changes.spec_info()
                    == dst.spec_components()[i] by {
                    if !(dst.spec_cells()[i] == dst1.spec_cells()[i]) {
                        assert(dst1.wf());
                    }
                }
                assert forall|i: int, j: int|
                    #![trigger dst.spec_cells()[i].storage@[j]]
                    0 <= i < dst.spec_cells().len() && 0 <= j
                        < dst.spec_len() implies dst.spec_cells()[i].storage@[j]@.len()
                    == dst.spec_components()[i].size by {
                    if dst.spec_cells()[i] == dst1.spec_cells()[i] {
                        assert(dst1.wf());
                        assert(dst1.spec_cells()[i].storage@[j]@.len() == dst1.spec_components()[
                            i
                        ].size);
                    } else {
                        if j < old(dst).spec_cells()[i].storage@.len() {
                            assert(dst.spec_cells()[i].storage@[j] == old(dst).spec_cells()[
                                i
                            ].storage@[j]);
                        } else {
                            assert(dst.spec_cells()[i].storage@[j] == dst.spec_cells()[
                                i
                            ].storage@.last());
                        }
                    }
                }
            }
        }
        let moved = self.swap_remove_row(slot);
        proof {
            assert forall|dj: int|
                0 <= dj < old(dst).spec_cells().len() && !old(self).spec_has(
                    (#[trigger] old(dst).spec_components()[dj]).key,
                ) implies dst.spec_cells()[dj] == dst1.spec_cells()[dj] by {
                assert forall|u: int| 0 <= u < n as int implies (#[trigger] old(
                    dst,
                ).spec_components()[dj]).key != (#[trigger] old(self).spec_components()[u]).key by {
                    if old(dst).spec_components()[dj].key == old(self).spec_components()[u].key {
                        assert(old(self).spec_has(old(dst).spec_components()[dj].key));
                    }
                }
            }
        }
        (dst_slot, moved)
    }

    /// Removes the row at `slot` by moving the last row into its place.
    /// Each column's change list swaps the last slot's records into the
    /// freed slot. Returns the entity that moved into `slot`, if any.
    pub fn swap_remove_row(&mut self, slot: usize) -> (moved: Option<Entity>)
        requires
            old(self).wf(),
            slot < old(self).spec_len(),
        ensures
            final(self).wf(),
            final(self).spec_len() == old(self).spec_len() - 1,
            final(self).spec_entities() == old(self).spec_entities().update(
                slot as int,
                old(self).spec_entities().last(),
            ).drop_last(),
            final(self).spec_components() == old(self).spec_components(),
            final(self).spec_outgoing() == old(self).spec_outgoing(),
            final(self).spec_incoming() == old(self).spec_incoming(),
            final(self).spec_subscribers() == old(self).spec_subscribers(),
            final(self).spec_cells().len() == old(self).spec_cells().len(),
            moved == if slot + 1 == old(self).spec_len() {
                Option::<Entity>::None
            } else {
                Option::Some(old(self).spec_entities().last())
            },
            forall|k: int|
                0 <= k < final(self).spec_cells().len() ==> {
                    let oldc = old(self).spec_cells()[k];
                    let newc = #[trigger] final(self).spec_cells()[k];
                    newc.desc == oldc.desc && newc.borrow == oldc.borrow && newc.storage@
                        == oldc.storage@.update(slot as int, oldc.storage@.last()).drop_last()
                        && newc.changes@ == migrate_fold(
                        remove_result(
                            remove_result(oldc.changes@, slot).0,
                            (old(self).spec_len() - 1) as usize,
                        ).1,
                        remove_result(
                            remove_result(oldc.changes@, slot).0,
                            (old(self).spec_len() - 1) as usize,
                        ).0,
                        slot,
                    )
                },
    {
        let last = self.entities.len() - 1;
        let moved = if slot < last {
            Some(self.entities[last])
        } else {
            None
        };
        self.entities.swap_remove(slot);
        let n = self.cells.len();
        let mut i: usize = 0;
        while i < n
            invariant
                old(self).wf(),
                slot < old(self).spec_len(),
                n == self.cells@.len(),
                self.cells@.len() == old(self).spec_cells().len(),
                i <= n,
                slot <= last,
                last < usize::MAX,
                last == old(self).spec_len() - 1,
                self.components@ == old(self).spec_components(),
                self.entities@ == old(self).spec_entities().update(
                    slot as int,
                    old(self).spec_entities().last(),
                ).drop_last(),
                self.outgoing@ == old(self).spec_outgoing(),
                self.incoming@ == old(self).spec_incoming(),
                self.subscribers@ == old(self).spec_subscribers(),
                forall|k: int|
                    i as int <= k < self.cells@.len() ==> #[trigger] self.cells@[k] == old(
                        self,
                    ).spec_cells()[k],
                forall|k: int|
                    0 <= k < i as int ==> {
                        let oldc = old(self).spec_cells()[k];
                        let newc = #[trigger] self.cells@[k];
                        newc.desc == oldc.desc && newc.borrow == oldc.borrow && newc.storage@
                            == oldc.storage@.update(slot as int, oldc.storage@.last()).drop_last()
                            && newc.changes@ == migrate_fold(
                            remove_result(remove_result(oldc.changes@, slot).0, last).1,
                            remove_result(remove_result(oldc.changes@, slot).0, last).0,
                            slot,
                        ) && newc.changes.spec_info() == oldc.changes.spec_info()
                    },
            decreases n - i,
        {
            self.cells[i].storage.swap_remove(slot);
            let _dropped = self.cells[i].changes.swap_out(slot, last);
            i = i + 1;
        }
        moved
    }
}

} // verus!
