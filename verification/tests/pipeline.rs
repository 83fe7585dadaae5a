//! The query/filter pipeline: union filtering and chunked change queries.

use flax::archetypes::Archetypes;
use flax::changes::{Change, Changes};
use flax::component::{ComponentDesc, ComponentKey};
use flax::entity_ref::EntityRef;
use flax::filter::{
    All, And, ChangeFilter, FilterIter, Not, Nothing, Or, SlotFilter, Union,
};
use flax::query::{ArchetypeChunks, Batch, BatchedIter, QueryIter};
use flax::relations::relations_like;
use flax::slice::Slice;

fn plain(id: u64) -> ComponentDesc {
    ComponentDesc::new(ComponentKey::new(id, None), 1, false)
}

fn relation(id: u64, object: u64) -> ComponentDesc {
    ComponentDesc::new(ComponentKey::new(id, Some(object)), 1, false)
}

#[test]
fn union() {
    let fetch = Union((
        Slice::new(0, 2),
        Nothing,
        Slice::new(7, 16),
        Slice::new(3, 10),
    ));

    let mut fetch = FilterIter::new(Slice::new(0, 100), fetch);

    let mut collected = Vec::new();
    while let Some(s) = fetch.next() {
        collected.push(s);
    }

    assert_eq!(
        collected,
        [Slice::new(0, 2), Slice::new(3, 10), Slice::new(10, 16)]
    );
}

#[test]
fn filter_combinators() {
    // And: intersection of runs
    let f = And(Slice::new(2, 10), Slice::new(5, 20));
    assert_eq!(f.filter_slots(Slice::new(0, 30)), Slice::new(5, 10));

    // Not: the complement before the inner run
    let f = Not(Slice::new(5, 20));
    assert_eq!(f.filter_slots(Slice::new(0, 30)), Slice::new(0, 5));

    // Or: the earliest of both runs
    let f = Or((Slice::new(8, 10), Slice::new(3, 4)));
    assert_eq!(f.filter_slots(Slice::new(0, 30)), Slice::new(3, 4));

    // All and Nothing
    assert_eq!(All.filter_slots(Slice::new(2, 5)), Slice::new(2, 5));
    assert!(Nothing.filter_slots(Slice::new(2, 5)).is_empty());
}

/// Two archetypes with 10 and 20 entities; slot 3 of the first and slots
/// 0 to 4 of the second are written at the current tick. A changed-since
/// query yields exactly those two runs as batches.
#[test]
fn chunked_change_query() {
    let mut archetypes = Archetypes::new();
    let a1 = archetypes.find_create(&vec![plain(2)]);
    let a2 = archetypes.find_create(&vec![plain(2), plain(3)]);

    let spawn_tick = 1;
    for e in 0..10 {
        archetypes.get_mut(a1).push(100 + e, spawn_tick);
    }
    for e in 0..20 {
        archetypes.get_mut(a2).push(200 + e, spawn_tick);
    }

    let write_tick = 5;
    archetypes.get_mut(a1).write_value(0, 3, vec![7], write_tick);
    for slot in 0..5 {
        archetypes.get_mut(a2).write_value(0, slot, vec![9], write_tick);
    }

    // "changed since write_tick - 1", ignoring the initial insertions
    let since = write_tick - 1;
    let mut prepared = Vec::new();
    for aid in [a1, a2] {
        let arch = archetypes.get(aid);
        let filter = ChangeFilter::new(&arch.cell(0).changes, since);
        prepared.push(ArchetypeChunks::new(aid, arch.slots(), filter));
    }
    let mut iter = BatchedIter::new(prepared);

    let mut batches = Vec::new();
    while let Some((aid, slice)) = iter.next() {
        batches.push((aid, slice));
    }
    assert_eq!(batches, [(a1, Slice::new(3, 4)), (a2, Slice::new(0, 5))]);
}

/// The flattened query yields one entity and slot at a time.
#[test]
fn query_iter_flattens() {
    let mut archetypes = Archetypes::new();
    let a1 = archetypes.find_create(&vec![plain(2)]);
    for e in 0..4 {
        archetypes.get_mut(a1).push(50 + e, 1);
    }
    archetypes.get_mut(a1).write_value(0, 1, vec![1], 3);
    archetypes.get_mut(a1).write_value(0, 2, vec![1], 3);

    let arch = archetypes.get(a1);
    let filter = ChangeFilter::new(&arch.cell(0).changes, 2);
    let prepared = vec![ArchetypeChunks::new(a1, arch.slots(), filter)];
    let mut q = QueryIter::new(BatchedIter::new(prepared));

    let mut items = Vec::new();
    while let Some((id, slot)) = q.next(&archetypes) {
        items.push((id, slot));
    }
    assert_eq!(items, [(51, 1), (52, 2)]);
}

/// Batches expose their archetype, length and per-item iteration.
#[test]
fn batch_iteration() {
    let mut archetypes = Archetypes::new();
    let a1 = archetypes.find_create(&vec![plain(2)]);
    for e in 0..6 {
        archetypes.get_mut(a1).push(70 + e, 1);
    }
    let arch = archetypes.get(a1);
    let mut batch = Batch::new(arch, a1, Slice::new(2, 5));
    assert_eq!(batch.arch(), a1);
    assert_eq!(batch.len(), 3);
    assert!(!batch.is_empty());
    assert_eq!(batch.next_with_id(), Some((72, 2)));
    assert_eq!(batch.next_slot(), Some(3));
    assert_eq!(batch.next_with_id(), Some((74, 4)));
    assert_eq!(batch.next_with_id(), None);
    assert!(batch.is_empty());
}

/// The relation fetch lists every `(target, value)` pair of one entity.
#[test]
fn relations_fetch() {
    let mut archetypes = Archetypes::new();
    let id = archetypes.find_create(&vec![plain(2), relation(7, 30), relation(7, 31)]);
    {
        let arch = archetypes.get_mut(id);
        arch.push(100, 1);
        arch.write_value(1, 0, vec![11], 2);
        arch.write_value(2, 0, vec![12], 2);
    }

    let entity = EntityRef::new(id, 0, 100);
    let mut rels = entity.relations(&archetypes, 7);
    assert_eq!(rels.next(), Some((30, vec![11])));
    assert_eq!(rels.next(), Some((31, vec![12])));
    assert_eq!(rels.next(), None);

    // an unrelated id yields nothing
    let fetch = relations_like(9);
    let arch = archetypes.get(id);
    let prepared = fetch.prepare(arch);
    let mut none = prepared.fetch(arch, 0);
    assert_eq!(none.next(), None);

    // the read facade
    assert!(entity.has(&archetypes, &ComponentKey::new(2, None)));
    assert_eq!(entity.get(&archetypes, &ComponentKey::new(7, Some(30))), Ok(vec![11]));
    assert!(entity
        .get(&archetypes, &ComponentKey::new(4, None))
        .unwrap_err()
        .is_missing_component());
    assert_eq!(entity.id(), 100);
}
