//! Archetype graph, storage and index behaviour.

use flax::archetypes::Archetypes;
use flax::borrow::BorrowState;
use flax::component::{ComponentDesc, ComponentKey, DUMMY};
use flax::slice::Slice;

fn plain(id: u64) -> ComponentDesc {
    ComponentDesc::new(ComponentKey::new(id, None), 4, false)
}

fn relation(id: u64, object: u64, exclusive: bool) -> ComponentDesc {
    ComponentDesc::new(ComponentKey::new(id, Some(object)), 4, exclusive)
}

/// Every cell's column has exactly one value per entity, through pushes,
/// writes and swap-removals.
#[test]
fn columns_match_entities() {
    let mut archetypes = Archetypes::new();
    let id = archetypes.find_create(&vec![plain(2), plain(3)]);
    {
        let arch = archetypes.get_mut(id);
        let s0 = arch.push(100, 1);
        let s1 = arch.push(101, 1);
        let s2 = arch.push(102, 2);
        assert_eq!((s0, s1, s2), (0, 1, 2));
        arch.write_value(0, 1, vec![1, 2, 3, 4], 3);
    }
    {
        let arch = archetypes.get(id);
        assert_eq!(arch.len(), 3);
        for c in 0..arch.components().len() {
            assert_eq!(arch.cell(c).storage.len(), arch.len());
        }
        assert_eq!(arch.cell(0).storage[1], vec![1, 2, 3, 4]);
        assert_eq!(arch.slots(), Slice::new(0, 3));
    }
    {
        let arch = archetypes.get_mut(id);
        let moved = arch.swap_remove_row(0);
        assert_eq!(moved, Some(102));
    }
    let arch = archetypes.get(id);
    assert_eq!(arch.len(), 2);
    assert_eq!(arch.entities(), &vec![102, 101]);
    for c in 0..arch.components().len() {
        assert_eq!(arch.cell(c).storage.len(), arch.len());
    }
}

/// The index holds a direct record exactly for the keys an archetype has,
/// and both wildcard records for each relation, backed at least once.
#[test]
fn index_records() {
    let mut archetypes = Archetypes::new();
    let id = archetypes.find_create(&vec![plain(2), relation(3, 10, false)]);

    let direct = archetypes.index().get(&ComponentKey::new(2, None), id);
    assert!(direct.is_some());
    assert_eq!(direct.unwrap().relation_count, 0);

    let rel = archetypes.index().get(&ComponentKey::new(3, Some(10)), id);
    assert!(rel.is_some());

    let wild_obj = archetypes.index().get(&ComponentKey::new(DUMMY, Some(10)), id);
    assert!(wild_obj.unwrap().relation_count >= 1);
    let wild_id = archetypes.index().get(&ComponentKey::new(3, Some(DUMMY)), id);
    assert!(wild_id.unwrap().relation_count >= 1);

    // no record for a key the archetype does not hold
    assert!(archetypes.index().get(&ComponentKey::new(9, None), id).is_none());

    // candidate archetypes by key
    let candidates = archetypes.index().archetypes_with(&ComponentKey::new(2, None));
    assert!(candidates.contains(&id));
}

/// Setting a second target of an exclusive relation replaces the first: no
/// derived archetype carries both instances.
#[test]
fn exclusive_relation_replaced() {
    let mut archetypes = Archetypes::new();
    let with_x = archetypes.find_create(&vec![plain(2), relation(3, 10, true)]);
    {
        let arch = archetypes.get(with_x);
        assert!(arch.has(&ComponentKey::new(2, None)));
        assert!(arch.has(&ComponentKey::new(3, Some(10))));
    }
    // the entity with {a, R(10)} now gets R(11): walk a, R(10), R(11)
    let with_y = archetypes.find_create(&vec![
        plain(2),
        relation(3, 10, true),
        relation(3, 11, true),
    ]);
    let arch = archetypes.get(with_y);
    assert!(arch.has(&ComponentKey::new(2, None)));
    assert!(arch.has(&ComponentKey::new(3, Some(11))));
    assert!(!arch.has(&ComponentKey::new(3, Some(10))));
    // and no archetype anywhere holds both targets
    for id in archetypes.iter() {
        let a = archetypes.get(id);
        assert!(
            !(a.has(&ComponentKey::new(3, Some(10))) && a.has(&ComponentKey::new(3, Some(11))))
        );
    }
}

/// Adding a component and then removing it leads back to the original
/// archetype id when nothing happened in between.
#[test]
fn add_remove_component_round_trip() {
    let mut archetypes = Archetypes::new();
    let base = archetypes.find_create(&vec![plain(2)]);
    let wider = archetypes.find_create(&vec![plain(2), plain(3)]);
    assert_ne!(base, wider);
    let back = archetypes.find_create(&vec![plain(2)]);
    assert_eq!(base, back);
    let wider_again = archetypes.find_create(&vec![plain(2), plain(3)]);
    assert_eq!(wider, wider_again);
}

/// Pruning removes empty childless archetypes and walks up to the parents;
/// the root is never pruned.
#[test]
fn pruning() {
    let mut archetypes = Archetypes::new();
    let a = archetypes.find_create(&vec![plain(2)]);
    let ab = archetypes.find_create(&vec![plain(2), plain(3)]);
    let abc = archetypes.find_create(&vec![plain(2), plain(3), plain(4)]);

    // one entity lives in {a,b,c}
    archetypes.get_mut(abc).push(100, 1);

    // not pruned while occupied
    assert!(!archetypes.prune_arch(abc));
    assert!(archetypes.is_live(abc));

    // not pruned while it has children
    assert!(!archetypes.prune_arch(ab));
    assert!(archetypes.is_live(ab));

    // despawn the entity, then prune the leaf and its empty ancestors
    archetypes.get_mut(abc).swap_remove_row(0);
    assert!(archetypes.prune_arch(abc));
    assert!(!archetypes.is_live(abc));
    assert!(!archetypes.is_live(ab));
    assert!(!archetypes.is_live(a));
    let root = archetypes.root();
    assert!(archetypes.is_live(root));

    // the index forgot the pruned archetypes
    assert!(archetypes.index().get(&ComponentKey::new(2, None), a).is_none());
    assert!(archetypes.index().get(&ComponentKey::new(4, None), abc).is_none());
}

/// Rows record insertions and modifications in the per-cell change lists.
#[test]
fn cell_change_tracking() {
    let mut archetypes = Archetypes::new();
    let id = archetypes.find_create(&vec![plain(2)]);
    {
        let arch = archetypes.get_mut(id);
        arch.push(100, 5);
        arch.push(101, 5);
        arch.write_value(0, 0, vec![9, 9, 9, 9], 6);
    }
    let arch = archetypes.get(id);
    let changes = &arch.cell(0).changes;
    let inserted = changes
        .iter()
        .iter()
        .any(|c| c.kind.is_inserted() && c.tick == 5 && c.slice.contains(0) && c.slice.contains(1));
    assert!(inserted);
    let modified = changes
        .iter()
        .iter()
        .any(|c| c.kind.is_modified() && c.tick == 6 && c.slice.contains(0));
    assert!(modified);
}

/// Borrows: many readers or one writer, violations fail without blocking.
#[test]
fn borrow_state() {
    let mut b = BorrowState::new();
    assert!(b.try_read().is_ok());
    assert!(b.try_read().is_ok());
    assert!(b.try_write().is_err());
    b.release_read();
    b.release_read();
    assert!(b.try_write().is_ok());
    assert!(b.try_read().is_err());
    assert!(b.try_write().is_err());
    b.release_write();
    assert!(b.try_read().is_ok());
}

/// Slice set algebra used by the change lists.
#[test]
fn slice_algebra() {
    let a = Slice::new(2, 8);
    assert_eq!(a.len(), 6);
    assert!(!a.is_empty());
    assert!(a.contains(2) && a.contains(7) && !a.contains(8));

    assert_eq!(a.intersect(&Slice::new(5, 12)), Slice::new(5, 8));
    assert!(a.intersect(&Slice::new(9, 12)).is_empty());

    assert_eq!(a.union(&Slice::new(8, 12)), Some(Slice::new(2, 12)));
    assert_eq!(a.union(&Slice::new(9, 12)), None);

    assert_eq!(a.difference(&Slice::new(0, 4)), Some(Slice::new(4, 8)));
    assert_eq!(a.difference(&Slice::new(6, 12)), Some(Slice::new(2, 6)));
    assert_eq!(a.difference(&Slice::new(4, 6)), None);
    assert_eq!(a.difference(&Slice::new(10, 12)), Some(a));

    assert_eq!(
        a.split_with(&Slice::new(4, 6)),
        Some((Slice::new(2, 4), Slice::new(4, 6), Slice::new(6, 8)))
    );
    assert_eq!(a.split_with(&Slice::new(0, 6)), None);
}

/// The generation counter moves when archetypes are created or removed.
#[test]
fn generation_moves() {
    let mut archetypes = Archetypes::new();
    let g0 = archetypes.gen();
    let a = archetypes.find_create(&vec![plain(2)]);
    let g1 = archetypes.gen();
    assert_ne!(g0, g1);
    archetypes.prune_arch(a);
    assert_ne!(archetypes.gen(), g1);
}

/// `get_disjoint` hands out two distinct live archetypes and nothing else.
#[test]
fn disjoint_access() {
    let mut archetypes = Archetypes::new();
    let a = archetypes.find_create(&vec![plain(2)]);
    let b = archetypes.find_create(&vec![plain(3)]);
    assert!(archetypes.get_disjoint(a, b).is_some());
    assert!(archetypes.get_disjoint(a, a).is_none());
    assert!(archetypes.get_disjoint(a, 10_000).is_none());
}

/// A row moves with its values: setting a new component carries the
/// existing columns into the wider archetype, and removing it brings the
/// row back to the original archetype with the removed value returned.
#[test]
fn row_move_round_trip() {
    let mut archetypes = Archetypes::new();
    let base = archetypes.find_create(&vec![plain(2)]);
    let slot = archetypes.get_mut(base).push(900, 1);
    archetypes
        .get_mut(base)
        .write_value(0, slot, vec![9, 9, 9, 9], 1);
    let ((wider, wslot), old, moved) =
        archetypes.set_component(base, slot, plain(3), vec![5, 6, 7, 8], 2);
    assert_ne!(wider, base);
    assert_eq!(wslot, 0);
    assert_eq!(old, None);
    assert_eq!(moved, None);
    assert_eq!(archetypes.get(base).len(), 0);
    let warch = archetypes.get(wider);
    assert_eq!(warch.len(), 1);
    assert_eq!(warch.entity(0), 900);
    assert_eq!(warch.cell(0).storage[0], vec![9, 9, 9, 9]);
    assert_eq!(warch.cell(1).storage[0], vec![5, 6, 7, 8]);
    // overwriting in place returns the previous value
    let ((same, sslot), old2, _) =
        archetypes.set_component(wider, 0, plain(3), vec![1, 1, 1, 1], 3);
    assert_eq!((same, sslot), (wider, 0));
    assert_eq!(old2, Some(vec![5, 6, 7, 8]));
    // removing the component returns to the original archetype by id
    let ((back, bslot), removed, moved2) = archetypes
        .remove_component(wider, 0, &ComponentKey::new(3, None), 900, 4)
        .unwrap();
    assert_eq!(back, base);
    assert_eq!(bslot, 0);
    assert_eq!(removed, vec![1, 1, 1, 1]);
    assert_eq!(moved2, None);
    assert_eq!(archetypes.get(base).cell(0).storage[0], vec![9, 9, 9, 9]);
    // a missing key is reported
    assert!(archetypes
        .remove_component(base, 0, &ComponentKey::new(3, None), 900, 5)
        .is_err());
}
