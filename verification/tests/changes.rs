//! Change list behaviour: merging, adjacency, removal and migration.

use flax::changes::{Change, ChangeKind, Changes};
use flax::component::{ComponentDesc, ComponentKey};
use flax::slice::Slice;
use itertools::Itertools;

fn desc() -> ComponentDesc {
    ComponentDesc::new(ComponentKey::new(1, None), 4, false)
}

#[test]
fn changes() {
    let mut changes = Changes::new(desc());

    changes.set(Change::modified(Slice::new(0, 5), 1));

    changes.set(Change::modified(Slice::new(70, 92), 2));

    assert_eq!(
        changes.iter().iter().copied().collect_vec(),
        [
            Change::modified(Slice::new(0, 5), 1),
            Change::modified(Slice::new(70, 92), 2)
        ]
    );

    changes.set(Change::modified(Slice::new(3, 5), 3));

    assert_eq!(
        changes.iter().iter().copied().collect_vec(),
        [
            Change::modified(Slice::new(0, 3), 1),
            Change::modified(Slice::new(3, 5), 3),
            Change::modified(Slice::new(70, 92), 2),
        ]
    );

    // Extend previous change
    changes.set(Change::modified(Slice::new(4, 14), 3));

    assert_eq!(
        changes.iter().iter().copied().collect_vec(),
        [
            Change::modified(Slice::new(0, 3), 1),
            Change::modified(Slice::new(3, 14), 3),
            Change::modified(Slice::new(70, 92), 2),
        ]
    );

    // Overwrite almost all
    changes.set(Change::modified(Slice::new(0, 89), 4));

    assert_eq!(
        changes.iter().iter().copied().collect_vec(),
        [
            Change::modified(Slice::new(0, 89), 4),
            Change::modified(Slice::new(89, 92), 2),
        ]
    );
}

#[test]
fn changes_small() {
    let mut changes = Changes::new(desc());

    for i in 0..239usize {
        let perm = (i * (i + 2)) % 300;
        changes.set(Change::modified(Slice::single(perm), i as u32));
    }

    changes.set(Change::modified(Slice::new(70, 249), 300));
    changes.set(Change::modified(Slice::new(0, 89), 301));
    changes.set(Change::modified(Slice::new(209, 300), 302));

    println!("Changes: {changes:#?}");
}

#[test]
fn adjacent() {
    let mut changes = Changes::new(desc());

    changes.set(Change::modified(Slice::new(0, 63), 1));
    changes.set(Change::modified(Slice::new(63, 182), 1));

    assert_eq!(
        changes.iter().iter().copied().collect_vec(),
        [Change::modified(Slice::new(0, 182), 1)]
    );
}

#[test]
fn migrate() {
    let mut changes_1 = Changes::new(desc());
    let mut changes_2 = Changes::new(desc());

    changes_1.set(Change::modified(Slice::new(20, 48), 1));
    changes_1.set(Change::modified(Slice::new(32, 98), 2));

    assert_eq!(
        changes_1.iter().iter().copied().collect_vec(),
        [
            Change::modified(Slice::new(20, 32), 1),
            Change::modified(Slice::new(32, 98), 2)
        ]
    );

    changes_1.migrate_to(&mut changes_2, 25, 67);

    assert_eq!(
        changes_1.iter().iter().copied().collect_vec(),
        [
            Change::modified(Slice::new(20, 25), 1),
            Change::modified(Slice::new(26, 32), 1),
            Change::modified(Slice::new(32, 98), 2)
        ]
    );

    assert_eq!(
        changes_2.iter().iter().copied().collect_vec(),
        [Change::modified(Slice::single(67), 1)]
    );
}

/// Per kind, the stored slices stay strictly ascending, disjoint and
/// non-empty over a mixed sequence of operations.
fn assert_kind_sorted(changes: &Changes) {
    for kind in [ChangeKind::Modified, ChangeKind::Inserted, ChangeKind::Removed] {
        let slices = changes
            .iter()
            .iter()
            .filter(|c| c.kind == kind)
            .map(|c| c.slice)
            .collect_vec();
        for w in slices.windows(2) {
            assert!(w[0].end <= w[1].start, "out of order: {w:?}");
        }
        for s in &slices {
            assert!(s.start < s.end, "empty slice stored: {s:?}");
        }
    }
}

#[test]
fn invariant_over_operations() {
    let mut changes = Changes::new(desc());
    changes.set(Change::modified(Slice::new(0, 10), 1));
    assert_kind_sorted(&changes);
    changes.set(Change::inserted(Slice::new(0, 10), 1));
    assert_kind_sorted(&changes);
    changes.set(Change::modified(Slice::new(4, 12), 2));
    assert_kind_sorted(&changes);
    changes.set(Change::removed(Slice::new(3, 5), 3));
    assert_kind_sorted(&changes);
    let removed = changes.remove(6);
    assert_kind_sorted(&changes);
    assert!(removed.iter().all(|c| c.slice == Slice::single(6)));
    let mut other = Changes::new(desc());
    changes.migrate_to(&mut other, 4, 0);
    assert_kind_sorted(&changes);
    assert_kind_sorted(&other);
    let out = changes.swap_out(2, 9);
    assert_kind_sorted(&changes);
    assert!(out.iter().all(|c| c.slice == Slice::single(2)));
}

/// After `set(c)`, the slots of `c` are covered by records of `c`'s kind.
#[test]
fn set_covers_slots() {
    let mut changes = Changes::new(desc());
    changes.set(Change::modified(Slice::new(5, 9), 1));
    changes.set(Change::modified(Slice::new(2, 11), 4));
    for slot in 2..11 {
        let covered = changes
            .iter()
            .iter()
            .any(|c| c.kind == ChangeKind::Modified && c.slice.contains(slot));
        assert!(covered, "slot {slot} lost");
    }
}

/// `migrate_to` carries every record of the source slot over to the
/// destination slot with tick and kind intact, and leaves no record covering
/// the source slot.
#[test]
fn migrate_moves_all_records() {
    let mut src = Changes::new(desc());
    src.set(Change::modified(Slice::new(0, 4), 1));
    src.set(Change::inserted(Slice::new(2, 3), 2));
    src.set(Change::removed(Slice::new(1, 3), 3));

    let mut dst = Changes::new(desc());
    src.migrate_to(&mut dst, 2, 7);

    for c in src.iter() {
        assert!(!c.slice.contains(2));
    }
    for (tick, kind) in [
        (1, ChangeKind::Modified),
        (2, ChangeKind::Inserted),
        (3, ChangeKind::Removed),
    ] {
        let covered = dst
            .iter()
            .iter()
            .any(|c| c.kind == kind && c.tick == tick && c.slice.contains(7));
        assert!(covered, "{kind:?} at tick {tick} not migrated");
    }
}

#[test]
fn change_kind_predicates() {
    assert!(ChangeKind::Removed.is_removed());
    assert!(ChangeKind::Inserted.is_inserted());
    assert!(ChangeKind::Modified.is_modified());
    assert!(ChangeKind::Modified.is_modified_or_inserted());
    assert!(ChangeKind::Inserted.is_modified_or_inserted());
    assert!(!ChangeKind::Removed.is_modified_or_inserted());
}

#[test]
fn accessors() {
    let mut changes = Changes::new(desc());
    assert!(changes.is_empty());
    assert_eq!(changes.len(), 0);
    assert_eq!(changes.get(0), None);
    changes.set(Change::modified(Slice::new(1, 3), 7));
    assert!(!changes.is_empty());
    assert_eq!(changes.len(), 1);
    assert_eq!(changes.get(0), Some(Change::modified(Slice::new(1, 3), 7)));
    assert_eq!(changes.info(), desc());
}
