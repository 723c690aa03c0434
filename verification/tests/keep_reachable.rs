use spore_vm::keep_reachable::{GcKind, KeepReachableSet};

#[test]
fn insert_counts_references() {
    let mut set = KeepReachableSet::new();
    set.insert(GcKind::String, 4);
    set.insert(GcKind::String, 4);
    set.insert(GcKind::List, 4);
    assert_eq!(set.count(GcKind::String, 4), 2);
    assert_eq!(set.count(GcKind::List, 4), 1);
    assert_eq!(set.count(GcKind::Custom, 4), 0);
}

#[test]
fn remove_undoes_insert() {
    let mut set = KeepReachableSet::new();
    set.insert(GcKind::ByteCode, 1);
    set.insert(GcKind::ByteCode, 2);
    set.insert(GcKind::ByteCode, 2);
    set.remove(GcKind::ByteCode, 2);
    assert_eq!(set.count(GcKind::ByteCode, 2), 1);
    set.remove(GcKind::ByteCode, 2);
    assert_eq!(set.count(GcKind::ByteCode, 2), 0);
    assert_eq!(set.count(GcKind::ByteCode, 1), 1);
}

#[test]
fn removing_absent_value_changes_nothing() {
    let mut set = KeepReachableSet::new();
    set.insert(GcKind::MutableBox, 9);
    set.remove(GcKind::MutableBox, 3);
    set.remove(GcKind::String, 9);
    assert_eq!(set.count(GcKind::MutableBox, 9), 1);
    assert_eq!(set.iter(), vec![(GcKind::MutableBox, 9)]);
}

#[test]
fn iter_lists_each_held_value_once() {
    let mut set = KeepReachableSet::new();
    set.insert(GcKind::Custom, 7);
    set.insert(GcKind::String, 1);
    set.insert(GcKind::String, 1);
    set.insert(GcKind::List, 2);
    assert_eq!(
        set.iter(),
        vec![(GcKind::String, 1), (GcKind::List, 2), (GcKind::Custom, 7)]
    );
}
