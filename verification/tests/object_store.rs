use spore_vm::object_store::{Color, ObjectStore, ValId};

#[test]
fn mod_hacks_for_code_coverage() {
    // This is optimized away due to being a Copy type.
    let _ = ValId {
        vm_id: 0,
        obj_id: 0,
        idx: 0,
        _marker: std::marker::PhantomData::<()>,
    }
    .clone();
}

#[test]
fn id_hacks_for_code_coverage() {
    assert_ne!(format!("{:?}", ValId::<()>::default()), "");
}

#[test]
fn val_store_hacks_for_code_coverage() {
    // This is optimized away due to being a Copy type.
    let _ = ValId::<()>::new(0u32).clone();
}

#[test]
fn other_color_swaps_and_returns() {
    assert_eq!(Color::Red.other(), Color::Blue);
    assert_eq!(Color::Blue.other(), Color::Red);
    assert_eq!(Color::Red.other().other(), Color::Red);
    assert_eq!(Color::default(), Color::Red);
}

#[test]
fn inserted_object_can_be_read_back() {
    let mut store: ObjectStore<String> = ObjectStore::default();
    let a = store.insert("a".to_string(), Color::Red);
    let b = store.insert("b".to_string(), Color::Blue);
    assert_eq!(store.get(a).map(String::as_str), Some("a"));
    assert_eq!(store.get(b).map(String::as_str), Some("b"));
    assert_eq!(a.as_usize(), 0);
    assert_eq!(b.as_usize(), 1);
    assert!(store.get(ValId::new(7)).is_none());
}

#[test]
fn get_mut_changes_the_object() {
    let mut store: ObjectStore<i64> = ObjectStore::new();
    let id = store.insert(1, Color::Red);
    *store.get_mut(id).unwrap() = 42;
    assert_eq!(store.get(id), Some(&42));
    assert!(store.get_mut(ValId::new(3)).is_none());
}

#[test]
fn remove_all_with_color_removes_only_that_color() {
    let mut store: ObjectStore<i64> = ObjectStore::new();
    let red = store.insert(1, Color::Red);
    let blue = store.insert(2, Color::Blue);
    let red2 = store.insert(3, Color::Red);
    assert_eq!(store.remove_all_with_color(Color::Red), 2);
    assert!(store.get(red).is_none());
    assert!(store.get(red2).is_none());
    assert_eq!(store.get(blue), Some(&2));
    assert_eq!(store.remove_all_with_color(Color::Red), 0);
}

#[test]
fn removed_slots_are_reused() {
    let mut store: ObjectStore<i64> = ObjectStore::new();
    let _ = store.insert(1, Color::Red);
    let _ = store.insert(2, Color::Blue);
    store.remove_all_with_color(Color::Red);
    let id = store.insert(3, Color::Blue);
    assert_eq!(id.as_usize(), 0);
    assert_eq!(store.get(id), Some(&3));
}

#[test]
fn set_color_recolors_live_objects_only() {
    let mut store: ObjectStore<i64> = ObjectStore::new();
    let id = store.insert(5, Color::Red);
    assert_eq!(store.set_color(id, Color::Blue), Some(&5));
    assert_eq!(store.remove_all_with_color(Color::Red), 0);
    assert_eq!(store.remove_all_with_color(Color::Blue), 1);
    assert_eq!(store.set_color(id, Color::Red), None);
}

#[test]
fn iter_lists_every_live_object() {
    let mut store: ObjectStore<i64> = ObjectStore::new();
    let a = store.insert(10, Color::Red);
    let _ = store.insert(20, Color::Blue);
    let c = store.insert(30, Color::Red);
    store.set_color(a, Color::Blue);
    store.set_color(c, Color::Blue);
    let mut seen: Vec<(usize, i64)> = store.iter().into_iter().map(|(id, v)| (id.as_usize(), *v)).collect();
    seen.sort();
    assert_eq!(seen, vec![(0, 10), (1, 20), (2, 30)]);
    assert!(store.metadata_size() > 0);
}

#[test]
fn ids_are_equal_when_they_name_the_same_slot() {
    let a: ValId<u8> = ValId::new(3);
    let mut b: ValId<u8> = ValId::new(3);
    b.vm_id = 7;
    assert_eq!(a, b);
    assert_ne!(a, ValId::new(4));
}
