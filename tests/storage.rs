use std::collections::{BTreeMap, HashMap};
use world::ComponentStorage;

#[test]
fn dense_storage_grows_and_forgets() {
    let mut s: Vec<Option<i32>> = <Vec<Option<i32>> as ComponentStorage<i32>>::new();
    ComponentStorage::insert(&mut s, 3, 30);
    assert_eq!(s.len(), 4);
    assert_eq!(ComponentStorage::get(&s, 3), Some(&30));
    assert_eq!(ComponentStorage::get(&s, 1), None);
    assert_eq!(ComponentStorage::get(&s, 9), None);
    ComponentStorage::insert(&mut s, 3, 31);
    assert_eq!(ComponentStorage::get(&s, 3), Some(&31));
    ComponentStorage::delete(&mut s, 3);
    ComponentStorage::delete(&mut s, 3);
    ComponentStorage::delete(&mut s, 7);
    assert_eq!(ComponentStorage::get(&s, 3), None);
    assert_eq!(s.len(), 4);
}

#[test]
fn dense_storage_get_mut_writes_through() {
    let mut s: Vec<Option<i32>> = <Vec<Option<i32>> as ComponentStorage<i32>>::new();
    ComponentStorage::insert(&mut s, 0, 1);
    if let Some(v) = ComponentStorage::get_mut(&mut s, 0) {
        *v = 5;
    }
    assert_eq!(ComponentStorage::get(&s, 0), Some(&5));
    assert!(ComponentStorage::get_mut(&mut s, 2).is_none());
}

#[test]
fn hash_storage_get_mut_writes_through() {
    let mut s: HashMap<usize, i32> = <HashMap<usize, i32> as ComponentStorage<i32>>::new();
    ComponentStorage::insert(&mut s, 4, 40);
    match ComponentStorage::get_mut(&mut s, 4) {
        Some(v) => *v += 2,
        None => panic!("entry 4 is held"),
    }
    assert_eq!(ComponentStorage::get(&s, 4), Some(&42));
    assert!(ComponentStorage::get_mut(&mut s, 5).is_none());
    ComponentStorage::delete(&mut s, 4);
    ComponentStorage::delete(&mut s, 4);
    assert_eq!(ComponentStorage::get(&s, 4), None);
}

#[test]
fn sorted_storage_get_mut_writes_through() {
    let mut s: BTreeMap<usize, i32> = <BTreeMap<usize, i32> as ComponentStorage<i32>>::new();
    ComponentStorage::insert(&mut s, 2, 20);
    ComponentStorage::insert(&mut s, 1, 10);
    match ComponentStorage::get_mut(&mut s, 1) {
        Some(v) => *v = 11,
        None => panic!("entry 1 is held"),
    }
    assert_eq!(ComponentStorage::get(&s, 1), Some(&11));
    assert_eq!(ComponentStorage::get(&s, 2), Some(&20));
    assert!(ComponentStorage::get_mut(&mut s, 3).is_none());
    let keys: Vec<usize> = s.keys().copied().collect();
    assert_eq!(keys, vec![1, 2]);
}
