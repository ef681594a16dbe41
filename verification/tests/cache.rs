use copernica::cache::ContentStore;

#[test]
fn a_store_with_room_keeps_every_key() {
    let mut store = ContentStore::new(3);
    assert_eq!(store.len(), 0);
    assert_eq!(store.put(vec![1]), None);
    assert_eq!(store.put(vec![2]), None);
    assert_eq!(store.put(vec![3]), None);
    assert_eq!(store.len(), 3);
    assert!(store.contains(&vec![1]));
    assert!(store.contains(&vec![3]));
    assert!(!store.contains(&vec![4]));
}

#[test]
fn a_full_store_lets_the_oldest_key_go() {
    let mut store = ContentStore::new(2);
    assert_eq!(store.put(vec![1]), None);
    assert_eq!(store.put(vec![2]), None);
    assert_eq!(store.put(vec![3]), Some(vec![1]));
    assert_eq!(store.put(vec![4]), Some(vec![2]));
    assert_eq!(store.len(), 2);
    assert!(!store.contains(&vec![1]));
    assert!(store.contains(&vec![3]));
    assert!(store.contains(&vec![4]));
}

#[test]
fn putting_a_key_again_changes_nothing() {
    let mut store = ContentStore::new(2);
    assert_eq!(store.put(vec![1]), None);
    assert_eq!(store.put(vec![2]), None);
    assert_eq!(store.put(vec![1]), None);
    assert_eq!(store.len(), 2);
    assert_eq!(store.put(vec![3]), Some(vec![1]));
    assert!(store.contains(&vec![2]));
}

#[test]
fn a_store_without_room_keeps_nothing() {
    let mut store = ContentStore::new(0);
    assert_eq!(store.put(vec![1]), Some(vec![1]));
    assert_eq!(store.len(), 0);
    assert!(!store.contains(&vec![1]));
}

#[test]
fn keys_are_told_apart_by_their_bytes() {
    let mut store = ContentStore::new(4);
    store.put(vec![]);
    store.put(vec![0]);
    store.put(vec![0, 0]);
    assert!(store.contains(&vec![]));
    assert!(store.contains(&vec![0, 0]));
    assert!(!store.contains(&vec![0, 0, 0]));
    assert!(!store.contains(&vec![1]));
}
