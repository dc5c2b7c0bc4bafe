use bevy_pf_vector::keyed::KeyedStore;

#[test]
fn values_are_found_by_key_and_keys_keep_their_order() {
    let mut store: KeyedStore<&'static str> = KeyedStore::new();
    assert_eq!(store.len(), 0);
    assert!(!store.contains(7));
    store.insert(7, "seven");
    store.insert(3, "three");
    store.insert(u64::MAX, "last");
    store.insert(7, "again");
    assert_eq!(store.len(), 3);
    assert_eq!(store.get(7), Some(&"again"));
    assert_eq!(store.get(3), Some(&"three"));
    assert_eq!(store.get(4), None);
    assert_eq!((store.key_at(0), store.key_at(1), store.key_at(2)), (7, 3, u64::MAX));
    store.clear();
    assert_eq!(store.len(), 0);
    assert!(!store.contains(7));
}
