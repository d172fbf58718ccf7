use dregheap::store::{make_store, make_store_with_max_cache_weight, DregStore, Store};

fn weight(key: &str, value: &[u8]) -> usize {
    DregStore::entry_weight(key, value).unwrap()
}

#[test]
fn entry_weight_counts_key_bytes_value_bytes_and_overhead() {
    assert_eq!(DregStore::entry_weight("ab", &[1, 2, 3]).unwrap(), 69);
    assert_eq!(DregStore::entry_weight("", &[]).unwrap(), 64);
    // "é" takes two bytes in UTF-8
    assert_eq!(DregStore::entry_weight("é", &[]).unwrap(), 66);
}

#[test]
fn read_after_store_returns_stored_value() {
    let mut store = make_store();
    store.set("k".to_string(), Some(vec![7, 8, 9])).unwrap();
    assert_eq!(store.get("k").unwrap(), vec![7, 8, 9]);
    store.set("k".to_string(), Some(vec![1])).unwrap();
    assert_eq!(store.get("k").unwrap(), vec![1]);
}

#[test]
fn read_after_remove_finds_nothing() {
    let mut store = make_store();
    store.set("k".to_string(), Some(vec![1])).unwrap();
    store.set("k".to_string(), None).unwrap();
    let err = store.get("k").unwrap_err();
    assert_eq!(err.to_string(), "Value not found");
}

#[test]
fn removing_a_missing_key_succeeds() {
    let mut store = make_store();
    assert!(store.set("absent".to_string(), None).is_ok());
    assert!(store.get("absent").is_err());
}

#[test]
fn remove_keeps_other_keys() {
    let mut store = make_store();
    store.set("a".to_string(), Some(vec![1])).unwrap();
    store.set("b".to_string(), Some(vec![2])).unwrap();
    store.set("a".to_string(), None).unwrap();
    assert_eq!(store.get("b").unwrap(), vec![2]);
}

#[test]
fn unbounded_store_never_evicts() {
    let mut store = make_store_with_max_cache_weight(None);
    for i in 0..200u32 {
        store.set(format!("key{}", i), Some(vec![0; 100])).unwrap();
    }
    for i in 0..200u32 {
        assert_eq!(store.get(&format!("key{}", i)).unwrap(), vec![0; 100]);
    }
}

#[test]
fn eviction_removes_only_as_many_as_needed() {
    let w = weight("a", b"1");
    // room for exactly three entries of the same weight
    let mut store = DregStore::new(Some(3 * w));
    store.set("a".to_string(), Some(b"1".to_vec())).unwrap();
    store.set("b".to_string(), Some(b"2".to_vec())).unwrap();
    store.set("c".to_string(), Some(b"3".to_vec())).unwrap();
    store.set("d".to_string(), Some(b"4".to_vec())).unwrap();
    assert!(store.get("a").is_err());
    assert_eq!(store.get("b").unwrap(), b"2");
    assert_eq!(store.get("c").unwrap(), b"3");
    assert_eq!(store.get("d").unwrap(), b"4");
}

#[test]
fn large_entry_evicts_several_least_recent() {
    let w = weight("a", b"1");
    let mut store = DregStore::new(Some(3 * w));
    store.set("a".to_string(), Some(b"1".to_vec())).unwrap();
    store.set("b".to_string(), Some(b"2".to_vec())).unwrap();
    store.set("c".to_string(), Some(b"3".to_vec())).unwrap();
    // an entry weighing two small ones pushes out the two least recent
    let big = vec![0u8; w - 64 - 1 + w];
    store.set("e".to_string(), Some(big.clone())).unwrap();
    assert!(store.get("a").is_err());
    assert!(store.get("b").is_err());
    assert_eq!(store.get("c").unwrap(), b"3");
    assert_eq!(store.get("e").unwrap(), big);
}

#[test]
fn entry_of_exactly_max_weight_fits_alone() {
    let w = weight("a", b"1");
    let mut store = DregStore::new(Some(w));
    store.set("a".to_string(), Some(b"1".to_vec())).unwrap();
    store.set("b".to_string(), Some(b"2".to_vec())).unwrap();
    assert!(store.get("a").is_err());
    assert_eq!(store.get("b").unwrap(), b"2");
}

#[test]
fn too_large_entry_reports_weights_and_changes_nothing() {
    let mut store = DregStore::new(Some(65));
    store.set("".to_string(), Some(b"x".to_vec())).unwrap();
    let err = store
        .set("k".to_string(), Some(b"0123456789ab".to_vec()))
        .unwrap_err();
    assert!(matches!(err, dregheap::errors::Error::CacheEntryTooLarge(_)));
    assert_eq!(
        err.to_string(),
        "Cache entry weight 77 exceeds maximum cache weight 65"
    );
    assert_eq!(store.get("").unwrap(), b"x");
}

#[test]
fn read_keeps_contents_and_only_reorders() {
    let w = weight("a", b"1");
    let mut store = DregStore::new(Some(2 * w));
    store.set("a".to_string(), Some(b"1".to_vec())).unwrap();
    store.set("b".to_string(), Some(b"2".to_vec())).unwrap();
    assert_eq!(store.get("a").unwrap(), b"1");
    assert_eq!(store.get("b").unwrap(), b"2");
    assert_eq!(store.get("a").unwrap(), b"1");
    // "b" is now the least recently used
    store.set("c".to_string(), Some(b"3".to_vec())).unwrap();
    assert!(store.get("b").is_err());
    assert_eq!(store.get("a").unwrap(), b"1");
}

#[test]
fn removed_slot_is_reused_by_next_new_key() {
    let mut store = make_store();
    store.set("a".to_string(), Some(vec![1])).unwrap();
    store.set("b".to_string(), Some(vec![2])).unwrap();
    let b_slot = store.node_id_of("b").unwrap();
    store.set("b".to_string(), None).unwrap();
    assert_eq!(store.node_id_of("b"), None);
    store.set("c".to_string(), Some(vec![3])).unwrap();
    assert_eq!(store.node_id_of("c"), Some(b_slot));
    assert_ne!(store.node_id_of("a"), Some(b_slot));
}

#[test]
fn evicted_slot_is_reused_by_the_new_entry() {
    let w = weight("a", b"1");
    let mut store = DregStore::new(Some(w));
    store.set("a".to_string(), Some(b"1".to_vec())).unwrap();
    let a_slot = store.node_id_of("a").unwrap();
    store.set("b".to_string(), Some(b"2".to_vec())).unwrap();
    assert_eq!(store.node_id_of("b"), Some(a_slot));
}

#[test]
fn freed_slots_are_reused_last_freed_first_without_growing() {
    let mut store = make_store();
    store.set("a".to_string(), Some(vec![1])).unwrap();
    store.set("b".to_string(), Some(vec![2])).unwrap();
    let a_slot = store.node_id_of("a").unwrap();
    let b_slot = store.node_id_of("b").unwrap();
    store.set("a".to_string(), None).unwrap();
    store.set("b".to_string(), None).unwrap();
    store.set("c".to_string(), Some(vec![3])).unwrap();
    store.set("d".to_string(), Some(vec![4])).unwrap();
    assert_eq!(store.node_id_of("c"), Some(b_slot));
    assert_eq!(store.node_id_of("d"), Some(a_slot));
    // both slots are taken again, so the next store needs a new one
    store.set("e".to_string(), Some(vec![5])).unwrap();
    let e_slot = store.node_id_of("e").unwrap();
    assert!(e_slot != a_slot && e_slot != b_slot);
    store.assert_invariant();
}

#[test]
fn value_survives_other_operations_in_unbounded_store() {
    let mut store = make_store();
    store.set("keep".to_string(), Some(vec![42])).unwrap();
    for i in 0..50u32 {
        let k = format!("other{}", i);
        store.set(k.clone(), Some(vec![i as u8; 10])).unwrap();
        let _ = store.get(&k);
        if i % 3 == 0 {
            store.set(k, None).unwrap();
        }
    }
    assert_eq!(store.get("keep").unwrap(), vec![42]);
}

#[test]
fn refused_store_leaves_slots_alone() {
    let mut store = DregStore::new(Some(70));
    store.set("a".to_string(), Some(vec![1])).unwrap();
    store.set("a".to_string(), None).unwrap();
    let freed = 0;
    assert!(store.set("big".to_string(), Some(vec![0; 100])).is_err());
    store.set("b".to_string(), Some(vec![2])).unwrap();
    // the slot freed before the refusal is still the one handed out
    assert_eq!(store.node_id_of("b"), Some(freed));
    store.assert_invariant();
}
