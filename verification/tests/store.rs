use dregheap::store::{DregStore, Store};

fn value_weight(key: &str, value: &[u8]) -> usize {
    DregStore::entry_weight(key, value).expect("test entry weight should fit")
}

#[test]
fn rejects_single_write_that_exceeds_max_cache_weight() {
    let mut store = DregStore::new(Some(value_weight("a", b"tiny")));

    let err = store
        .set("oversized".to_string(), Some(b"this will not fit".to_vec()))
        .expect_err("oversized write should be rejected");

    assert!(err.to_string().contains("exceeds maximum cache weight"));
    assert!(store.get("oversized").is_err());
}

#[test]
fn evicts_least_recently_used_entry_on_write() {
    let first_weight = value_weight("first", b"1");
    let second_weight = value_weight("second", b"2");
    let third_weight = value_weight("third", b"3");
    let mut store = DregStore::new(Some(first_weight + second_weight + third_weight - 1));

    store.set("first".to_string(), Some(b"1".to_vec())).unwrap();
    store
        .set("second".to_string(), Some(b"2".to_vec()))
        .unwrap();
    store.set("third".to_string(), Some(b"3".to_vec())).unwrap();

    assert!(store.get("first").is_err());
    assert_eq!(store.get("second").unwrap(), b"2");
    assert_eq!(store.get("third").unwrap(), b"3");
}

#[test]
fn get_refreshes_lru_recency() {
    let first_weight = value_weight("first", b"1");
    let second_weight = value_weight("second", b"2");
    let third_weight = value_weight("third", b"3");
    let mut store = DregStore::new(Some(first_weight + second_weight + third_weight - 1));

    store.set("first".to_string(), Some(b"1".to_vec())).unwrap();
    store
        .set("second".to_string(), Some(b"2".to_vec()))
        .unwrap();
    assert_eq!(store.get("first").unwrap(), b"1");
    store.set("third".to_string(), Some(b"3".to_vec())).unwrap();

    assert_eq!(store.get("first").unwrap(), b"1");
    assert!(store.get("second").is_err());
    assert_eq!(store.get("third").unwrap(), b"3");
}

#[test]
fn delete_releases_cache_weight() {
    let first_weight = value_weight("first", b"1");
    let second_weight = value_weight("second", b"2");
    let mut store = DregStore::new(Some(first_weight + second_weight));

    store.set("first".to_string(), Some(b"1".to_vec())).unwrap();
    store
        .set("second".to_string(), Some(b"2".to_vec()))
        .unwrap();
    store.set("first".to_string(), None).unwrap();
    store.set("third".to_string(), Some(b"3".to_vec())).unwrap();

    assert!(store.get("first").is_err());
    assert_eq!(store.get("second").unwrap(), b"2");
    assert_eq!(store.get("third").unwrap(), b"3");
}

#[test]
fn updating_existing_key_moves_it_to_most_recent_position() {
    let first_weight = value_weight("first", b"1");
    let second_weight = value_weight("second", b"2");
    let third_weight = value_weight("third", b"3");
    let mut store = DregStore::new(Some(first_weight + second_weight + third_weight - 1));

    store.set("first".to_string(), Some(b"1".to_vec())).unwrap();
    store
        .set("second".to_string(), Some(b"2".to_vec()))
        .unwrap();
    store
        .set("first".to_string(), Some(b"updated".to_vec()))
        .unwrap();
    store.set("third".to_string(), Some(b"3".to_vec())).unwrap();

    assert_eq!(store.get("first").unwrap(), b"updated");
    assert!(store.get("second").is_err());
    assert_eq!(store.get("third").unwrap(), b"3");
}

#[test]
fn reuses_freed_node_ids() {
    let mut store = DregStore::new(None);

    store.set("first".to_string(), Some(b"1".to_vec())).unwrap();
    let first_id = store
        .node_id_of("first")
        .expect("first entry should have a node id");

    store.set("first".to_string(), None).unwrap();
    store
        .set("second".to_string(), Some(b"2".to_vec()))
        .unwrap();

    let second_id = store
        .node_id_of("second")
        .expect("second entry should have a node id");
    assert_eq!(second_id, first_id);
}
