use nuke_server::database::Database;
use nuke_server::entry::PartitionOperationError;

#[test]
fn test_new_database() {
    let database = Database::new(10, "test".to_string());
    // a fresh database has its full partition set and no entries until a
    // snapshot is loaded
    assert_eq!(database.partitions.len(), 10);
    assert_eq!(database.count_entries(), 0);
}

#[test]
fn test_count_entries() {
    let mut database = Database::new(10, "test".to_string());
    database.push("key".to_string(), vec![1, 2, 3]).unwrap();
    assert_eq!(database.count_entries(), 1);
}

#[test]
fn test_push_1000_entries() {
    let mut database = Database::new(10, "test".to_string());
    for i in 0..1000 {
        database.push(format!("key_{}", i), vec![1, 2, 3]).unwrap();
    }
    assert_eq!(database.count_entries(), 1000);
}

#[test]
fn thousand_keys_then_clear() {
    let mut database = Database::new(10, "data".to_string());
    for i in 0..1000 {
        database.push(format!("k{}", i), vec![i as u8]).unwrap();
    }
    assert_eq!(database.count_entries(), 1000);
    database.delete_all();
    assert_eq!(database.count_entries(), 0);
}

#[test]
fn read_is_idempotent() {
    let mut database = Database::new(4, "data".to_string());
    database.push("stable".to_string(), vec![9, 9]).unwrap();
    let first = database.read("stable".to_string()).unwrap().value.clone();
    let second = database.read("stable".to_string()).unwrap().value.clone();
    assert_eq!(first, second);
    assert_eq!(first, vec![9, 9]);
}

#[test]
fn delete_semantics() {
    let mut database = Database::new(5, "data".to_string());
    // deleting a key with no entry fails with CacheItemNotFound
    match database.pop("ghost".to_string()) {
        Err(PartitionOperationError::CacheItemNotFound) => {}
        _ => panic!("expected CacheItemNotFound for an absent key"),
    }
    database.push("a".to_string(), vec![1, 2, 3]).unwrap();
    // deleting a live key succeeds exactly once
    let popped = database.pop("a".to_string()).unwrap();
    assert!(popped.deleted);
    assert_eq!(popped.value, vec![1, 2, 3]);
    // the key then reads as ReadError, not CacheItemNotFound
    match database.read("a".to_string()) {
        Err(PartitionOperationError::ReadError) => {}
        _ => panic!("expected ReadError for a tombstoned key"),
    }
    // a second delete is rejected
    match database.pop("a".to_string()) {
        Err(PartitionOperationError::CacheItemNotFound) => {}
        _ => panic!("expected CacheItemNotFound for an already tombstoned key"),
    }
}

#[test]
fn read_of_never_inserted_key() {
    let mut database = Database::new(10, "data".to_string());
    database.push("a".to_string(), vec![1, 2, 3]).unwrap();
    database.pop("a".to_string()).unwrap();
    match database.read("a".to_string()) {
        Err(PartitionOperationError::ReadError) => {}
        _ => panic!("expected ReadError"),
    }
    match database.read("z".to_string()) {
        Err(PartitionOperationError::CacheItemNotFound) => {}
        _ => panic!("expected CacheItemNotFound"),
    }
}

#[test]
fn insert_overwrites_tombstone() {
    let mut database = Database::new(3, "data".to_string());
    database.push("k".to_string(), vec![1]).unwrap();
    let count_after_insert = database.count_entries();
    database.pop("k".to_string()).unwrap();
    assert_eq!(database.count_entries(), count_after_insert);
    // inserting a tombstoned key makes it live again with the new value
    database.push("k".to_string(), vec![2, 3]).unwrap();
    assert_eq!(database.count_entries(), count_after_insert);
    let item = database.read("k".to_string()).unwrap();
    assert!(!item.deleted);
    assert_eq!(item.value, vec![2, 3]);
}

#[test]
fn entry_carries_key_fingerprint() {
    let mut database = Database::new(7, "data".to_string());
    let item = database.push("fp".to_string(), vec![5]).unwrap();
    let hashed = item.hashed_key;
    assert_eq!(hashed, nuke_server::hash::key_hasher(&"fp".to_string()));
}

#[test]
fn routing_is_stable_between_writes_and_reads() {
    let mut database = Database::new(9, "data".to_string());
    for i in 0..50 {
        database.push(format!("key-{}", i), vec![i as u8]).unwrap();
    }
    for i in 0..50 {
        let item = database.read(format!("key-{}", i)).unwrap();
        assert_eq!(item.value, vec![i as u8]);
    }
}

#[test]
fn keys_lists_live_and_tombstoned() {
    let mut database = Database::new(4, "data".to_string());
    database.push("one".to_string(), vec![1]).unwrap();
    database.push("two".to_string(), vec![2]).unwrap();
    database.pop("two".to_string()).unwrap();
    let mut keys = database.keys();
    keys.sort();
    assert_eq!(keys, vec!["one".to_string(), "two".to_string()]);
}
