use nuke_server::database::Database;
use nuke_server::entry::{PartitionOperationError, SnapshotError};
use nuke_server::hash::key_hasher;

/// Restores `fresh` from the snapshot texts of `snaps`, partition by
/// partition, as the startup path does after reading the files back.
fn restore(fresh: &mut Database, snaps: &[String]) {
    for (i, snap) in snaps.iter().enumerate() {
        fresh.load_partition(i, snap.as_str()).unwrap();
    }
}

#[test]
fn snapshot_round_trip_restores_everything() {
    let mut database = Database::new(5, "store".to_string());
    for i in 0..40 {
        database.push(format!("key_{}", i), vec![i as u8, 2 * i as u8]).unwrap();
    }
    // tombstone a few keys; the tombstones must survive the round trip
    database.pop("key_3".to_string()).unwrap();
    database.pop("key_17".to_string()).unwrap();
    let snaps = database.persist();
    assert_eq!(snaps.len(), 5);

    let mut fresh = Database::new(5, "store".to_string());
    restore(&mut fresh, &snaps);
    assert_eq!(fresh.count_entries(), 40);
    for i in 0..40 {
        let key = format!("key_{}", i);
        if i == 3 || i == 17 {
            match fresh.read(key) {
                Err(PartitionOperationError::ReadError) => {}
                _ => panic!("tombstone was not restored"),
            }
        } else {
            let item = fresh.read(key.clone()).unwrap();
            assert_eq!(item.value, vec![i as u8, 2 * i as u8]);
            assert_eq!(item.key, key);
            assert!(!item.deleted);
        }
    }
}

#[test]
fn snapshot_round_trip_with_awkward_keys() {
    let mut database = Database::new(2, "store".to_string());
    database.push("plain".to_string(), vec![0]).unwrap();
    database.push("with \"quotes\"".to_string(), vec![1]).unwrap();
    database.push("back\\slash".to_string(), vec![2]).unwrap();
    database.push("uni\u{00e9}code".to_string(), vec![3]).unwrap();
    let snaps = database.persist();

    let mut fresh = Database::new(2, "store".to_string());
    restore(&mut fresh, &snaps);
    assert_eq!(fresh.count_entries(), 4);
    assert_eq!(fresh.read("with \"quotes\"".to_string()).unwrap().value, vec![1]);
    assert_eq!(fresh.read("back\\slash".to_string()).unwrap().value, vec![2]);
    assert_eq!(fresh.read("uni\u{00e9}code".to_string()).unwrap().value, vec![3]);
}

#[test]
fn snapshot_text_is_exact() {
    let mut database = Database::new(3, "store".to_string());
    database.push("k".to_string(), vec![7, 200]).unwrap();
    let h = key_hasher(&"k".to_string());
    let idx = (h % 3) as usize;
    let snaps = database.persist();
    let expected = format!(
        "{{\"k\":{{\"key\":\"k\",\"hashed_key\":{},\"value\":[7,200],\"deleted\":false}}}}",
        h
    );
    assert_eq!(snaps[idx], expected);
    for (i, snap) in snaps.iter().enumerate() {
        if i != idx {
            assert_eq!(snap, "{}");
        }
    }
}

#[test]
fn corrupt_snapshot_is_rejected() {
    let mut database = Database::new(2, "store".to_string());
    match database.load_partition(0, "not json at all") {
        Err(SnapshotError::Corrupt) => {}
        _ => panic!("expected a corrupt snapshot to be rejected"),
    }
    // truncated object
    match database.load_partition(0, "{\"k\":{\"key\":\"k\"") {
        Err(SnapshotError::Corrupt) => {}
        _ => panic!("expected a corrupt snapshot to be rejected"),
    }
    assert_eq!(database.count_entries(), 0);
}

#[test]
fn snapshot_with_wrong_fingerprint_is_rejected() {
    let mut database = Database::new(2, "store".to_string());
    let text = "{\"k\":{\"key\":\"k\",\"hashed_key\":1,\"value\":[7],\"deleted\":false}}";
    match database.load_partition(0, text) {
        Err(SnapshotError::Corrupt) => {}
        _ => panic!("a fingerprint that is not the hash of its key must be rejected"),
    }
}

#[test]
fn snapshot_with_repeated_key_is_rejected() {
    let mut database = Database::new(2, "store".to_string());
    let h = key_hasher(&"k".to_string());
    let one = format!("\"k\":{{\"key\":\"k\",\"hashed_key\":{},\"value\":[1],\"deleted\":false}}", h);
    let text = format!("{{{},{}}}", one, one);
    match database.load_partition(0, text.as_str()) {
        Err(SnapshotError::Corrupt) => {}
        _ => panic!("a snapshot with a repeated key must be rejected"),
    }
}

#[test]
fn load_marks_partition_persisted() {
    let mut database = Database::new(1, "store".to_string());
    assert!(!database.partitions[0].is_persisted());
    database.load_partition(0, "{}").unwrap();
    assert!(database.partitions[0].is_persisted());
}

#[test]
fn partition_paths_follow_base_and_index() {
    let database = Database::new(3, "base/dir".to_string());
    let paths = database.partition_paths();
    assert_eq!(
        paths,
        vec![
            "base/dir/partition_0".to_string(),
            "base/dir/partition_1".to_string(),
            "base/dir/partition_2".to_string(),
        ]
    );
}
