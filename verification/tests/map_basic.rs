use shardmap::table::{ConcurrentMap, MapError};

#[test]
fn test_insert_find_erase() {
    let mut map = ConcurrentMap::new(8).unwrap();

    // Insert
    assert!(map.insert(10, 100));
    assert!(map.insert(20, 200));
    assert!(!map.insert(10, 101)); // Key 10 already exists: value overwritten

    // Find
    assert_eq!(map.find(10), Some(101));
    assert_eq!(map.find(20), Some(200));
    assert_eq!(map.find(30), None); // Key 30 does not exist

    // Erase
    assert!(map.erase(10)); // Erase existing key
    assert!(!map.erase(30)); // Try erasing non-existent key
    assert_eq!(map.find(10), None); // Verify erasure
    assert_eq!(map.find(20), Some(200)); // Verify other key still exists

    // Erase remaining key
    assert!(map.erase(20));
    assert_eq!(map.find(20), None);
}

#[test]
fn scenario_eight_shards() {
    let mut m = ConcurrentMap::new(8).unwrap();
    assert!(m.insert(10, 100));
    assert!(m.insert(20, 200));
    assert!(!m.insert(10, 101));
    assert_eq!(m.find(10), Some(101));
    assert!(m.erase(10));
    assert!(!m.erase(30));
    assert_eq!(m.find(10), None);
    assert_eq!(m.find(20), Some(200));
}

#[test]
fn insert_then_find_returns_value() {
    let mut m = ConcurrentMap::new(4).unwrap();
    assert!(m.insert(0, 0));
    assert_eq!(m.find(0), Some(0));
    assert!(m.insert(1, u64::MAX));
    assert_eq!(m.find(1), Some(u64::MAX));
    assert!(m.insert(u64::MAX, 7));
    assert_eq!(m.find(u64::MAX), Some(7));
    assert!(m.insert(0x1234_5678_9abc_def0, 42));
    assert_eq!(m.find(0x1234_5678_9abc_def0), Some(42));
}

#[test]
fn overwrite_updates_and_reports_old_key() {
    let mut m = ConcurrentMap::new(2).unwrap();
    assert!(m.insert(5, 1));
    assert!(!m.insert(5, 2));
    assert_eq!(m.find(5), Some(2));
    assert!(!m.insert(5, 3));
    assert_eq!(m.find(5), Some(3));
}

#[test]
fn erase_then_find_is_none() {
    let mut m = ConcurrentMap::new(4).unwrap();
    // Erase on a key never inserted.
    assert!(!m.erase(9));
    assert_eq!(m.find(9), None);
    // Erase right after an insert.
    assert!(m.insert(9, 90));
    assert!(m.erase(9));
    assert_eq!(m.find(9), None);
    // Erase after an overwrite.
    assert!(m.insert(9, 91));
    assert!(!m.insert(9, 92));
    assert!(m.erase(9));
    assert_eq!(m.find(9), None);
}

#[test]
fn find_on_empty_map_is_none() {
    let m = ConcurrentMap::new(1).unwrap();
    assert_eq!(m.find(0), None);
    assert_eq!(m.find(u64::MAX), None);
}

#[test]
fn new_zero_shards_is_config_error() {
    match ConcurrentMap::new(0) {
        Err(MapError::InvalidShardCount) => {}
        Ok(_) => panic!("a zero-shard table must be refused"),
    }
}

#[test]
fn new_accepts_any_positive_shard_count() {
    // Counts that are not powers of two round up internally.
    for count in [1usize, 2, 3, 5, 7, 8, 12, 100] {
        let mut m = ConcurrentMap::new(count).unwrap();
        assert!(m.insert(count as u64, 1));
        assert_eq!(m.find(count as u64), Some(1));
    }
}

#[test]
fn max_value_is_ordinary_data() {
    // u64::MAX must be storable and distinguishable from absence: a
    // sentinel encoding of "not found" would conflate these.
    let mut m = ConcurrentMap::new(2).unwrap();
    assert!(m.insert(3, u64::MAX));
    assert_eq!(m.find(3), Some(u64::MAX));
    assert!(m.erase(3));
    assert_eq!(m.find(3), None);
}

#[test]
fn reinsert_after_erase() {
    let mut m = ConcurrentMap::new(2).unwrap();
    for round in 0..50u64 {
        assert!(m.insert(77, round));
        assert_eq!(m.find(77), Some(round));
        assert!(m.erase(77));
        assert_eq!(m.find(77), None);
    }
}

#[test]
fn default_map_is_empty_and_usable() {
    let mut m = ConcurrentMap::default();
    assert_eq!(m.find(1), None);
    assert!(m.insert(1, 11));
    assert_eq!(m.find(1), Some(11));
}

#[test]
fn one_value_per_key_after_mixed_operations() {
    // However the key is inserted, overwritten, erased and reinserted, a
    // lookup sees exactly the latest surviving value.
    let mut m = ConcurrentMap::new(4).unwrap();
    assert!(m.insert(1000, 1));
    assert!(!m.insert(1000, 2));
    assert!(m.erase(1000));
    assert!(m.insert(1000, 3));
    assert!(!m.insert(1000, 4));
    assert_eq!(m.find(1000), Some(4));
    assert!(m.erase(1000));
    assert_eq!(m.find(1000), None);
}
