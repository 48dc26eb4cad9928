use shardmap::table::ConcurrentMap;

#[test]
fn resize_preserves_every_entry() {
    // One shard of capacity 16 resizes once more than 12 slots are used;
    // several hundred inserts force repeated doublings.
    let mut m = ConcurrentMap::new(1).unwrap();
    for k in 0..500u64 {
        assert!(m.insert(k, k.wrapping_mul(3) ^ 1));
    }
    for k in 0..500u64 {
        assert_eq!(m.find(k), Some(k.wrapping_mul(3) ^ 1));
    }
    assert_eq!(m.find(500), None);
}

#[test]
fn growth_across_many_shards() {
    let mut m = ConcurrentMap::new(8).unwrap();
    for k in 0..2000u64 {
        assert!(m.insert(k, 2 * k));
    }
    for k in 0..2000u64 {
        assert_eq!(m.find(k), Some(2 * k));
    }
    // Erase the even keys; the odd ones stay.
    for k in (0..2000u64).step_by(2) {
        assert!(m.erase(k));
    }
    for k in 0..2000u64 {
        if k % 2 == 0 {
            assert_eq!(m.find(k), None);
        } else {
            assert_eq!(m.find(k), Some(2 * k));
        }
    }
}

#[test]
fn erase_insert_churn_preserves_entries() {
    // Erase/insert churn in one shard exercises tombstone recycling and
    // rehashing; every live entry must survive throughout.
    let mut m = ConcurrentMap::new(1).unwrap();
    for k in 0..8u64 {
        assert!(m.insert(k, k + 1));
    }
    for round in 0..200u64 {
        let k = 1000 + (round % 7);
        m.insert(k, round);
        assert_eq!(m.find(k), Some(round));
        assert!(m.erase(k));
    }
    for k in 0..8u64 {
        assert_eq!(m.find(k), Some(k + 1));
    }
}

#[test]
fn overwrites_do_not_grow_entry_count() {
    let mut m = ConcurrentMap::new(2).unwrap();
    for k in 0..100u64 {
        assert!(m.insert(k, 0));
    }
    for pass in 1..5u64 {
        for k in 0..100u64 {
            assert!(!m.insert(k, pass));
        }
    }
    for k in 0..100u64 {
        assert_eq!(m.find(k), Some(4));
    }
}
