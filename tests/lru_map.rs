use fxkv::lru_map::LruMap;

#[test]
fn test_lru() {
    let mut lru = LruMap::<i32, 3>::new();
    lru.insert(1, 1);
    lru.insert(2, 2);
    assert_eq!(lru.get(1), Some(&1));
    assert_eq!(lru.get(2), Some(&2));
    lru.insert(3, 3);
    lru.insert(4, 4);
    assert!(lru.get(1).is_none());
    assert_eq!(lru.get(2), Some(&2));
    assert_eq!(lru.get(3), Some(&3));
    assert_eq!(lru.get(4), Some(&4));
}

#[test]
fn lru_refreshed_entry_survives_eviction() {
    let mut lru = LruMap::<&str, 3>::new();
    lru.insert(1, "k1");
    lru.insert(2, "k2");
    lru.insert(3, "k3");
    lru.insert(4, "k4");
    assert!(lru.get(1).is_none());
    assert_eq!(lru.get(2), Some(&"k2"));
    lru.insert(5, "k5");
    assert!(lru.get(3).is_none());
    assert_eq!(lru.get(2), Some(&"k2"));
    assert_eq!(lru.get(4), Some(&"k4"));
    assert_eq!(lru.get(5), Some(&"k5"));
}

#[test]
fn lru_keeps_most_recent_keys() {
    let mut lru = LruMap::<u64, 4>::new();
    for k in 0..10u64 {
        lru.insert(k, k * 10);
    }
    assert_eq!(lru.cache.len(), 4);
    for k in 0..6u64 {
        assert!(lru.get(k).is_none());
    }
    for k in 6..10u64 {
        assert_eq!(lru.get(k), Some(&(k * 10)));
    }
}

#[test]
fn lru_insert_same_key_replaces() {
    let mut lru = LruMap::<u64, 2>::new();
    lru.insert(7, 1);
    lru.insert(7, 2);
    assert_eq!(lru.cache.len(), 1);
    assert_eq!(lru.get(7), Some(&2));
    assert!(lru.get(8).is_none());
}
