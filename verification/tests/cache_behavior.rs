//! The eviction cache observed from outside: expiry, recency, capacity.

use fileserve::CacheMap;

fn key(s: &str) -> Vec<u8> {
    s.as_bytes().to_vec()
}

#[test]
fn insert_get_basic() {
    let mut c: CacheMap<i32> = CacheMap::new();
    c.insert(key("a"), 1, 100);
    assert_eq!(c.get(&key("a"), 100), Some(&1));
    assert_eq!(c.get(&key("b"), 100), None);
}

#[test]
fn reinsert_replaces_value() {
    let mut c: CacheMap<i32> = CacheMap::new();
    c.insert(key("a"), 1, 0);
    c.insert(key("a"), 2, 1);
    assert_eq!(c.get(&key("a"), 2), Some(&2));
}

#[test]
fn expired_entry_is_absent_and_purged() {
    let mut c: CacheMap<i32> = CacheMap::new().with_ttl(10);
    c.insert(key("a"), 1, 0);
    assert_eq!(c.get(&key("a"), 5), Some(&1));
    assert_eq!(c.get(&key("a"), 10), None);
    // the entry was removed, not merely hidden: even an early clock sees nothing
    assert_eq!(c.get(&key("a"), 5), None);
}

#[test]
fn capacity_is_bounded() {
    let mut c: CacheMap<i32> = CacheMap::new().with_max_size(2);
    c.insert(key("a"), 1, 0);
    c.insert(key("b"), 2, 1);
    c.insert(key("c"), 3, 2);
    let mut present = 0;
    for k in ["a", "b", "c"] {
        if c.get(&key(k), 3).is_some() {
            present += 1;
        }
    }
    assert_eq!(present, 2);
}

#[test]
fn lru_entry_is_evicted() {
    let mut c: CacheMap<i32> = CacheMap::new().with_max_size(2);
    c.insert(key("a"), 1, 0);
    c.insert(key("b"), 2, 1);
    // touch a, so b becomes the least recently used
    assert!(c.get(&key("a"), 2).is_some());
    c.insert(key("c"), 3, 3);
    assert!(c.get(&key("b"), 4).is_none());
    assert!(c.get(&key("a"), 4).is_some());
    assert!(c.get(&key("c"), 4).is_some());
}

#[test]
fn evict_lru_removes_oldest() {
    let mut c: CacheMap<i32> = CacheMap::new();
    c.insert(key("a"), 1, 0);
    c.insert(key("b"), 2, 5);
    c.evict_lru();
    assert!(c.get(&key("a"), 6).is_none());
    assert!(c.get(&key("b"), 6).is_some());
}

#[test]
fn invalidate_drops_only_that_entry() {
    let mut c: CacheMap<i32> = CacheMap::new();
    c.insert(key("a"), 1, 0);
    c.insert(key("b"), 2, 0);
    c.invalidate(&key("a"));
    assert!(c.get(&key("a"), 1).is_none());
    assert_eq!(c.get(&key("b"), 1), Some(&2));
    // invalidating an absent key is harmless
    c.invalidate(&key("zzz"));
    assert_eq!(c.get(&key("b"), 1), Some(&2));
}
