use highper_cache::entry::CacheEntry;
use highper_cache::store::{init_memory_cache, BatchItem, MemoryCache};

const NOW: u64 = 1_700_000_000;

#[test]
fn test_memory_cache_operations() {
    let mut cache = MemoryCache::new();
    let key = String::from("test_key");
    cache.set(key.clone(), String::from("test_value"), 3600, NOW);
    assert_eq!(cache.count(), 1);
    let result = cache.get(&key, NOW);
    assert!(result.is_some());
    assert_eq!(result.unwrap(), "test_value");
    assert!(cache.contains(&key, NOW));
    assert!(cache.delete(&key));
    assert!(!cache.contains(&key, NOW));
}

#[test]
fn test_ttl_expiration() {
    let mut cache = MemoryCache::new();
    let key = String::from("ttl_test");
    cache.set(key.clone(), String::from("ttl_value"), 1, NOW);
    assert!(cache.contains(&key, NOW));
    assert!(!cache.contains(&key, NOW + 2));
}

#[test]
fn ttl_window_edges() {
    let mut cache = MemoryCache::new();
    let key = String::from("k");
    cache.set(key.clone(), String::from("v"), 10, NOW);
    assert_eq!(cache.get(&key, NOW + 10), Some(String::from("v")));
    assert_eq!(cache.get(&key, NOW + 11), None);
    assert_eq!(cache.count(), 0);
}

#[test]
fn zero_ttl_is_permanent() {
    let mut cache = MemoryCache::new();
    let key = String::from("forever");
    cache.set(key.clone(), String::from("v"), 0, NOW);
    assert!(cache.contains(&key, u64::MAX));
    assert_eq!(cache.cleanup(u64::MAX), 0);
    assert_eq!(cache.get(&key, u64::MAX), Some(String::from("v")));
    cache.clear();
    assert!(!cache.contains(&key, NOW));
}

#[test]
fn replace_drops_old_expiry() {
    let mut cache = MemoryCache::new();
    let key = String::from("k");
    cache.set(key.clone(), String::from("old"), 1, NOW);
    cache.set(key.clone(), String::from("new"), 0, NOW);
    assert_eq!(cache.count(), 1);
    assert_eq!(cache.get(&key, NOW + 100), Some(String::from("new")));
    cache.set(key.clone(), String::from("newer"), 5, NOW);
    assert_eq!(cache.get(&key, NOW + 6), None);
}

#[test]
fn lazy_and_active_eviction_agree() {
    let mut cache = MemoryCache::new();
    cache.set(String::from("a"), String::from("1"), 1, NOW);
    cache.set(String::from("b"), String::from("2"), 1, NOW);
    cache.set(String::from("c"), String::from("3"), 0, NOW);
    cache.set(String::from("d"), String::from("4"), 100, NOW);
    assert_eq!(cache.cleanup(NOW + 2), 2);
    assert_eq!(cache.count(), 2);
    assert!(!cache.contains(&String::from("a"), NOW + 2));
    assert!(!cache.contains(&String::from("b"), NOW + 2));
    assert!(cache.contains(&String::from("c"), NOW + 2));
    assert!(cache.contains(&String::from("d"), NOW + 2));
}

#[test]
fn expired_entry_counted_until_accessed() {
    let mut cache = MemoryCache::new();
    let key = String::from("a");
    cache.set(key.clone(), String::from("1"), 1, NOW);
    assert!(cache.contains(&key, NOW));
    assert_eq!(cache.count(), 1);
    assert_eq!(cache.count(), 1);
    assert!(!cache.contains(&key, NOW + 2));
    assert_eq!(cache.count(), 0);
}

#[test]
fn stale_entry_counted_until_swept() {
    let mut cache = MemoryCache::new();
    cache.set(String::from("a"), String::from("1"), 1, NOW);
    assert_eq!(cache.count(), 1);
    assert_eq!(cache.cleanup(NOW + 2), 1);
    assert_eq!(cache.count(), 0);
}

#[test]
fn delete_missing_key() {
    let mut cache = MemoryCache::new();
    assert!(!cache.delete(&String::from("nothing")));
    assert_eq!(cache.get(&String::from("nothing"), NOW), None);
}

#[test]
fn batch_skips_malformed_item() {
    let mut cache = MemoryCache::new();
    let items: Vec<BatchItem> = vec![
        (Some(String::from("k1")), Some(String::from("v1")), 0),
        (Some(String::from("k2")), None, 0),
        (Some(String::from("k3")), Some(String::from("v3")), 60),
        (None, Some(String::from("v4")), 0),
        (Some(String::from("k1")), Some(String::from("v1b")), 0),
    ];
    assert_eq!(cache.set_multiple(&items, NOW), 3);
    assert_eq!(cache.count(), 2);
    assert_eq!(cache.get(&String::from("k1"), NOW), Some(String::from("v1b")));
    assert_eq!(cache.get(&String::from("k3"), NOW), Some(String::from("v3")));
    assert!(!cache.contains(&String::from("k2"), NOW));
}

#[test]
fn get_multiple_leaves_out_absent_and_expired() {
    let mut cache = MemoryCache::new();
    cache.set(String::from("a"), String::from("1"), 0, NOW);
    cache.set(String::from("b"), String::from("2"), 1, NOW);
    let keys = vec![Some(String::from("a")), Some(String::from("b")), None, Some(String::from("zz"))];
    let found = cache.get_multiple(&keys, NOW + 5);
    assert_eq!(found, vec![(String::from("a"), String::from("1"))]);
    assert_eq!(cache.count(), 1);
}

#[test]
fn get_multiple_as_json_object() {
    let mut cache = MemoryCache::new();
    cache.set(String::from("b"), String::from("2"), 0, NOW);
    cache.set(String::from("a"), String::from("1"), 0, NOW);
    let keys = vec![Some(String::from("b")), Some(String::from("a")), Some(String::from("x"))];
    let json = cache.get_multiple_json(&keys, NOW);
    assert_eq!(json, "{\"a\":\"1\",\"b\":\"2\"}");
    let none = cache.get_multiple_json(&vec![Some(String::from("x"))], NOW);
    assert_eq!(none, "{}");
    let empty = cache.get_multiple_json(&Vec::new(), NOW);
    assert_eq!(empty, "{}");
    assert_eq!(cache.count(), 2);
}

#[test]
fn init_keeps_existing_store() {
    let mut slot: Option<MemoryCache> = None;
    init_memory_cache(&mut slot);
    slot.as_mut().unwrap().set(String::from("k"), String::from("v"), 0, NOW);
    init_memory_cache(&mut slot);
    assert_eq!(slot.as_ref().unwrap().count(), 1);
}

#[test]
fn entry_expiry_rules() {
    let e = CacheEntry::new_at(String::from("v"), 10, 100);
    assert_eq!(e.created_at, 100);
    assert_eq!(e.expires_at, Some(110));
    assert!(!e.is_expired_at(110));
    assert!(e.is_expired_at(111));
    let p = CacheEntry::new_at(String::from("v"), 0, 100);
    assert_eq!(p.expires_at, None);
    assert!(!p.is_expired_at(u64::MAX));
    let s = CacheEntry::new_at(String::from("v"), u64::MAX, 5);
    assert_eq!(s.expires_at, Some(u64::MAX));
}

#[test]
fn entry_from_clock() {
    let e = CacheEntry::new(String::from("v"), 0);
    assert_eq!(e.expires_at, None);
    assert!(!e.is_expired());
    let f = CacheEntry::new(String::from("w"), 3600);
    assert_eq!(f.expires_at, Some(f.created_at + 3600));
    assert!(!f.is_expired());
    let d = f.duplicate();
    assert_eq!(d.value, "w");
}
