use sieve_cache::cache::{Cache, CacheWithTTL, CacheWithTTLEntry};
use sieve_cache::sieve::ESieve;
use std::time::Duration;

type TtlCache = CacheWithTTL<String, ESieve<CacheWithTTLEntry<String>>>;

#[test]
fn cache_with_ttl() {
    // the original timeline, driven by explicit clock readings: both keys
    // live at first, the short-lived one dead once 150 ms have passed
    let mut cache = TtlCache::new(2);
    cache.set_at("key-1", "value-1".to_string(), 100);
    cache.set_at("key-2", "value-2".to_string(), 300);
    assert_eq!(cache.get_at("key-1", 0), Some("value-1".to_string()));
    assert_eq!(cache.get_at("key-2", 0), Some("value-2".to_string()));
    assert_eq!(cache.len(), 2);
    assert_eq!(cache.get_at("key-1", 150), None);
    assert_eq!(cache.get_at("key-2", 150), Some("value-2".to_string()));
    assert_eq!(cache.len(), 1);
}

#[test]
fn expiry_is_lazy() {
    let mut cache = TtlCache::new(2);
    cache.set_at("k", "v".to_string(), 10);
    // dead but unread: still occupying its slot
    assert_eq!(cache.len(), 1);
    assert_eq!(cache.get_at("k", 10), None);
    assert_eq!(cache.len(), 0);
    assert_eq!(cache.get_at("k", 10), None);
}

#[test]
fn set_get_through_real_clock() {
    let mut cache = TtlCache::new(4);
    cache.set("k", "v".to_string(), Duration::from_secs(3600));
    assert_eq!(cache.get("k"), Some("v".to_string()));
    assert_eq!(cache.get("k"), Some("v".to_string()));
    assert_eq!(cache.get("absent"), None);
    assert_eq!(cache.len(), 1);
}

#[test]
fn capacity_never_exceeded() {
    let mut cache: ESieve<u64> = Cache::new(3);
    let keys = ["a", "b", "c", "d", "e", "f"];
    for (i, key) in keys.iter().enumerate() {
        cache.set(key, i as u64);
        assert!(cache.len() <= 3);
    }
    assert_eq!(cache.len(), 3);
}

#[test]
fn set_overwrites_and_get_clones() {
    let mut cache: ESieve<String> = Cache::new(2);
    cache.set("k", "one".to_string());
    cache.set("k", "two".to_string());
    assert_eq!(cache.len(), 1);
    assert_eq!(cache.get("k"), Some("two".to_string()));
    assert_eq!(cache.get("k"), Some("two".to_string()));
    assert_eq!(cache.get("other"), None);
}

#[test]
fn evict_removes_only_its_key() {
    let mut cache: ESieve<u64> = Cache::new(3);
    cache.set("a", 1);
    cache.set("b", 2);
    cache.evict("a");
    assert_eq!(cache.get("a"), None);
    assert_eq!(cache.get("b"), Some(2));
    assert_eq!(cache.len(), 1);
    cache.evict("absent");
    assert_eq!(cache.len(), 1);
}

#[test]
fn full_cache_evicts_exactly_one() {
    let mut cache: ESieve<u64> = Cache::new(2);
    cache.set("a", 1);
    cache.set("b", 2);
    cache.set("c", 3);
    assert_eq!(cache.len(), 2);
    // the new key is always present after a write
    assert_eq!(cache.get("c"), Some(3));
}
