//! The output cache.

use windydec::cache::{endpoint_or_default, request, CacheStep, DecompilerCacheKey, OutputCache, DEFAULT_ENDPOINT};

fn key(op_seq: u64) -> DecompilerCacheKey {
    DecompilerCacheKey { image_sha256: "abc".to_string(), va: 0x1000, op_seq }
}

#[test]
fn cached_output_answers() {
    let mut cache = OutputCache::new();
    assert!(matches!(request(&cache, &key(1)), CacheStep::Ask));
    cache.insert(key(1), "cached".to_string());
    match request(&cache, &key(1)) {
        CacheStep::Answer(t) => assert_eq!(t, "cached"),
        CacheStep::Ask => panic!("the cache holds the answer"),
    }
}

#[test]
fn later_operations_invalidate() {
    let mut cache = OutputCache::new();
    cache.insert(key(1), "old".to_string());
    assert!(cache.get(&key(2)).is_none());
    let other = DecompilerCacheKey { image_sha256: "abd".to_string(), va: 0x1000, op_seq: 1 };
    assert!(cache.get(&other).is_none());
    cache.insert(key(1), "new".to_string());
    assert_eq!(cache.get(&key(1)), Some("new".to_string()));
}

#[test]
fn endpoint_has_a_default() {
    assert_eq!(endpoint_or_default(None), DEFAULT_ENDPOINT);
    assert_eq!(endpoint_or_default(Some("http://x".to_string())), "http://x");
}
