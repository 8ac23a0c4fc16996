//! Behavioural tests for the two eviction policies.

use caching_proxy::LFUMemoryCache;
use caching_proxy::LRUMemoryCache;
use caching_proxy::MemoryCache;

fn b(s: &str) -> Vec<u8> {
    s.as_bytes().to_vec()
}

#[test]
fn lru_bound_evicts_least_recently_used() {
    let mut cache: LRUMemoryCache<Vec<u8>> = LRUMemoryCache::new(2);
    cache.set("a".to_string(), b("1"));
    cache.set("b".to_string(), b("2"));
    cache.set("c".to_string(), b("3"));
    // "a" was the least recently touched of the three; only it is gone.
    assert_eq!(cache.get("a"), None);
    assert_eq!(cache.get("b"), Some(b("2")));
    assert_eq!(cache.get("c"), Some(b("3")));
}

#[test]
fn lru_get_refreshes_recency() {
    let mut cache: LRUMemoryCache<Vec<u8>> = LRUMemoryCache::new(3);
    cache.set("A".to_string(), b("va"));
    cache.set("B".to_string(), b("vb"));
    cache.set("C".to_string(), b("vc"));
    assert_eq!(cache.get("A"), Some(b("va")));
    cache.set("D".to_string(), b("vd"));
    // B, not A, was least recently touched when D arrived.
    assert_eq!(cache.get("B"), None);
    assert_eq!(cache.get("A"), Some(b("va")));
    assert_eq!(cache.get("C"), Some(b("vc")));
    assert_eq!(cache.get("D"), Some(b("vd")));
}

#[test]
fn lru_set_replaces_value_without_eviction() {
    let mut cache: LRUMemoryCache<Vec<u8>> = LRUMemoryCache::new(2);
    cache.set("a".to_string(), b("old"));
    cache.set("b".to_string(), b("2"));
    cache.set("a".to_string(), b("new"));
    // Overwriting "a" at capacity must not evict "b".
    assert_eq!(cache.get("b"), Some(b("2")));
    assert_eq!(cache.get("a"), Some(b("new")));
}

#[test]
fn lru_miss_has_no_side_effects() {
    let mut cache: LRUMemoryCache<Vec<u8>> = LRUMemoryCache::new(2);
    cache.set("a".to_string(), b("1"));
    cache.set("b".to_string(), b("2"));
    assert_eq!(cache.get("missing"), None);
    // The miss must not have touched the recency order: "a" is still the
    // least recently used and is the one evicted next.
    cache.set("c".to_string(), b("3"));
    assert_eq!(cache.get("a"), None);
    assert_eq!(cache.get("b"), Some(b("2")));
}

#[test]
fn lfu_bound_evicts_least_frequently_used() {
    let mut cache: LFUMemoryCache<Vec<u8>> = LFUMemoryCache::new(2);
    cache.set("A".to_string(), b("va"));
    cache.set("B".to_string(), b("vb"));
    assert_eq!(cache.get("A"), Some(b("va")));
    cache.set("C".to_string(), b("vc"));
    // B held the strictly smallest counter (1 against A's 2).
    assert_eq!(cache.get("B"), None);
    assert_eq!(cache.get("A"), Some(b("va")));
    assert_eq!(cache.get("C"), Some(b("vc")));
}

#[test]
fn lfu_counter_counts_insert_and_reads() {
    let mut cache: LFUMemoryCache<Vec<u8>> = LFUMemoryCache::new(2);
    cache.set("A".to_string(), b("v1"));
    assert_eq!(cache.get("A"), Some(b("v1")));
    assert_eq!(cache.get("A"), Some(b("v1")));
    assert_eq!(cache.get("A"), Some(b("v1")));
    // A's counter is now 4 (1 from the insert, 3 from the reads).
    cache.set("B".to_string(), b("vb"));
    cache.set("C".to_string(), b("vc"));
    // B (counter 1) lost against A (counter 4).
    assert_eq!(cache.get("B"), None);
    // A re-set resets A's counter to 1.
    cache.set("A".to_string(), b("v2"));
    cache.set("D".to_string(), b("vd"));
    // A and C both held counter 1; A, inserted earlier, is evicted.  Had
    // the re-set kept A's old counter, C would have been evicted instead.
    assert_eq!(cache.get("A"), None);
    assert_eq!(cache.get("C"), Some(b("vc")));
    assert_eq!(cache.get("D"), Some(b("vd")));
}

#[test]
fn lfu_set_resets_value_and_counter() {
    let mut cache: LFUMemoryCache<Vec<u8>> = LFUMemoryCache::new(3);
    cache.set("A".to_string(), b("v1"));
    assert_eq!(cache.get("A"), Some(b("v1")));
    cache.set("A".to_string(), b("v2"));
    assert_eq!(cache.get("A"), Some(b("v2")));
}

#[test]
fn lfu_ties_fall_to_the_oldest_inserted() {
    let mut cache: LFUMemoryCache<Vec<u8>> = LFUMemoryCache::new(2);
    cache.set("X".to_string(), b("vx"));
    cache.set("Y".to_string(), b("vy"));
    cache.set("Z".to_string(), b("vz"));
    // X and Y both held counter 1; X, inserted first, is the victim.
    assert_eq!(cache.get("X"), None);
    assert_eq!(cache.get("Y"), Some(b("vy")));
    assert_eq!(cache.get("Z"), Some(b("vz")));
}

#[test]
fn lfu_miss_increments_nothing() {
    let mut cache: LFUMemoryCache<Vec<u8>> = LFUMemoryCache::new(2);
    cache.set("A".to_string(), b("va"));
    cache.set("B".to_string(), b("vb"));
    assert_eq!(cache.get("missing"), None);
    cache.set("C".to_string(), b("vc"));
    // The tie between A and B is untouched by the miss: A, older, leaves.
    assert_eq!(cache.get("A"), None);
    assert_eq!(cache.get("B"), Some(b("vb")));
}

#[test]
fn interleaved_operations_stay_consistent() {
    // Interleaved get/set on overlapping keys: mapping and bookkeeping
    // never fall out of step, so later operations still behave as stated.
    let mut lru: LRUMemoryCache<Vec<u8>> = LRUMemoryCache::new(3);
    let mut lfu: LFUMemoryCache<Vec<u8>> = LFUMemoryCache::new(3);
    for round in 0..4u8 {
        for key in ["k1", "k2", "k3", "k4"] {
            let value = vec![round, key.len() as u8];
            lru.set(key.to_string(), value.clone());
            lfu.set(key.to_string(), value.clone());
            assert_eq!(lru.get(key), Some(value.clone()));
            assert_eq!(lfu.get(key), Some(value));
            lru.get("k1");
            lfu.get("k1");
        }
    }
    // Capacity 3 was never exceeded: of the four keys just written, the
    // least recently used one ("k2": k1 was refreshed after it) is gone.
    assert_eq!(lru.get("k2"), None);
    assert_eq!(lru.get("k1").is_some(), true);
    assert_eq!(lru.get("k3").is_some(), true);
    assert_eq!(lru.get("k4").is_some(), true);
    assert_eq!(lfu.get("k1").is_some(), true);
}
