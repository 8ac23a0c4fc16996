//! Tests for request framing, cache keying, and the dispatch rules.

use caching_proxy::CacheDecision;
use caching_proxy::FrameStep;
use caching_proxy::LRUMemoryCache;
use caching_proxy::Request;
use caching_proxy::SharedCacheGuard;
use caching_proxy::plan_request;
use caching_proxy::store_response;

fn b(s: &str) -> Vec<u8> {
    s.as_bytes().to_vec()
}

fn get_request(url: &str) -> Request {
    let raw = format!("GET {} HTTP/1.1\r\n\r\n", url);
    Request::new("GET".to_string(), url.to_string(), raw.into_bytes())
}

#[test]
fn cache_key_is_method_space_target() {
    let req = get_request("/a");
    assert_eq!(req.cache_key(), "GET /a".to_string());
}

#[test]
fn cache_key_is_deterministic() {
    let first = get_request("/same?q=1").cache_key();
    let second = get_request("/same?q=1").cache_key();
    assert_eq!(first, second);
}

#[test]
fn cache_key_separates_targets_and_methods() {
    // One differing character in the target gives a distinct key.
    assert_ne!(get_request("/a").cache_key(), get_request("/b").cache_key());
    assert_ne!(
        get_request("/a?x=1").cache_key(),
        get_request("/a?x=2").cache_key()
    );
    // The same target under another method gives a distinct key.
    let post = Request::new("POST".to_string(), "/a".to_string(), b("POST /a HTTP/1.1\r\n\r\n"));
    assert_ne!(post.cache_key(), get_request("/a").cache_key());
}

#[test]
fn only_get_is_cacheable() {
    assert!(get_request("/x").is_cacheable());
    let post = Request::new("POST".to_string(), "/x".to_string(), b(""));
    assert!(!post.is_cacheable());
    let put = Request::new("PUT".to_string(), "/x".to_string(), b(""));
    assert!(!put.is_cacheable());
}

#[test]
fn frame_complete_head() {
    let bytes = b("GET /a HTTP/1.1\r\nHost: example\r\n\r\n");
    match caching_proxy::request::frame_request(&bytes) {
        FrameStep::Complete(req) => {
            assert_eq!(req.method().as_str(), "GET");
            assert_eq!(req.url().as_str(), "/a");
            assert_eq!(req.raw(), &bytes);
        }
        _ => panic!("a complete head must frame"),
    }
}

#[test]
fn frame_incomplete_head_waits() {
    let bytes = b("GET /a HTT");
    assert!(matches!(
        caching_proxy::request::frame_request(&bytes),
        FrameStep::Incomplete
    ));
    let bytes = b("GET /a HTTP/1.1\r\nHost: example\r\n");
    assert!(matches!(
        caching_proxy::request::frame_request(&bytes),
        FrameStep::Incomplete
    ));
}

#[test]
fn frame_malformed_head_fails() {
    let bytes = vec![0u8, 1, 2, 13, 10, 13, 10];
    assert!(matches!(
        caching_proxy::request::frame_request(&bytes),
        FrameStep::Malformed
    ));
}

#[test]
fn frame_keeps_body_bytes_verbatim() {
    let bytes = b("POST /x HTTP/1.1\r\nContent-Length: 3\r\n\r\nabc");
    match caching_proxy::request::frame_request(&bytes) {
        FrameStep::Complete(req) => {
            assert_eq!(req.method().as_str(), "POST");
            assert_eq!(req.url().as_str(), "/x");
            // Whatever arrived with the head is forwarded unmodified.
            assert_eq!(req.raw(), &bytes);
        }
        _ => panic!("a complete head must frame"),
    }
}

#[test]
fn post_bypasses_the_cache() {
    let mut cache: LRUMemoryCache<Vec<u8>> = LRUMemoryCache::new(4);
    let post = Request::new("POST".to_string(), "/x".to_string(), b("POST /x HTTP/1.1\r\n\r\n"));
    // A POST neither reads nor populates the cache.
    assert!(matches!(
        plan_request(&mut cache, &post),
        CacheDecision::FetchOnly
    ));
    // A later GET to the same target still misses: the POST stored nothing.
    let get = get_request("/x");
    match plan_request(&mut cache, &get) {
        CacheDecision::FetchAndStore(key) => assert_eq!(key, "GET /x".to_string()),
        _ => panic!("first GET must miss"),
    }
    // Even with "GET /x" populated, the POST still bypasses.
    store_response(&mut cache, "GET /x".to_string(), b("resp"));
    assert!(matches!(
        plan_request(&mut cache, &post),
        CacheDecision::FetchOnly
    ));
}

#[test]
fn guard_serializes_the_same_dispatch() {
    let guard = SharedCacheGuard::new(LRUMemoryCache::<Vec<u8>>::new(4));
    let req = get_request("/a");
    let key = match guard.plan(&req) {
        CacheDecision::FetchAndStore(key) => key,
        _ => panic!("first GET must miss"),
    };
    assert_eq!(key, "GET /a".to_string());
    guard.store(key, b("R1"));
    match guard.plan(&req) {
        CacheDecision::UseCached(value) => assert_eq!(value, b("R1")),
        _ => panic!("second GET must hit"),
    }
    let post = Request::new("POST".to_string(), "/a".to_string(), b(""));
    assert!(matches!(guard.plan(&post), CacheDecision::FetchOnly));
}

#[test]
fn guard_get_and_set_are_the_engine_operations() {
    let guard = SharedCacheGuard::new(LRUMemoryCache::<Vec<u8>>::new(2));
    guard.set("a".to_string(), b("1"));
    guard.set("b".to_string(), b("2"));
    guard.set("c".to_string(), b("3"));
    // The guarded engine still evicts per its policy.
    assert_eq!(guard.get("a"), None);
    assert_eq!(guard.get("b"), Some(b("2")));
    assert_eq!(guard.get("c"), Some(b("3")));
}

#[test]
fn hit_serves_stored_bytes_without_backend() {
    let mut cache: LRUMemoryCache<Vec<u8>> = LRUMemoryCache::new(4);
    let req = get_request("/a");

    // First GET /a: a miss; the backend (here: fixed bytes) answers R1,
    // which is returned and stored under "GET /a".
    let backend_response = b("R1");
    let key = match plan_request(&mut cache, &req) {
        CacheDecision::FetchAndStore(key) => key,
        _ => panic!("first GET must miss"),
    };
    assert_eq!(key, "GET /a".to_string());
    store_response(&mut cache, key, backend_response.clone());

    // The backend now answers R2 for /a; a second GET /a is served the
    // stored R1, so no backend call happens on a hit.
    let req2 = get_request("/a");
    match plan_request(&mut cache, &req2) {
        CacheDecision::UseCached(value) => assert_eq!(value, b("R1")),
        _ => panic!("second GET must hit"),
    }
}
