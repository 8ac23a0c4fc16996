//! The shared cache guard: one eviction engine behind a lock, shared by
//! every connection handler.
//!
//! The guard adds no eviction logic of its own; it only serializes access,
//! so that no handler observes another handler's mutation half applied.
//! Its lock invariant is the engine's well-formedness, so every handler
//! finds the mapping and the policy bookkeeping in step, and the lock is
//! held only around the cache operation itself, never across backend I/O.

use vstd::prelude::*;
use vstd::rwlock::RwLock;

use crate::db::MemoryCache;
use crate::request::CacheDecision;
use crate::request::Request;
use crate::request::cache_key_spec;
use crate::request::plan_request;
use crate::request::store_response;

verus! {

/// One cache engine shared across handlers, every access serialized.
#[verifier::reject_recursive_types(C)]
pub struct SharedCacheGuard<C: MemoryCache<Vec<u8>>> {
    lock: RwLock<C, spec_fn(C) -> bool>,
}

impl<C: MemoryCache<Vec<u8>>> SharedCacheGuard<C> {
    /// The guard's invariant: whatever engine the lock stores is well
    /// formed.
    pub closed spec fn wf(&self) -> bool {
        self.lock.pred() == (|c: C| c.wf())
    }

    /// Puts a well-formed engine behind the lock.
    pub fn new(cache: C) -> (r: Self)
        requires
            cache.wf(),
        ensures
            r.wf(),
    {
        SharedCacheGuard { lock: RwLock::new(cache, Ghost(|c: C| c.wf())) }
    }

    /// Atomically consults the cache for one framed request: the dispatch
    /// decision of `plan_request`, taken against the engine's state at one
    /// instant.  The lock is released before any backend work begins.
    pub fn plan(&self, req: &Request) -> (d: CacheDecision)
        requires
            self.wf(),
        ensures
            (match d {
                CacheDecision::UseCached(_) => req@.method == "GET"@,
                CacheDecision::FetchAndStore(k) => req@.method == "GET"@ && k@ == cache_key_spec(
                    req@.method,
                    req@.url,
                ),
                CacheDecision::FetchOnly => req@.method != "GET"@,
            }),
    {
        let (mut cache, handle) = self.lock.acquire_write();
        let d = plan_request(&mut cache, req);
        handle.release_write(cache);
        d
    }

    /// Atomically back-fills the cache after a miss, storing the backend's
    /// response bytes under the computed key.
    pub fn store(&self, key: String, response: Vec<u8>)
        requires
            self.wf(),
    {
        let (mut cache, handle) = self.lock.acquire_write();
        store_response(&mut cache, key, response);
        handle.release_write(cache);
    }

    /// Atomically stores `value` under `key` in the engine.
    pub fn set(&self, key: String, value: Vec<u8>)
        requires
            self.wf(),
    {
        let (mut cache, handle) = self.lock.acquire_write();
        cache.set(key, value);
        handle.release_write(cache);
    }

    /// Atomically looks `key` up in the engine, with the policy's usual
    /// bookkeeping side effect.
    pub fn get(&self, key: &str) -> (r: Option<Vec<u8>>)
        requires
            self.wf(),
    {
        let (mut cache, handle) = self.lock.acquire_write();
        let r = cache.get(key);
        handle.release_write(cache);
        r
    }
}

} // verus!
