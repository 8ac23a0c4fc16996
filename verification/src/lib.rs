//! A caching reverse proxy library: bounded in-memory caches with LRU and LFU
//! eviction, HTTP request-head framing, and the cache-consult/bypass dispatch
//! rules that a proxy applies per request.

pub mod db;
pub mod guard;
pub mod request;

pub use db::LFUMemoryCache;
pub use db::LRUMemoryCache;
pub use db::MemoryCache;
pub use request::CacheDecision;
pub use request::FrameStep;
pub use request::Request;
pub use request::plan_request;
pub use guard::SharedCacheGuard;
pub use request::store_response;
