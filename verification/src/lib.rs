//! A fixed-capacity least-recently-used cache built on a contiguous arena,
//! with index-based doubly-linked recency ordering and a `key=value` text
//! codec that preserves recency across a save/reload cycle.

pub mod cache;
pub mod persistence;

pub use cache::Cache;
pub use cache::CacheKey;
pub use cache::LruCache;
