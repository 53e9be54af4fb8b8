//! A fixed-capacity cache that evicts the least-recently-used entry when
//! full.
//!
//! Entries live in a fixed-size slot arena threaded into a doubly-linked
//! recency list through integer slot indices, backed by a hash index from
//! key to slot and a free list for constant-time slot reuse.  The public
//! operations carry contracts over an abstract view of the cache: the
//! sequence of `(key, value)` pairs ordered from most- to least-recently
//! used.

pub mod cache;
pub mod legacy;

pub use cache::LruCache;
pub use cache::LruCacheIter;
pub use legacy::LRUCache;
pub use legacy::LRUCacheIter;
