//! Fixed-capacity least-recently-used caches, verified with Verus.
//!
//! Two interchangeable caches share one mathematical model
//! ([`lru_cache::LruState`]): a reference cache that keeps its recency order
//! in a plain list, and an arena cache that threads a doubly linked list and
//! a free list through a fixed pool of slots. Beside them stand four ways to
//! compute the next greater element of each element of a sequence.
pub mod lru_cache;
pub mod next_greater;
