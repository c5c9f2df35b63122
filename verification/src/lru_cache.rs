//! The cache model and the two caches that implement it.
pub mod arena;
pub mod error;
pub mod laws;
pub mod order;
pub mod reference;
pub mod replay;
pub mod state;

pub use arena::ManualLRUCache;
pub use error::CacheError;
pub use reference::SimpleVecLRUCache;
pub use replay::{apply, replay, replay_both, LruCache};
pub use state::{LruState, Op, Outcome, MISS};
