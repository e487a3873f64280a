//! A fixed-capacity cache of integer square roots with random replacement.
pub mod cache;
pub mod root;

pub use cache::{CacheEntry, SqrtCache, CACHE_SIZE};
pub use root::floor_sqrt;
