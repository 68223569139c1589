//! Reclaimable-range tracker and LRU eviction engine for an anonymous,
//! discardable shared-memory allocator.
//!
//! Callers mark page ranges of a memory object as pinned (must retain) or
//! unpinned (reclaimable). Unpinned ranges are kept per object in a
//! descending, maximally merged interval list ([`area`]), mirrored into one
//! process-wide least-recently-unpinned queue with a running page total
//! ([`lru`]). Under memory pressure a reclaim pass pops the oldest entries,
//! marks them purged and reports which byte ranges of which objects to
//! discard ([`tracker`], [`shrinker`]). The surrounding device layer
//! (locking, user memory, the backing storage) stays outside; it hands this
//! crate plain values and applies the discard requests it gets back.

pub mod area;
pub mod device;
pub mod iov;
pub mod lru;
pub mod pages;
pub mod range;
pub mod shrinker;
pub mod task;
pub mod tracker;
