//! Classic data structures and algorithms, with a least-recently-used cache
//! at their centre, each stated and proved with Verus.
//!
//! - [`lru`]: the cache, over the arena-backed recency list of [`recency`].
//! - [`arrays`], [`ring_buffer`], [`heap`], [`linked_lists`]: searching,
//!   sorting and the basic containers.
//! - [`trees`], [`graphs`], [`recursion`]: traversals and searches.
pub mod arrays;
pub mod graphs;
pub mod heap;
pub mod linked_lists;
pub mod lru;
pub mod recency;
pub mod recursion;
pub mod ring_buffer;
pub mod trees;
