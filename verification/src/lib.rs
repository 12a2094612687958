//! The in-memory sorted index at the core of a log-structured storage
//! engine's write buffer: an ordered byte-string view (`slice`), a
//! bump-pointer allocator (`arena`), a deterministic pseudo-random generator
//! (`random`), and the probabilistically balanced ordered index built on
//! them (`skiplist`).

pub mod arena;
pub mod memtable;
pub mod random;
pub mod skiplist;
pub mod slice;
