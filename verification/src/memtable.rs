//! The in-memory write buffer built on the ordered index.

use vstd::prelude::*;

verus! {

/// MemTable keeps key-value pairs sorted in memory until the owning storage
/// engine decides to flush them to a durable sorted-table file.
///
/// MemTables are reference counted by their owner; the owner serializes all
/// writers, while readers go through the index without coordination.
pub struct MemTable {}

} // verus!
