//! Bump-pointer memory pool.
//!
//! The arena owns a growing list of blocks and serves allocations by carving
//! bytes off a cursor into the current block.  Nothing is ever freed
//! individually: every allocation stays valid until the whole arena is
//! dropped.  Callers receive stable handles (a block index and an offset)
//! rather than raw addresses; the handle's byte range belongs to that
//! allocation alone.
//!
//! A single writer serializes all allocation; `memory_usage` is a plain read
//! of the running counter.

use vstd::prelude::*;

verus! {

/// Size of a standard block.
pub const BLOCK_SIZE: usize = 4096;

/// Fixed bookkeeping charged per block: a block's pointer, length and
/// capacity words on a 64-bit target.
pub const BLOCK_OVERHEAD: usize = 24;

/// Requests above this go to a dedicated block of their own, so one oversized
/// request never wastes most of a standard block.
pub const OVERSIZE_LIMIT: usize = 1024;

/// Alignment guaranteed by `allocate_aligned`: the pointer size here.
pub const ALIGNMENT: usize = 8;

/// A stable handle to an allocation: `len` bytes of the arena block `block`,
/// starting at byte `offset`.
#[derive(Clone, Copy, PartialEq, Eq, Structural, Debug)]
pub struct ArenaPtr {
    pub block: usize,
    pub offset: usize,
}

/// Whether two allocation records `(block, offset, len)` cover disjoint
/// bytes.
pub open spec fn ranges_disjoint(a: (int, int, int), b: (int, int, int)) -> bool {
    a.0 != b.0 || a.1 + a.2 <= b.1 || b.1 + b.2 <= a.1
}

pub struct Arena {
    blocks: Vec<Vec<u8>>,
    /// Index of the block the cursor points into.
    current_block: usize,
    /// First free byte of the current block.
    cursor: usize,
    /// Free bytes left in the current block, from `cursor` on.
    remaining: usize,
    /// Cumulative usage counter: block bytes plus per-block overhead.
    usage: usize,
    /// Every allocation handed out, as `(block, offset, len)`, oldest first.
    history: Ghost<Seq<(int, int, int)>>,
    /// Running sum of the byte counts callers asked for.
    requested: Ghost<int>,
}

impl Arena {
    /// One allocation record lies inside its block; records in the current
    /// block lie below the cursor, so the free region overlaps none of them.
    spec fn record_ok(self, r: (int, int, int)) -> bool {
        &&& 0 <= r.0 < self.blocks.len()
        &&& 0 <= r.1
        &&& 0 < r.2
        &&& r.1 + r.2 <= self.blocks[r.0]@.len()
        &&& r.0 == self.current_block && self.remaining > 0 ==> r.1 + r.2 <= self.cursor
    }

    /// The arena's internal well-formedness: every constructor establishes
    /// it and every method preserves it.
    pub closed spec fn wf(self) -> bool {
        &&& self.remaining > 0 ==> {
            &&& self.current_block < self.blocks.len()
            &&& self.cursor + self.remaining == self.blocks[self.current_block as int]@.len()
            &&& self.cursor + self.remaining <= usize::MAX
        }
        &&& self.usage >= self.requested@ + self.remaining
        &&& self.usage <= self.requested@ + self.blocks.len() * (BLOCK_SIZE + BLOCK_OVERHEAD)
        &&& 0 <= self.requested@
        &&& forall|k: int|
            0 <= k < self.history@.len() ==> self.record_ok(#[trigger] self.history@[k])
        &&& forall|k1: int, k2: int|
            0 <= k1 < k2 < self.history@.len() ==> ranges_disjoint(
                #[trigger] self.history@[k1],
                #[trigger] self.history@[k2],
            )
    }

    /// The allocations handed out so far, oldest first.
    pub closed spec fn allocs(self) -> Seq<(int, int, int)> {
        self.history@
    }

    /// Sum of the sizes callers have requested so far.
    pub closed spec fn total_requested(self) -> int {
        self.requested@
    }

    /// The value the usage counter holds.
    pub closed spec fn usage_spec(self) -> int {
        self.usage as int
    }

    pub closed spec fn num_blocks(self) -> int {
        self.blocks.len() as int
    }

    /// The bytes block `b` holds.
    pub closed spec fn contents(self, b: int) -> Seq<u8> {
        self.blocks[b]@
    }

    /// `len` bytes starting at `offset` lie inside block `block`.
    pub open spec fn valid_range(self, block: int, offset: int, len: int) -> bool {
        0 <= block < self.num_blocks() && 0 <= offset && offset + len <= self.contents(
            block,
        ).len()
    }

    pub fn new() -> (r: Arena)
        ensures
            r.wf(),
            r.allocs() == Seq::<(int, int, int)>::empty(),
            r.total_requested() == 0,
            r.usage_spec() == 0,
            r.num_blocks() == 0,
    {
        Arena {
            blocks: Vec::new(),
            current_block: 0,
            cursor: 0,
            remaining: 0,
            usage: 0,
            history: Ghost(Seq::empty()),
            requested: Ghost(0),
        }
    }

    /// The cumulative memory counter: all block bytes ever reserved plus the
    /// fixed per-block overhead.  Never decreases, and never falls below the
    /// sum of the sizes callers asked for.
    pub fn memory_usage(&self) -> (r: usize)
        requires
            self.wf(),
        ensures
            r == self.usage_spec(),
            r >= self.total_requested(),
    {
        self.usage
    }

    /// Reserves a fresh block of `block_bytes` zeroed bytes and charges it to
    /// the usage counter; `charge` of those bytes are already spoken for by
    /// the caller's request.  Returns the block's index.
    fn allocate_new_block(&mut self, block_bytes: usize, Ghost(charge): Ghost<int>) -> (b: usize)
        requires
            old(self).wf(),
            0 <= charge <= block_bytes,
            block_bytes <= charge + BLOCK_SIZE,
            old(self).usage_spec() + block_bytes + BLOCK_OVERHEAD <= usize::MAX,
        ensures
            final(self).wf(),
            final(self).num_blocks() == old(self).num_blocks() + 1,
            b == old(self).num_blocks(),
            final(self).contents(b as int) == Seq::<u8>::new(block_bytes as nat, |i: int| 0u8),
            forall|ob: int|
                0 <= ob < old(self).num_blocks() ==> final(self).contents(ob) == old(
                    self,
                ).contents(ob),
            final(self).usage_spec() == old(self).usage_spec() + block_bytes + BLOCK_OVERHEAD,
            final(self).allocs() == old(self).allocs(),
            final(self).total_requested() == old(self).total_requested() + charge,
            final(self).remaining_spec() == old(self).remaining_spec(),
            final(self).cursor_spec() == old(self).cursor_spec(),
            final(self).current_block_spec() == old(self).current_block_spec(),
    {
        let v: Vec<u8> = vec![0u8; block_bytes];
        let b = self.blocks.len();
        self.blocks.push(v);
        self.usage = self.usage + block_bytes + BLOCK_OVERHEAD;
        proof {
            self.requested@ = self.requested@ + charge;
            assert(self.contents(b as int) =~= Seq::<u8>::new(block_bytes as nat, |i: int| 0u8));
        }
        b
    }

    spec fn remaining_spec(self) -> int {
        self.remaining as int
    }

    spec fn cursor_spec(self) -> int {
        self.cursor as int
    }

    spec fn current_block_spec(self) -> int {
        self.current_block as int
    }

    /// Slow path: a dedicated block for oversized requests, else a fresh
    /// standard block that becomes the new bump region (what remained of the
    /// old one is abandoned).
    fn allocate_fallback(&mut self, n: usize) -> (p: ArenaPtr)
        requires
            old(self).wf(),
            0 < n,
            old(self).usage_spec() + n + BLOCK_SIZE + BLOCK_OVERHEAD <= usize::MAX,
        ensures
            final(self).wf(),
            final(self).valid_range(p.block as int, p.offset as int, n as int),
            final(self).allocs() == old(self).allocs().push(
                (p.block as int, p.offset as int, n as int),
            ),
            final(self).total_requested() == old(self).total_requested() + n,
            old(self).usage_spec() <= final(self).usage_spec() <= old(self).usage_spec() + n
                + BLOCK_SIZE + BLOCK_OVERHEAD,
            forall|ob: int|
                0 <= ob < old(self).num_blocks() ==> final(self).contents(ob) == old(
                    self,
                ).contents(ob),
            old(self).num_blocks() <= final(self).num_blocks(),
            p.offset == 0,
    {
        if n > OVERSIZE_LIMIT {
            // The request gets a block of its own; the bump region is not
            // touched.
            let b = self.allocate_new_block(n, Ghost(n as int));
            let p = ArenaPtr { block: b, offset: 0 };
            proof {
                self.history@ = self.history@.push((p.block as int, 0, n as int));
            }
            p
        } else {
            let b = self.allocate_new_block(BLOCK_SIZE, Ghost(0));
            self.current_block = b;
            self.cursor = n;
            self.remaining = BLOCK_SIZE - n;
            let p = ArenaPtr { block: b, offset: 0 };
            proof {
                self.history@ = self.history@.push((p.block as int, 0, n as int));
                self.requested@ = self.requested@ + n;
            }
            p
        }
    }

    /// Carves `bytes` bytes off the arena and returns their handle.  The
    /// returned range lies inside an arena block and overlaps no earlier
    /// allocation; existing block contents are untouched.
    pub fn allocate(&mut self, bytes: usize) -> (p: ArenaPtr)
        requires
            old(self).wf(),
            0 < bytes,
            old(self).usage_spec() + bytes + BLOCK_SIZE + BLOCK_OVERHEAD <= usize::MAX,
        ensures
            final(self).wf(),
            final(self).valid_range(p.block as int, p.offset as int, bytes as int),
            final(self).allocs() == old(self).allocs().push(
                (p.block as int, p.offset as int, bytes as int),
            ),
            final(self).total_requested() == old(self).total_requested() + bytes,
            old(self).usage_spec() <= final(self).usage_spec() <= old(self).usage_spec() + bytes
                + BLOCK_SIZE + BLOCK_OVERHEAD,
            forall|ob: int|
                0 <= ob < old(self).num_blocks() ==> final(self).contents(ob) == old(
                    self,
                ).contents(ob),
            old(self).num_blocks() <= final(self).num_blocks(),
    {
        if bytes <= self.remaining {
            let p = ArenaPtr { block: self.current_block, offset: self.cursor };
            self.cursor = self.cursor + bytes;
            self.remaining = self.remaining - bytes;
            proof {
                self.history@ = self.history@.push(
                    (p.block as int, p.offset as int, bytes as int),
                );
                self.requested@ = self.requested@ + bytes;
            }
            p
        } else {
            self.allocate_fallback(bytes)
        }
    }

    /// Like `allocate`, but the returned offset is a multiple of the pointer
    /// alignment: slop bytes are consumed from the cursor until it is
    /// aligned, and the range after them is returned.
    pub fn allocate_aligned(&mut self, bytes: usize) -> (p: ArenaPtr)
        requires
            old(self).wf(),
            0 < bytes,
            old(self).usage_spec() + bytes + ALIGNMENT + BLOCK_SIZE + BLOCK_OVERHEAD
                <= usize::MAX,
        ensures
            final(self).wf(),
            final(self).valid_range(p.block as int, p.offset as int, bytes as int),
            final(self).allocs() == old(self).allocs().push(
                (p.block as int, p.offset as int, bytes as int),
            ),
            final(self).total_requested() == old(self).total_requested() + bytes,
            old(self).usage_spec() <= final(self).usage_spec() <= old(self).usage_spec() + bytes
                + ALIGNMENT + BLOCK_SIZE + BLOCK_OVERHEAD,
            forall|ob: int|
                0 <= ob < old(self).num_blocks() ==> final(self).contents(ob) == old(
                    self,
                ).contents(ob),
            old(self).num_blocks() <= final(self).num_blocks(),
            p.offset % ALIGNMENT == 0,
    {
        let current_mod = self.cursor % ALIGNMENT;
        let slop = if current_mod == 0 {
            0
        } else {
            ALIGNMENT - current_mod
        };
        if bytes <= self.remaining && slop <= self.remaining - bytes {
            let p = ArenaPtr { block: self.current_block, offset: self.cursor + slop };
            self.cursor = self.cursor + slop + bytes;
            self.remaining = self.remaining - slop - bytes;
            proof {
                self.history@ = self.history@.push(
                    (p.block as int, p.offset as int, bytes as int),
                );
                self.requested@ = self.requested@ + bytes;
            }
            p
        } else {
            self.allocate_fallback(bytes)
        }
    }

    /// Writes one byte inside an allocation: byte `i` of the `len`-byte range
    /// at `p`.  No other byte of the arena changes.
    pub fn write(&mut self, p: ArenaPtr, i: usize, v: u8)
        requires
            old(self).wf(),
            old(self).valid_range(p.block as int, p.offset as int, i + 1),
        ensures
            final(self).wf(),
            final(self).contents(p.block as int) == old(self).contents(p.block as int).update(
                p.offset + i,
                v,
            ),
            forall|ob: int|
                0 <= ob < old(self).num_blocks() && ob != p.block ==> final(self).contents(ob)
                    == old(self).contents(ob),
            final(self).num_blocks() == old(self).num_blocks(),
            final(self).allocs() == old(self).allocs(),
            final(self).total_requested() == old(self).total_requested(),
            final(self).usage_spec() == old(self).usage_spec(),
    {
        let row_len = self.blocks[p.block].len();
        proof {
            assert(row_len <= usize::MAX);
        }
        let idx = p.offset + i;
        self.blocks[p.block][idx] = v;
    }

    /// Reads one byte inside an allocation.
    pub fn read(&self, p: ArenaPtr, i: usize) -> (r: u8)
        requires
            self.wf(),
            self.valid_range(p.block as int, p.offset as int, i + 1),
        ensures
            r == self.contents(p.block as int)[p.offset + i],
    {
        let row_len = self.blocks[p.block].len();
        proof {
            assert(row_len <= usize::MAX);
        }
        let idx = p.offset + i;
        self.blocks[p.block][idx]
    }
}

/// Arena accounting: the usage counter never falls below the sum of the
/// sizes callers have requested, and exceeds it by at most a fixed amount
/// per block (so it stays within a small factor of the requested total once
/// blocks fill up).
pub proof fn lemma_arena_accounting(a: Arena)
    requires
        a.wf(),
    ensures
        a.usage_spec() >= a.total_requested(),
        a.usage_spec() <= a.total_requested() + a.num_blocks() * (BLOCK_SIZE + BLOCK_OVERHEAD),
{
}

/// Arena non-overlap: any two allocations the arena has handed out cover
/// disjoint byte ranges.
pub proof fn lemma_arena_no_overlap(a: Arena, k1: int, k2: int)
    requires
        a.wf(),
        0 <= k1 < k2 < a.allocs().len(),
    ensures
        ranges_disjoint(a.allocs()[k1], a.allocs()[k2]),
{
}

/// Every allocation the arena has handed out still lies inside its block.
pub proof fn lemma_arena_allocs_valid(a: Arena, k: int)
    requires
        a.wf(),
        0 <= k < a.allocs().len(),
    ensures
        a.valid_range(a.allocs()[k].0, a.allocs()[k].1, a.allocs()[k].2),
        a.allocs()[k].2 > 0,
{
}

} // verus!
