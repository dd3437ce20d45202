//! What an allocator hands out, and how it fails.

use vstd::prelude::*;

verus! {

/// The one way an allocator fails: it has no memory for the request.
#[derive(Clone, Copy, Debug, PartialEq, Eq, Structural)]
pub struct AllocError;

/// A run of `size` bytes that begins at address `start`.
#[derive(Clone, Copy, Debug, PartialEq, Eq, Structural)]
pub struct Block {
    pub start: usize,
    pub size: usize,
}

impl Block {
    /// The address just past the last byte.
    pub open spec fn end(&self) -> int {
        self.start + self.size
    }

    /// Whether `addr` is one of the block's bytes.
    pub open spec fn contains(&self, addr: int) -> bool {
        self.start <= addr < self.end()
    }

    /// Whether one of the two blocks ends where or before the other begins.
    pub open spec fn disjoint(&self, other: Block) -> bool {
        self.end() <= other.start || other.end() <= self.start
    }

    /// Whether every byte of the block is a byte of `outer`.
    pub open spec fn within(&self, outer: Block) -> bool {
        outer.start <= self.start && self.end() <= outer.end()
    }
}

/// Blocks that are disjoint share no byte.
pub proof fn lemma_disjoint_blocks_share_no_byte(a: Block, b: Block, addr: int)
    requires
        a.disjoint(b),
    ensures
        !(a.contains(addr) && b.contains(addr)),
{
}

} // verus!
