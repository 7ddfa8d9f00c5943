//! A block currently owned by the allocator: an address range `[start, end)`
//! that no logical id refers to.

use vstd::prelude::*;
use crate::arith::{ARENA_SIZE, is_power_of_two};

verus! {

/// A free address range `[start, end)` inside the arena.
#[derive(Debug, Clone, Copy, PartialEq, Eq, Structural)]
pub struct FreeBlock {
    pub start: usize,
    pub end: usize,
}

impl FreeBlock {
    /// The number of bytes in the range.
    pub open spec fn spec_size(self) -> int {
        self.end - self.start
    }

    /// Buddy shape: a non-empty power-of-two range inside the arena whose
    /// start is a multiple of its size.
    pub open spec fn wf(self) -> bool {
        &&& self.start < self.end
        &&& self.end <= ARENA_SIZE
        &&& is_power_of_two(self.spec_size())
        &&& self.start as int % self.spec_size() == 0
    }

    pub fn new(start: usize, end: usize) -> (r: FreeBlock)
        ensures
            r.start == start,
            r.end == end,
    {
        FreeBlock { start, end }
    }

    pub fn size(&self) -> (r: usize)
        requires
            self.start <= self.end,
        ensures
            r as int == self.spec_size(),
    {
        self.end - self.start
    }

    /// Cuts the block after its first `allocation_size` bytes, yielding the
    /// lower and the upper part.
    pub fn split(&self, allocation_size: usize) -> (r: (FreeBlock, FreeBlock))
        requires
            self.start <= self.end,
            allocation_size as int <= self.spec_size(),
        ensures
            r.0.start == self.start,
            r.0.end == self.start + allocation_size,
            r.1.start == self.start + allocation_size,
            r.1.end == self.end,
    {
        let new_start = self.start + allocation_size;
        (FreeBlock::new(self.start, new_start), FreeBlock::new(new_start, self.end))
    }
}

} // verus!
