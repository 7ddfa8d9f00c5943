//! A block bound to a logical id, owned by the memory manager.

use vstd::prelude::*;
use crate::arith::{ARENA_SIZE, is_power_of_two};

verus! {

/// An allocated address range `[start, end)` tagged with the caller-visible
/// logical id and the index of its payload in the manager's data store.
#[derive(Debug, Clone, Copy, PartialEq, Eq, Structural)]
pub struct AllocatedBlock {
    pub id: usize,
    pub start: usize,
    pub end: usize,
    pub data_index: usize,
}

impl AllocatedBlock {
    /// The number of bytes in the range.
    pub open spec fn spec_size(self) -> int {
        self.end - self.start
    }

    /// Buddy shape: a non-empty power-of-two range inside the arena whose
    /// start is a multiple of its size.
    pub open spec fn wf(self) -> bool {
        &&& self.start < self.end
        &&& self.end <= ARENA_SIZE
        &&& is_power_of_two(self.spec_size())
        &&& self.start as int % self.spec_size() == 0
    }

    pub fn new(id: usize, start: usize, end: usize, data_index: usize) -> (r: AllocatedBlock)
        ensures
            r.id == id,
            r.start == start,
            r.end == end,
            r.data_index == data_index,
    {
        AllocatedBlock { id, start, end, data_index }
    }

    pub fn size(&self) -> (r: usize)
        requires
            self.start <= self.end,
        ensures
            r as int == self.spec_size(),
    {
        self.end - self.start
    }
}

} // verus!
