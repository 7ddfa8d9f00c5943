//! Either kind of block in the arena, as reported by the manager's snapshot.

use vstd::prelude::*;
use crate::free_block::FreeBlock;
use crate::allocated_block::AllocatedBlock;

verus! {

/// One entry of the arena's address map: a free region or an allocated one.
#[derive(Debug, Clone, Copy, PartialEq, Eq, Structural)]
pub enum MemoryBlock {
    Free(FreeBlock),
    Allocated(AllocatedBlock),
}

impl MemoryBlock {
    pub open spec fn spec_start(self) -> int {
        match self {
            MemoryBlock::Free(block) => block.start as int,
            MemoryBlock::Allocated(block) => block.start as int,
        }
    }

    pub open spec fn spec_end(self) -> int {
        match self {
            MemoryBlock::Free(block) => block.end as int,
            MemoryBlock::Allocated(block) => block.end as int,
        }
    }

    pub open spec fn spec_size(self) -> int {
        self.spec_end() - self.spec_start()
    }

    pub fn start(&self) -> (r: usize)
        ensures
            r as int == self.spec_start(),
    {
        match self {
            MemoryBlock::Free(block) => block.start,
            MemoryBlock::Allocated(block) => block.start,
        }
    }

    pub fn end(&self) -> (r: usize)
        ensures
            r as int == self.spec_end(),
    {
        match self {
            MemoryBlock::Free(block) => block.end,
            MemoryBlock::Allocated(block) => block.end,
        }
    }

    pub fn size(&self) -> (r: usize)
        requires
            self.spec_start() <= self.spec_end(),
        ensures
            r as int == self.spec_size(),
    {
        self.end() - self.start()
    }
}

} // verus!
