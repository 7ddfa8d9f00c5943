//! A region-based buddy memory allocator together with the block-tracking
//! manager built on top of it.
//!
//! The allocator partitions a fixed-size byte arena into power-of-two blocks,
//! serves size-classed allocation requests, and coalesces freed blocks back
//! into larger free regions using the buddy-system rule.  The manager maps
//! logical identifiers to allocated regions and mediates reads, writes and
//! growth of the data stored in them.

pub mod arith;
pub mod error;
pub mod free_block;
pub mod allocated_block;
pub mod memory_block;
pub mod buddy_allocator;
pub mod memory_manager;

pub use arith::ARENA_SIZE;
pub use error::MemError;
pub use free_block::FreeBlock;
pub use allocated_block::AllocatedBlock;
pub use memory_block::MemoryBlock;
pub use buddy_allocator::BuddyAllocator;
pub use memory_manager::MemoryManager;
