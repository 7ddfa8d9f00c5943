use memory_manager::{BuddyAllocator, FreeBlock, MemError, ARENA_SIZE};

#[test]
fn fresh_allocation_rounds_up_and_reclaims() {
    let mut allocator = BuddyAllocator::new();
    // Ten bytes round to a 16-byte class and come from address 0.
    assert_eq!(allocator.allocate(10).unwrap(), 0);
    // The next request starts past the rounded block.
    assert_eq!(allocator.allocate(1).unwrap(), 16);
    allocator.deallocate(16, 1).unwrap();
    // Releasing both restores the single arena-wide free block.
    allocator.deallocate(0, 10).unwrap();
    assert_eq!(allocator.free_blocks.len(), 1);
    assert_eq!(allocator.free_blocks[0], FreeBlock { start: 0, end: ARENA_SIZE });
}

#[test]
fn smallest_fitting_block_wins() {
    let mut allocator = BuddyAllocator::new();
    assert_eq!(allocator.allocate(16).unwrap(), 0);
    // Free classes now: [16,32), [32,64), [64,128), ... A 32-byte request
    // takes the exact 32-byte block, not a piece of a larger one.
    assert_eq!(allocator.allocate(32).unwrap(), 32);
    // And a 16-byte request takes the remaining 16-byte block.
    assert_eq!(allocator.allocate(16).unwrap(), 16);
}

#[test]
fn buddies_merge_only_with_their_sibling() {
    let mut allocator = BuddyAllocator::new();
    assert_eq!(allocator.allocate(16).unwrap(), 0);
    assert_eq!(allocator.allocate(16).unwrap(), 16);
    assert_eq!(allocator.allocate(32).unwrap(), 32);

    // [16, 32) comes back first: its buddy [0, 16) is still allocated,
    // so nothing merges.
    allocator.deallocate(16, 16).unwrap();
    assert_eq!(allocator.free_blocks[0], FreeBlock { start: 16, end: 32 });

    // [32, 64) is adjacent to [16, 32), but they are no buddies: the pair
    // stays split.  Coalescing on adjacency alone would be a defect.
    allocator.deallocate(32, 32).unwrap();
    assert_eq!(allocator.free_blocks[0], FreeBlock { start: 16, end: 32 });
    assert_eq!(allocator.free_blocks[1], FreeBlock { start: 32, end: 64 });

    // [0, 16) completes the chain: merges cascade up to the whole arena.
    allocator.deallocate(0, 16).unwrap();
    assert_eq!(allocator.free_blocks.len(), 1);
    assert_eq!(allocator.free_blocks[0], FreeBlock { start: 0, end: ARENA_SIZE });
}

#[test]
fn out_of_memory_exactly_when_nothing_fits() {
    let mut allocator = BuddyAllocator::new();
    assert_eq!(allocator.allocate(16384).unwrap(), 0);
    // Largest remaining class is 32768: a request of that size still works.
    assert_eq!(allocator.allocate(32768).unwrap(), 32768);
    // Now the largest class is 16384: one byte more is refused...
    assert_eq!(allocator.allocate(16385).unwrap_err(), MemError::OutOfMemory);
    // ...while a request of exactly the remaining class succeeds.
    assert_eq!(allocator.allocate(16384).unwrap(), 16384);
    // Nothing is left at all.
    assert_eq!(allocator.allocate(1).unwrap_err(), MemError::OutOfMemory);
}

#[test]
fn allocate_rejects_zero_and_oversize() {
    let mut allocator = BuddyAllocator::new();
    assert_eq!(allocator.allocate(0).unwrap_err(), MemError::InvalidSize);
    assert_eq!(allocator.allocate(ARENA_SIZE + 1).unwrap_err(), MemError::OutOfMemory);
    // The whole arena in one block is fine.
    assert_eq!(allocator.allocate(ARENA_SIZE).unwrap(), 0);
}

#[test]
fn deallocate_rejects_bad_ranges() {
    let mut allocator = BuddyAllocator::new();
    assert_eq!(allocator.deallocate(0, 0).unwrap_err(), MemError::InvalidRange);
    // Misaligned: 3 is no multiple of the rounded size 8.
    assert_eq!(allocator.deallocate(3, 5).unwrap_err(), MemError::InvalidRange);
    // Out of the arena.
    assert_eq!(allocator.deallocate(ARENA_SIZE, 1).unwrap_err(), MemError::InvalidRange);
    assert_eq!(allocator.deallocate(0, ARENA_SIZE + 1).unwrap_err(), MemError::InvalidRange);
}

#[test]
fn double_free_is_refused_without_corruption() {
    let mut allocator = BuddyAllocator::new();
    assert_eq!(allocator.allocate(16).unwrap(), 0);
    allocator.deallocate(0, 16).unwrap();
    // Freeing the same range again would overlap the free set.
    assert_eq!(allocator.deallocate(0, 16).unwrap_err(), MemError::InvariantViolation);
    // The free set is intact: the arena is one whole block again.
    assert_eq!(allocator.free_blocks.len(), 1);
    assert_eq!(allocator.free_blocks[0], FreeBlock { start: 0, end: ARENA_SIZE });
}

#[test]
fn free_block_split_halves() {
    let block = FreeBlock::new(32, 64);
    assert_eq!(block.size(), 32);
    let (lower, upper) = block.split(16);
    assert_eq!((lower.start, lower.end), (32, 48));
    assert_eq!((upper.start, upper.end), (48, 64));
}
