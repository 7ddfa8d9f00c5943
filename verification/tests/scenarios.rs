use memory_manager::{MemError, MemoryBlock, MemoryManager, ARENA_SIZE};

#[test]
fn small_insert_then_grow_in_padding() {
    // Arena size 65536; a five-byte insert gets id 0 and an 8-byte block.
    let mut manager = MemoryManager::new();
    let id = manager.insert(5, b"Hello".to_vec()).unwrap();
    assert_eq!(id, 0);
    let block = manager.find(0).unwrap();
    assert_eq!(block.end - block.start, 8);
    assert_eq!(manager.get_data(block), b"Hello");

    // Seven bytes still fit the padded 8-byte block: updated in place.
    let (old_start, old_end) = {
        let b = manager.find(0).unwrap();
        (b.start, b.end)
    };
    manager.update(0, b"Goodbye".to_vec()).unwrap();
    let block = manager.find(0).unwrap();
    assert_eq!(manager.get_data(block), b"Goodbye");
    assert_eq!((block.start, block.end), (old_start, old_end));
}

#[test]
fn delete_makes_id_unfindable() {
    let mut manager = MemoryManager::new();
    let id = manager.insert(10, b"HelloWorld".to_vec()).unwrap();
    manager.delete(id).unwrap();
    assert_eq!(manager.find(id).unwrap_err(), MemError::NotFound);
    // The id is never reassigned: the next insert gets a fresh one.
    let id2 = manager.insert(3, b"abc".to_vec()).unwrap();
    assert_ne!(id2, id);
}

#[test]
fn zero_size_insert_is_invalid() {
    let mut manager = MemoryManager::new();
    assert_eq!(manager.insert(0, Vec::new()).unwrap_err(), MemError::InvalidSize);
}

#[test]
fn payload_is_zero_padded_in_arena() {
    let mut manager = MemoryManager::new();
    let id = manager.insert(8, b"ab".to_vec()).unwrap();
    let block = manager.find(id).unwrap();
    let bytes = manager.get_buffer_slice(block.start, block.end);
    assert_eq!(bytes, &[b'a', b'b', 0, 0, 0, 0, 0, 0]);
    // The reported payload carries no padding.
    let block = manager.find(id).unwrap();
    assert_eq!(manager.get_data(block), b"ab");
}

#[test]
fn update_relocation_keeps_id_and_neighbours() {
    let mut manager = MemoryManager::new();
    let id0 = manager.insert(4, b"abcd".to_vec()).unwrap();
    let id1 = manager.insert(4, b"wxyz".to_vec()).unwrap();
    let old_start = manager.find(id0).unwrap().start;

    // Ten bytes outgrow the 4-byte block: the id moves to a 16-byte region.
    manager.update(id0, b"0123456789".to_vec()).unwrap();
    let moved = manager.find(id0).unwrap();
    assert_eq!(moved.id, id0);
    assert_ne!(moved.start, old_start);
    assert_eq!(moved.end - moved.start, 16);
    let moved = manager.find(id0).unwrap();
    assert_eq!(manager.get_data(moved), b"0123456789");

    // The neighbour is untouched.
    let other = manager.find(id1).unwrap();
    assert_eq!(manager.get_data(other), b"wxyz");
}

#[test]
fn update_errors() {
    let mut manager = MemoryManager::new();
    assert_eq!(manager.update(7, b"x".to_vec()).unwrap_err(), MemError::NotFound);
    let id = manager.insert(4, b"abcd".to_vec()).unwrap();
    assert_eq!(manager.update(id, Vec::new()).unwrap_err(), MemError::InvalidSize);
    // Growing past everything the allocator could serve fails, and the
    // old payload stays.
    let err = manager.update(id, vec![7u8; ARENA_SIZE]).unwrap_err();
    assert_eq!(err, MemError::OutOfMemory);
    let block = manager.find(id).unwrap();
    assert_eq!(manager.get_data(block), b"abcd");
}

#[test]
fn insert_larger_than_arena_is_out_of_memory() {
    let mut manager = MemoryManager::new();
    let size = ARENA_SIZE + 1;
    assert_eq!(manager.insert(size, vec![0u8; size]).unwrap_err(), MemError::OutOfMemory);
}

#[test]
fn dump_partitions_the_arena() {
    let mut manager = MemoryManager::new();
    let id0 = manager.insert(100, vec![1u8; 100]).unwrap();
    let id1 = manager.insert(300, vec![2u8; 300]).unwrap();
    manager.delete(id0).unwrap();

    // The snapshot walks the arena in address order with no gap and no
    // overlap: conservation and non-overlap, observed concretely.
    let snapshot = manager.dump();
    assert!(snapshot.len() >= 2);
    assert_eq!(snapshot[0].start(), 0);
    let mut total = 0usize;
    for k in 0..snapshot.len() {
        let e = &snapshot[k];
        assert!(e.start() < e.end());
        total += e.size();
        if k + 1 < snapshot.len() {
            assert_eq!(e.end(), snapshot[k + 1].start());
        }
    }
    assert_eq!(snapshot[snapshot.len() - 1].end(), ARENA_SIZE);
    assert_eq!(total, ARENA_SIZE);

    // The allocated entry is the one live block, with its data index.
    let live = manager.find(id1).unwrap();
    let mut seen = false;
    for e in &snapshot {
        if let MemoryBlock::Allocated(ab) = e {
            assert_eq!(ab.id, id1);
            assert_eq!((ab.start, ab.end), (live.start, live.end));
            seen = true;
        }
    }
    assert!(seen);
}

#[test]
fn deleting_everything_restores_one_free_block() {
    // Full reclamation: whatever the deletion order, the free set coalesces
    // back to the single arena-wide block.
    let mut manager = MemoryManager::new();
    let mut ids = Vec::new();
    for &size in &[100usize, 37, 512, 64, 1000] {
        ids.push(manager.insert(size, vec![9u8; size]).unwrap());
    }
    for &k in &[3usize, 0, 4, 1, 2] {
        manager.delete(ids[k]).unwrap();
    }
    let snapshot = manager.dump();
    assert_eq!(snapshot.len(), 1);
    match snapshot[0] {
        MemoryBlock::Free(fb) => {
            assert_eq!((fb.start, fb.end), (0, ARENA_SIZE));
        },
        MemoryBlock::Allocated(_) => panic!("expected a free block"),
    }
}
