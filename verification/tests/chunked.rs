use gfx_mem::{
    Block, ChunkedAllocator, ChunkedBlock, ChunkedNode, Exchange, MemoryError, MemoryHandle,
    MemoryTypeId, Region, Requirements, RootAllocator,
};

fn reqs(size: u64, alignment: u64) -> Requirements {
    Requirements { size, alignment, type_mask: 1 }
}

fn take(
    chunked: &mut ChunkedAllocator,
    root: &mut RootAllocator,
    device: &mut Exchange,
    next: &mut u64,
    reqs: Requirements,
) -> Result<ChunkedBlock, MemoryError> {
    if chunked.demand(root, reqs).is_some() {
        *next += 1;
        device.supply(MemoryHandle(*next));
    }
    chunked.allocate(root, device, (), reqs)
}

#[test]
fn chunked_picks_the_class_by_size_and_alignment() {
    let mut device = Exchange::new();
    let mut root = RootAllocator::new(MemoryTypeId(0));
    let mut chunked = ChunkedAllocator::new(8, 16, 4096, MemoryTypeId(0));
    let mut next = 0;
    assert_eq!(chunked.blocks_per_chunk(), 8);
    assert_eq!(chunked.min_block_size(), 16);
    assert_eq!(chunked.max_chunk_size(), 4096);
    assert_eq!(chunked.memory_type(), MemoryTypeId(0));
    assert_eq!(chunked.slot_size(reqs(17, 1)), Some(32));
    assert_eq!(chunked.slot_size(reqs(1, 64)), Some(64));
    assert_eq!(chunked.slot_size(reqs(16, 16)), Some(16));
    assert_eq!(chunked.slot_size(reqs(0, 0)), Some(16));
    assert_eq!(chunked.slot_size(reqs(4096, 1)), Some(4096));
    assert_eq!(chunked.slot_size(reqs(4097, 1)), None);
    assert_eq!(chunked.slot_size(reqs(1, 8192)), None);
    assert_eq!(chunked.demand(&root, reqs(17, 1)).unwrap().size, 256);
    let first = take(&mut chunked, &mut root, &mut device, &mut next, reqs(17, 1)).unwrap();
    assert_eq!(first.size(), 32);
    assert_eq!(first.range(), 0..32);
    assert_eq!(first.chunk_index(), 0);
    assert_eq!(chunked.demand(&root, reqs(1, 64)).unwrap().size, 512);
    let second = take(&mut chunked, &mut root, &mut device, &mut next, reqs(1, 64)).unwrap();
    assert_eq!(second.size(), 64);
    assert_eq!(second.range().start % 64, 0);
    assert_eq!(second.memory(), MemoryHandle(2));
    let third = take(&mut chunked, &mut root, &mut device, &mut next, reqs(8192, 1));
    assert!(matches!(third, Err(MemoryError::OutOfMemory)));
    assert_eq!(chunked.demand(&root, reqs(8192, 1)), None);
    assert_eq!(chunked.underlying_block(&first).range(), 0..256);
    assert_eq!(chunked.underlying_block(&second).range(), 0..512);
    assert_eq!(chunked.underlying_block(&second).memory(), MemoryHandle(2));
    assert!(chunked.is_used());
    chunked.free(&mut root, &mut device, first);
    assert!(chunked.is_used());
    chunked.free(&mut root, &mut device, second);
    assert!(!chunked.is_used());
    // the chunks stay until the allocator ends
    assert_eq!(root.used(), 768);
    assert_eq!(device.take_released(), vec![]);
    assert!(chunked.dispose(&mut root, &mut device).is_ok());
    assert_eq!(device.take_released(), vec![MemoryHandle(1), MemoryHandle(2)]);
    assert_eq!(root.used(), 0);
    assert!(root.dispose(&mut device).is_ok());
}

#[test]
fn chunked_hands_out_the_slot_that_came_back_last() {
    let mut device = Exchange::new();
    let mut root = RootAllocator::new(MemoryTypeId(0));
    let mut chunked = ChunkedAllocator::new(4, 16, 4096, MemoryTypeId(0));
    let mut next = 0;
    let mut blocks = Vec::new();
    for index in 0..4u64 {
        let block = take(&mut chunked, &mut root, &mut device, &mut next, reqs(16, 16)).unwrap();
        assert_eq!(block.range(), index * 16..index * 16 + 16);
        assert_eq!(block.chunk_index(), 0);
        blocks.push(block);
    }
    assert_eq!(next, 1);
    assert_eq!(root.used(), 64);
    let fifth = take(&mut chunked, &mut root, &mut device, &mut next, reqs(16, 16)).unwrap();
    assert_eq!(next, 2);
    assert_eq!(fifth.memory(), MemoryHandle(2));
    assert_eq!(fifth.chunk_index(), 1);
    assert_eq!(fifth.range(), 0..16);
    assert_eq!(root.used(), 128);
    let third = blocks.remove(2);
    let first = blocks.remove(0);
    chunked.free(&mut root, &mut device, third);
    chunked.free(&mut root, &mut device, first);
    let again = take(&mut chunked, &mut root, &mut device, &mut next, reqs(10, 2)).unwrap();
    assert_eq!(again.memory(), MemoryHandle(1));
    assert_eq!(again.range(), 0..16);
    let again_too = take(&mut chunked, &mut root, &mut device, &mut next, reqs(10, 2)).unwrap();
    assert_eq!(again_too.memory(), MemoryHandle(1));
    assert_eq!(again_too.range(), 32..48);
    let sixth = take(&mut chunked, &mut root, &mut device, &mut next, reqs(10, 2)).unwrap();
    assert_eq!(sixth.memory(), MemoryHandle(2));
    assert_eq!(sixth.range(), 16..32);
    assert_eq!(next, 2);
    blocks.push(fifth);
    blocks.push(again);
    blocks.push(again_too);
    blocks.push(sixth);
    let chunked = match chunked.dispose(&mut root, &mut device) {
        Ok(()) => panic!("blocks are out"),
        Err(chunked) => chunked,
    };
    let mut chunked = chunked;
    for block in blocks {
        chunked.free(&mut root, &mut device, block);
    }
    assert!(!chunked.is_used());
    assert!(chunked.dispose(&mut root, &mut device).is_ok());
    assert_eq!(device.take_released(), vec![MemoryHandle(1), MemoryHandle(2)]);
    assert!(root.dispose(&mut device).is_ok());
}

#[test]
fn chunked_has_no_spare_chunk_while_it_only_grows() {
    let mut device = Exchange::new();
    let mut root = RootAllocator::new(MemoryTypeId(0));
    let mut chunked = ChunkedAllocator::new(8, 16, 4096, MemoryTypeId(0));
    let mut next = 0;
    let mut blocks = Vec::new();
    for count in 1..=30u64 {
        blocks.push(take(&mut chunked, &mut root, &mut device, &mut next, reqs(16, 1)).unwrap());
        assert_eq!(next, (count + 7) / 8);
        assert_eq!(root.used(), (count + 7) / 8 * 128);
    }
    for first in 0..blocks.len() {
        for second in first + 1..blocks.len() {
            let (a, b) = (&blocks[first], &blocks[second]);
            assert!(
                a.memory() != b.memory()
                    || a.range().end <= b.range().start
                    || b.range().end <= a.range().start
            );
        }
    }
    for block in blocks {
        chunked.free(&mut root, &mut device, block);
    }
    assert_eq!(root.used(), 4 * 128);
    assert!(chunked.dispose(&mut root, &mut device).is_ok());
    assert!(root.dispose(&mut device).is_ok());
}

#[test]
fn chunked_caps_the_chunks() {
    let mut device = Exchange::new();
    let mut root = RootAllocator::new(MemoryTypeId(0));
    let mut chunked = ChunkedAllocator::new(8, 16, 4096, MemoryTypeId(0));
    let mut next = 0;
    assert_eq!(chunked.demand(&root, reqs(1000, 1)).unwrap().size, 4096);
    let mut blocks = Vec::new();
    for index in 0..5u64 {
        let block = take(&mut chunked, &mut root, &mut device, &mut next, reqs(1000, 1)).unwrap();
        assert_eq!(block.size(), 1024);
        assert_eq!(block.chunk_index() as u64, index / 4);
        assert_eq!(block.range().start, index % 4 * 1024);
        blocks.push(block);
    }
    assert_eq!(next, 2);
    let whole = take(&mut chunked, &mut root, &mut device, &mut next, reqs(4096, 4096)).unwrap();
    assert_eq!(whole.range(), 0..4096);
    assert_eq!(next, 3);
    blocks.push(whole);
    for block in blocks {
        chunked.free(&mut root, &mut device, block);
    }
    assert!(chunked.dispose(&mut root, &mut device).is_ok());
    assert_eq!(device.take_released(), vec![MemoryHandle(1), MemoryHandle(2), MemoryHandle(3)]);
    assert!(root.dispose(&mut device).is_ok());
}

#[test]
fn chunked_fails_where_a_chunk_has_no_room_for_a_slot() {
    let mut device = Exchange::new();
    let mut root = RootAllocator::new(MemoryTypeId(0));
    let mut chunked = ChunkedAllocator::new(8, 64, 16, MemoryTypeId(0));
    assert_eq!(chunked.demand(&root, reqs(10, 1)), None);
    device.supply(MemoryHandle(1));
    let result = chunked.allocate(&mut root, &mut device, (), reqs(10, 1));
    assert!(matches!(result, Err(MemoryError::OutOfMemory)));
    assert_eq!(device.pending(), Some(MemoryHandle(1)));
    assert!(chunked.dispose(&mut root, &mut device).is_ok());
    let mut no_slots = ChunkedAllocator::new(0, 16, 4096, MemoryTypeId(0));
    let result = no_slots.allocate(&mut root, &mut device, (), reqs(10, 1));
    assert!(matches!(result, Err(MemoryError::OutOfMemory)));
    assert!(no_slots.dispose(&mut root, &mut device).is_ok());
    assert!(root.dispose(&mut device).is_ok());
}

#[test]
fn chunked_rejects_other_memory_types_and_missing_grants() {
    let mut device = Exchange::new();
    let mut root = RootAllocator::new(MemoryTypeId(1));
    let mut chunked = ChunkedAllocator::new(8, 16, 4096, MemoryTypeId(1));
    let wrong = Requirements { size: 8, alignment: 1, type_mask: 0b101 };
    let result = chunked.allocate(&mut root, &mut device, (), wrong);
    assert!(matches!(result, Err(MemoryError::NoCompatibleMemoryType)));
    let too_large = Requirements { size: 8192, alignment: 1, type_mask: 0b101 };
    let result = chunked.allocate(&mut root, &mut device, (), too_large);
    assert!(matches!(result, Err(MemoryError::OutOfMemory)));
    let right = Requirements { size: 8, alignment: 1, type_mask: 0b010 };
    let result = chunked.allocate(&mut root, &mut device, (), right);
    assert!(matches!(result, Err(MemoryError::OutOfMemory)));
    assert!(!chunked.is_used());
    device.supply(MemoryHandle(9));
    let block = chunked.allocate(&mut root, &mut device, (), right).unwrap();
    assert_eq!(block.memory(), MemoryHandle(9));
    chunked.free(&mut root, &mut device, block);
    assert!(chunked.dispose(&mut root, &mut device).is_ok());
    assert!(root.dispose(&mut device).is_ok());
}

#[test]
fn chunked_node_recycles_its_slots() {
    let mut device = Exchange::new();
    let mut root = RootAllocator::new(MemoryTypeId(0));
    let mut node = ChunkedNode::new(96, 32, MemoryTypeId(0));
    assert_eq!(node.blocks_per_chunk(), 3);
    assert_eq!(node.block_size(), 32);
    assert_eq!(node.chunk_size(), 96);
    assert!(!node.is_used());
    assert_eq!(node.demand(&root, reqs(1, 1)).unwrap().size, 96);
    device.supply(MemoryHandle(4));
    let first = node.allocate(&mut root, &mut device, (), reqs(1, 1)).unwrap();
    let second = node.allocate(&mut root, &mut device, (), reqs(1, 1)).unwrap();
    assert_eq!(first.range(), 0..32);
    assert_eq!(second.range(), 32..64);
    assert_eq!(node.chunk(0).range(), 0..96);
    assert!(node.is_used());
    node.free(first);
    let third = node.allocate(&mut root, &mut device, (), reqs(1, 1)).unwrap();
    assert_eq!(third.range(), 0..32);
    node.free(second);
    node.free(third);
    assert!(!node.is_used());
    assert!(node.dispose(&mut root, &mut device).is_ok());
    assert_eq!(device.take_released(), vec![MemoryHandle(4)]);
    assert!(root.dispose(&mut device).is_ok());
}
