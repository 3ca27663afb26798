use gfx_mem::{
    ArenaAllocator, ArenaBlock, Block, Exchange, MemoryError, MemoryHandle, MemoryTypeId, Region,
    Requirements, RootAllocator,
};

fn reqs(size: u64, alignment: u64) -> Requirements {
    Requirements { size, alignment, type_mask: 1 }
}

fn take(
    arena: &mut ArenaAllocator,
    root: &mut RootAllocator,
    device: &mut Exchange,
    next: &mut u64,
    reqs: Requirements,
) -> Result<ArenaBlock, MemoryError> {
    if arena.demand(root, reqs).is_some() {
        *next += 1;
        device.supply(MemoryHandle(*next));
    }
    arena.allocate(root, device, (), reqs)
}

#[test]
fn arena_reclaims_chunks_in_order() {
    let mut device = Exchange::new();
    let mut root = RootAllocator::new(MemoryTypeId(0));
    let mut arena = ArenaAllocator::new(MemoryTypeId(0), 256);
    let mut next = 0;
    assert_eq!(arena.chunk_size(), 256);
    assert_eq!(arena.memory_type(), MemoryTypeId(0));
    assert!(!arena.is_used());
    let mut blocks = Vec::new();
    for _ in 0..8 {
        blocks.push(take(&mut arena, &mut root, &mut device, &mut next, reqs(64, 64)).unwrap());
    }
    assert_eq!(next, 2);
    assert_eq!(root.used(), 512);
    for (index, block) in blocks.iter().enumerate() {
        let chunk = index as u64 / 4;
        let place = index as u64 % 4;
        assert_eq!(block.memory(), MemoryHandle(chunk + 1));
        assert_eq!(block.range(), place * 64..place * 64 + 64);
        assert_eq!(block.chunk_number(), chunk);
        assert_eq!(arena.underlying_block(block).range(), 0..256);
        assert_eq!(arena.underlying_block(block).memory(), MemoryHandle(chunk + 1));
    }
    let mut blocks = blocks.into_iter();
    for _ in 0..4 {
        arena.free(&mut root, &mut device, blocks.next().unwrap());
    }
    // the first chunk has no block out: it has become the hot node again,
    // and the second one waits in the queue
    assert!(arena.is_used());
    assert_eq!(root.used(), 512);
    assert_eq!(device.take_released(), vec![]);
    for _ in 0..3 {
        arena.free(&mut root, &mut device, blocks.next().unwrap());
    }
    assert!(arena.is_used());
    assert_eq!(device.take_released(), vec![]);
    arena.free(&mut root, &mut device, blocks.next().unwrap());
    assert!(!arena.is_used());
    assert_eq!(root.used(), 256);
    assert_eq!(device.take_released(), vec![MemoryHandle(2)]);
    assert!(arena.dispose(&mut root, &mut device).is_ok());
    assert_eq!(root.used(), 0);
    assert_eq!(device.take_released(), vec![MemoryHandle(1)]);
    assert!(root.dispose(&mut device).is_ok());
}

#[test]
fn arena_aligns_and_rounds_chunks_up() {
    let mut device = Exchange::new();
    let mut root = RootAllocator::new(MemoryTypeId(0));
    let mut arena = ArenaAllocator::new(MemoryTypeId(0), 256);
    let mut next = 0;
    let demand = arena.demand(&root, reqs(300, 1)).unwrap();
    assert_eq!(demand.size, 512);
    assert_eq!(demand.memory_type, MemoryTypeId(0));
    let first = take(&mut arena, &mut root, &mut device, &mut next, reqs(300, 1)).unwrap();
    assert_eq!(first.range(), 0..300);
    assert_eq!(arena.demand(&root, reqs(10, 128)), None);
    let second = take(&mut arena, &mut root, &mut device, &mut next, reqs(10, 128)).unwrap();
    assert_eq!(second.range(), 384..394);
    assert_eq!(second.range().start % 128, 0);
    // 118 bytes are left, but not behind the next multiple of 512
    assert_eq!(arena.demand(&root, reqs(1, 512)).unwrap().size, 256);
    let third = take(&mut arena, &mut root, &mut device, &mut next, reqs(1, 512)).unwrap();
    assert_eq!(third.memory(), MemoryHandle(2));
    assert_eq!(third.range(), 0..1);
    assert_eq!(third.chunk_number(), 1);
    // a request for nothing takes one byte
    let fourth = take(&mut arena, &mut root, &mut device, &mut next, reqs(0, 1)).unwrap();
    assert_eq!(fourth.range(), 1..2);
    assert_eq!(root.used(), 768);
    arena.free(&mut root, &mut device, second);
    arena.free(&mut root, &mut device, third);
    arena.free(&mut root, &mut device, fourth);
    assert!(arena.is_used());
    let mut arena = match arena.dispose(&mut root, &mut device) {
        Ok(()) => panic!("a block is out"),
        Err(arena) => arena,
    };
    arena.free(&mut root, &mut device, first);
    assert!(!arena.is_used());
    assert!(arena.dispose(&mut root, &mut device).is_ok());
    let mut released = device.take_released();
    released.sort_by_key(|memory| memory.0);
    assert_eq!(released, vec![MemoryHandle(1), MemoryHandle(2)]);
    assert!(root.dispose(&mut device).is_ok());
}

#[test]
fn arena_rejects_other_memory_types() {
    let mut device = Exchange::new();
    let mut root = RootAllocator::new(MemoryTypeId(2));
    let mut arena = ArenaAllocator::new(MemoryTypeId(2), 64);
    let wrong = Requirements { size: 8, alignment: 1, type_mask: 0b1011 };
    assert_eq!(arena.demand(&root, wrong), None);
    device.supply(MemoryHandle(1));
    let result = arena.allocate(&mut root, &mut device, (), wrong);
    assert!(matches!(result, Err(MemoryError::NoCompatibleMemoryType)));
    assert_eq!(device.pending(), Some(MemoryHandle(1)));
    let right = Requirements { size: 8, alignment: 1, type_mask: 0b0100 };
    let block = arena.allocate(&mut root, &mut device, (), right).unwrap();
    assert_eq!(block.memory(), MemoryHandle(1));
    arena.free(&mut root, &mut device, block);
    assert!(arena.dispose(&mut root, &mut device).is_ok());
    assert!(root.dispose(&mut device).is_ok());
}

#[test]
fn arena_fails_without_a_grant() {
    let mut device = Exchange::new();
    let mut root = RootAllocator::new(MemoryTypeId(0));
    let mut arena = ArenaAllocator::new(MemoryTypeId(0), 64);
    let result = arena.allocate(&mut root, &mut device, (), reqs(8, 1));
    assert!(matches!(result, Err(MemoryError::OutOfMemory)));
    assert!(!arena.is_used());
    assert_eq!(root.used(), 0);
    assert!(arena.dispose(&mut root, &mut device).is_ok());
    assert!(root.dispose(&mut device).is_ok());
}

#[test]
fn arena_returns_a_drained_hot_node_when_it_opens_a_chunk() {
    let mut device = Exchange::new();
    let mut root = RootAllocator::new(MemoryTypeId(0));
    let mut arena = ArenaAllocator::new(MemoryTypeId(0), 64);
    let mut next = 0;
    let first = take(&mut arena, &mut root, &mut device, &mut next, reqs(64, 1)).unwrap();
    arena.free(&mut root, &mut device, first);
    assert!(!arena.is_used());
    assert_eq!(root.used(), 64);
    let second = take(&mut arena, &mut root, &mut device, &mut next, reqs(64, 1)).unwrap();
    assert_eq!(second.memory(), MemoryHandle(2));
    assert_eq!(second.chunk_number(), 0);
    assert_eq!(root.used(), 64);
    assert_eq!(device.take_released(), vec![MemoryHandle(1)]);
    arena.free(&mut root, &mut device, second);
    assert!(arena.dispose(&mut root, &mut device).is_ok());
    assert!(root.dispose(&mut device).is_ok());
}

#[test]
fn arena_round_trip_keeps_the_state_of_use() {
    let mut device = Exchange::new();
    let mut root = RootAllocator::new(MemoryTypeId(0));
    let mut arena = ArenaAllocator::new(MemoryTypeId(0), 128);
    let mut next = 0;
    let before = arena.is_used();
    let block = take(&mut arena, &mut root, &mut device, &mut next, reqs(100, 4)).unwrap();
    assert!(arena.is_used());
    arena.free(&mut root, &mut device, block);
    assert_eq!(arena.is_used(), before);
    let kept = take(&mut arena, &mut root, &mut device, &mut next, reqs(10, 4)).unwrap();
    let before = arena.is_used();
    let block = take(&mut arena, &mut root, &mut device, &mut next, reqs(100, 4)).unwrap();
    arena.free(&mut root, &mut device, block);
    assert_eq!(arena.is_used(), before);
    arena.free(&mut root, &mut device, kept);
    assert!(arena.dispose(&mut root, &mut device).is_ok());
    assert!(root.dispose(&mut device).is_ok());
}

#[test]
fn arena_blocks_do_not_overlap() {
    let mut device = Exchange::new();
    let mut root = RootAllocator::new(MemoryTypeId(0));
    let mut arena = ArenaAllocator::new(MemoryTypeId(0), 1024);
    let mut next = 0;
    let mut blocks = Vec::new();
    for index in 0..40u64 {
        let request = reqs(1 + index * 7 % 90, 1 << (index % 6));
        let block = take(&mut arena, &mut root, &mut device, &mut next, request).unwrap();
        assert_eq!(block.range().start % request.alignment, 0);
        assert_eq!(block.size(), request.size);
        blocks.push(block);
    }
    for first in 0..blocks.len() {
        for second in first + 1..blocks.len() {
            let (a, b) = (&blocks[first], &blocks[second]);
            assert!(
                a.memory() != b.memory()
                    || a.range().end <= b.range().start
                    || b.range().end <= a.range().start
            );
        }
    }
    for block in blocks {
        arena.free(&mut root, &mut device, block);
    }
    assert!(!arena.is_used());
    assert!(arena.dispose(&mut root, &mut device).is_ok());
    assert!(root.dispose(&mut device).is_ok());
}

#[test]
fn arena_without_a_chunk_size_opens_no_chunk() {
    let mut device = Exchange::new();
    let mut root = RootAllocator::new(MemoryTypeId(0));
    let mut arena = ArenaAllocator::new(MemoryTypeId(0), 0);
    assert_eq!(arena.demand(&root, reqs(8, 1)), None);
    device.supply(MemoryHandle(1));
    let result = arena.allocate(&mut root, &mut device, (), reqs(8, 1));
    assert!(matches!(result, Err(MemoryError::OutOfMemory)));
    assert_eq!(device.pending(), Some(MemoryHandle(1)));
    assert!(arena.dispose(&mut root, &mut device).is_ok());
    assert!(root.dispose(&mut device).is_ok());
}

#[test]
fn arena_keeps_its_tags_through_rotation() {
    let mut device = Exchange::new();
    let mut root = RootAllocator::new(MemoryTypeId(0));
    let mut arena = ArenaAllocator::new(MemoryTypeId(0), 64);
    let mut next = 0;
    let a = take(&mut arena, &mut root, &mut device, &mut next, reqs(64, 1)).unwrap();
    let b = take(&mut arena, &mut root, &mut device, &mut next, reqs(64, 1)).unwrap();
    let c = take(&mut arena, &mut root, &mut device, &mut next, reqs(64, 1)).unwrap();
    let d = take(&mut arena, &mut root, &mut device, &mut next, reqs(64, 1)).unwrap();
    assert_eq!(
        (a.chunk_number(), b.chunk_number(), c.chunk_number(), d.chunk_number()),
        (0, 1, 2, 3)
    );
    assert_eq!(root.used(), 256);
    // the chunks in the middle of the queue wait for the oldest one
    arena.free(&mut root, &mut device, b);
    arena.free(&mut root, &mut device, c);
    assert_eq!(device.take_released(), vec![]);
    assert_eq!(root.used(), 256);
    // the oldest chunk changes places with the hot node, the others go back
    arena.free(&mut root, &mut device, a);
    assert_eq!(device.take_released(), vec![MemoryHandle(2), MemoryHandle(3)]);
    assert_eq!(root.used(), 128);
    assert_eq!(arena.underlying_block(&d).memory(), MemoryHandle(4));
    // the hot node is full and has no block out: it goes back for a new one
    let e = take(&mut arena, &mut root, &mut device, &mut next, reqs(64, 1)).unwrap();
    assert_eq!(e.memory(), MemoryHandle(5));
    assert_eq!(e.chunk_number(), 4);
    assert_eq!(device.take_released(), vec![MemoryHandle(1)]);
    assert_eq!(arena.underlying_block(&d).memory(), MemoryHandle(4));
    assert_eq!(arena.underlying_block(&e).memory(), MemoryHandle(5));
    arena.free(&mut root, &mut device, d);
    assert_eq!(device.take_released(), vec![]);
    assert_eq!(arena.underlying_block(&e).memory(), MemoryHandle(5));
    let f = take(&mut arena, &mut root, &mut device, &mut next, reqs(64, 1)).unwrap();
    assert_eq!(f.memory(), MemoryHandle(6));
    assert_eq!(f.chunk_number(), 5);
    assert_eq!(device.take_released(), vec![MemoryHandle(4)]);
    arena.free(&mut root, &mut device, f);
    assert!(arena.is_used());
    arena.free(&mut root, &mut device, e);
    assert!(!arena.is_used());
    assert_eq!(device.take_released(), vec![MemoryHandle(5)]);
    assert!(arena.dispose(&mut root, &mut device).is_ok());
    assert_eq!(device.take_released(), vec![MemoryHandle(6)]);
    assert_eq!(root.used(), 0);
    assert!(root.dispose(&mut device).is_ok());
}
