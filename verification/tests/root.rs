use gfx_mem::{
    Block, Exchange, MemoryError, MemoryHandle, MemoryTypeId, Region, Requirements, RootAllocator,
};

fn reqs(size: u64, alignment: u64, type_mask: u64) -> Requirements {
    Requirements { size, alignment, type_mask }
}

#[test]
fn root_round_trip() {
    let mut device = Exchange::new();
    let mut root = RootAllocator::new(MemoryTypeId(0));
    assert_eq!(root.memory_type(), MemoryTypeId(0));
    assert!(!root.is_used());
    let demand = root.demand(reqs(64 * 1024, 1, 1)).unwrap();
    assert_eq!(demand.memory_type, MemoryTypeId(0));
    assert_eq!(demand.size, 64 * 1024);
    device.supply(MemoryHandle(7));
    let block = root.allocate(&mut device, (), reqs(64 * 1024, 1, 1)).unwrap();
    assert_eq!(root.used(), 64 * 1024);
    assert!(root.is_used());
    assert_eq!(block.memory(), MemoryHandle(7));
    assert_eq!(block.range(), 0..64 * 1024);
    assert_eq!(block.size(), 64 * 1024);
    assert_eq!(device.pending(), None);
    root.free(&mut device, block);
    assert_eq!(root.used(), 0);
    assert!(!root.is_used());
    assert_eq!(device.take_released(), vec![MemoryHandle(7)]);
    assert!(root.dispose(&mut device).is_ok());
}

#[test]
fn root_fails_without_a_grant() {
    let mut device = Exchange::new();
    let mut root = RootAllocator::new(MemoryTypeId(3));
    let result = root.allocate(&mut device, (), reqs(16, 1, 8));
    assert!(matches!(result, Err(MemoryError::OutOfMemory)));
    assert_eq!(root.used(), 0);
    assert!(root.dispose(&mut device).is_ok());
}

#[test]
fn root_fails_where_the_count_has_no_room() {
    let mut device = Exchange::new();
    let mut root = RootAllocator::new(MemoryTypeId(0));
    device.supply(MemoryHandle(1));
    let first = root.allocate(&mut device, (), reqs(u64::MAX - 10, 1, 1)).unwrap();
    assert_eq!(root.demand(reqs(11, 1, 1)), None);
    assert!(root.demand(reqs(10, 1, 1)).is_some());
    device.supply(MemoryHandle(2));
    let result = root.allocate(&mut device, (), reqs(11, 1, 1));
    assert!(matches!(result, Err(MemoryError::OutOfMemory)));
    assert_eq!(device.pending(), Some(MemoryHandle(2)));
    assert_eq!(root.used(), u64::MAX - 10);
    root.free(&mut device, first);
    assert!(root.dispose(&mut device).is_ok());
}

#[test]
fn root_dispose_gives_a_used_allocator_back() {
    let mut device = Exchange::new();
    let mut root = RootAllocator::new(MemoryTypeId(0));
    device.supply(MemoryHandle(1));
    let block = root.allocate(&mut device, (), reqs(32, 1, 1)).unwrap();
    let mut root = match root.dispose(&mut device) {
        Ok(()) => panic!("a block is out"),
        Err(root) => root,
    };
    assert_eq!(root.used(), 32);
    root.free(&mut device, block);
    assert!(root.dispose(&mut device).is_ok());
    assert_eq!(device.take_released(), vec![MemoryHandle(1)]);
}

#[test]
fn root_ignores_the_type_mask() {
    let mut device = Exchange::new();
    let mut root = RootAllocator::new(MemoryTypeId(5));
    device.supply(MemoryHandle(1));
    let block = root.allocate(&mut device, (), reqs(32, 1, 1)).unwrap();
    assert_eq!(block.range(), 0..32);
    root.free(&mut device, block);
    assert!(root.dispose(&mut device).is_ok());
}

#[test]
fn raw_block_can_be_disposed_of() {
    let mut device = Exchange::new();
    let mut root = RootAllocator::new(MemoryTypeId(0));
    device.supply(MemoryHandle(1));
    let block = root.allocate(&mut device, (), reqs(32, 1, 1)).unwrap();
    let again = root.demand(reqs(8, 1, 1)).unwrap();
    assert_eq!(again.size, 8);
    device.supply(MemoryHandle(2));
    let other = root.allocate(&mut device, (), reqs(8, 1, 1)).unwrap();
    assert!(block.contains(&block));
    assert!(!block.contains(&other));
    // the block never comes back: the allocator counts it as out for good
    block.dispose();
    root.free(&mut device, other);
    assert_eq!(root.used(), 32);
    assert_eq!(device.take_released(), vec![MemoryHandle(2)]);
    match root.dispose(&mut device) {
        Ok(()) => panic!("a block is out"),
        Err(root) => std::mem::forget(root),
    }
}
