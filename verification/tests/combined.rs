use gfx_mem::{
    Block, CombinedAllocator, CombinedBlock, CombinedTag, Exchange, MemoryError, MemoryHandle,
    MemoryTypeId, Region, Requirements, Type,
};

const MIB: u64 = 1024 * 1024;

fn reqs(size: u64, alignment: u64) -> Requirements {
    Requirements { size, alignment, type_mask: 1 }
}

fn take(
    combined: &mut CombinedAllocator,
    device: &mut Exchange,
    next: &mut u64,
    request: Type,
    reqs: Requirements,
) -> Result<CombinedBlock, MemoryError> {
    if combined.demand(request, reqs).is_some() {
        *next += 1;
        device.supply(MemoryHandle(*next));
    }
    combined.allocate(device, request, reqs)
}

#[test]
fn combined_routes_by_kind_and_size() {
    let mut device = Exchange::new();
    let mut combined = CombinedAllocator::new(MemoryTypeId(0), 1024, 8, 64, 4 * MIB);
    let mut next = 0;
    assert_eq!(combined.memory_type(), MemoryTypeId(0));
    assert!(!combined.is_used());
    assert_eq!(combined.granted_size(Type::ShortLived, reqs(100, 1)), 100);
    assert_eq!(combined.granted_size(Type::General, reqs(100, 1)), 128);
    assert_eq!(combined.granted_size(Type::General, reqs(16 * MIB, 1)), 16 * MIB);
    assert_eq!(combined.demand(Type::ShortLived, reqs(100, 1)).unwrap().size, 1024);
    let short = take(&mut combined, &mut device, &mut next, Type::ShortLived, reqs(100, 1)).unwrap();
    assert_eq!(short.origin(), CombinedTag::Arena(0));
    assert_eq!(short.range(), 0..100);
    assert_eq!(combined.demand(Type::General, reqs(100, 1)).unwrap().size, 1024);
    let general = take(&mut combined, &mut device, &mut next, Type::General, reqs(100, 1)).unwrap();
    assert_eq!(general.origin(), CombinedTag::Chunked(0));
    assert_eq!(general.size(), 128);
    assert_eq!(combined.demand(Type::General, reqs(16 * MIB, 1)).unwrap().size, 16 * MIB);
    let large = take(&mut combined, &mut device, &mut next, Type::General, reqs(16 * MIB, 1)).unwrap();
    assert_eq!(large.origin(), CombinedTag::Root);
    assert_eq!(large.range(), 0..16 * MIB);
    assert_eq!(large.memory(), MemoryHandle(3));
    assert_eq!(combined.allocated(), 1024 + 1024 + 16 * MIB);
    assert_eq!(combined.used(), 100 + 128 + 16 * MIB);
    assert!(combined.is_used());
    combined.free(&mut device, short);
    assert_eq!(combined.used(), 128 + 16 * MIB);
    assert!(combined.is_used());
    combined.free(&mut device, large);
    assert_eq!(combined.used(), 128);
    assert_eq!(device.take_released(), vec![MemoryHandle(3)]);
    assert!(combined.is_used());
    let mut combined = match combined.dispose(&mut device) {
        Ok(()) => panic!("a block is out"),
        Err(combined) => combined,
    };
    combined.free(&mut device, general);
    assert!(!combined.is_used());
    assert_eq!(combined.used(), 0);
    assert_eq!(combined.allocated(), 2048);
    assert!(combined.dispose(&mut device).is_ok());
    assert_eq!(device.take_released(), vec![MemoryHandle(1), MemoryHandle(2)]);
}

#[test]
fn combined_sends_what_a_slot_holds_to_the_size_classes() {
    let mut device = Exchange::new();
    let mut combined = CombinedAllocator::new(MemoryTypeId(0), 1024, 2, 64, 4096);
    let mut next = 0;
    let fits = take(&mut combined, &mut device, &mut next, Type::General, reqs(4096, 1)).unwrap();
    assert_eq!(fits.origin(), CombinedTag::Chunked(0));
    assert_eq!(fits.size(), 4096);
    let beyond = take(&mut combined, &mut device, &mut next, Type::General, reqs(4097, 1)).unwrap();
    assert_eq!(beyond.origin(), CombinedTag::Root);
    assert_eq!(beyond.size(), 4097);
    // the alignment is too large for a slot, the size is not
    let result = take(&mut combined, &mut device, &mut next, Type::General, reqs(16, 8192));
    assert!(matches!(result, Err(MemoryError::OutOfMemory)));
    combined.free(&mut device, fits);
    combined.free(&mut device, beyond);
    assert!(combined.dispose(&mut device).is_ok());
}

#[test]
fn combined_fails_as_its_parts_do() {
    let mut device = Exchange::new();
    let mut combined = CombinedAllocator::new(MemoryTypeId(1), 1024, 8, 64, 4096);
    let wrong = Requirements { size: 10, alignment: 1, type_mask: 0b01 };
    let right = Requirements { size: 10, alignment: 1, type_mask: 0b10 };
    let large = Requirements { size: 10000, alignment: 1, type_mask: 0b01 };
    assert!(matches!(
        combined.allocate(&mut device, Type::ShortLived, wrong),
        Err(MemoryError::NoCompatibleMemoryType)
    ));
    assert!(matches!(
        combined.allocate(&mut device, Type::General, wrong),
        Err(MemoryError::NoCompatibleMemoryType)
    ));
    assert!(matches!(
        combined.allocate(&mut device, Type::ShortLived, right),
        Err(MemoryError::OutOfMemory)
    ));
    assert!(matches!(
        combined.allocate(&mut device, Type::General, right),
        Err(MemoryError::OutOfMemory)
    ));
    assert!(matches!(
        combined.allocate(&mut device, Type::General, large),
        Err(MemoryError::OutOfMemory)
    ));
    assert!(!combined.is_used());
    assert_eq!(combined.allocated(), 0);
    // the root allocator does not look at the type mask
    device.supply(MemoryHandle(1));
    let block = combined.allocate(&mut device, Type::General, large).unwrap();
    assert_eq!(block.origin(), CombinedTag::Root);
    combined.free(&mut device, block);
    assert!(combined.dispose(&mut device).is_ok());
}

#[test]
fn combined_round_trip_keeps_the_state_of_use() {
    let mut device = Exchange::new();
    let mut combined = CombinedAllocator::new(MemoryTypeId(0), 256, 4, 16, 1024);
    let mut next = 0;
    let requests = [
        (Type::ShortLived, reqs(10, 1)),
        (Type::General, reqs(10, 1)),
        (Type::General, reqs(5000, 1)),
        (Type::ShortLived, reqs(700, 64)),
    ];
    for (request, reqs) in requests {
        assert!(!combined.is_used());
        let block = take(&mut combined, &mut device, &mut next, request, reqs).unwrap();
        assert!(combined.is_used());
        combined.free(&mut device, block);
        assert!(!combined.is_used());
    }
    let kept = take(&mut combined, &mut device, &mut next, Type::General, reqs(10, 1)).unwrap();
    for (request, reqs) in requests {
        let block = take(&mut combined, &mut device, &mut next, request, reqs).unwrap();
        combined.free(&mut device, block);
        assert!(combined.is_used());
    }
    combined.free(&mut device, kept);
    assert!(combined.dispose(&mut device).is_ok());
    let mut released = device.take_released();
    released.sort_by_key(|memory| memory.0);
    released.dedup();
    assert_eq!(released.len() as u64, next);
}
