use gfx_mem::{
    Block, Exchange, Heap, MemoryError, MemoryHandle, MemoryProperties, MemoryType, MemoryTypeId,
    Properties, Region, Requirements, SmartAllocator, SmartBlock, Type,
};

const MIB: u64 = 1024 * 1024;
const DEVICE_LOCAL: u16 = 0x1;
const CPU_VISIBLE: u16 = 0x2;
const COHERENT: u16 = 0x4;

fn memory_type(bits: u16, heap_index: usize) -> MemoryType {
    MemoryType { properties: Properties::from_bits(bits), heap_index }
}

fn take(
    smart: &mut SmartAllocator,
    device: &mut Exchange,
    next: &mut u64,
    request: (Type, Properties),
    reqs: Requirements,
) -> Result<SmartBlock, MemoryError> {
    if smart.demand(request, reqs).is_some() {
        *next += 1;
        device.supply(MemoryHandle(*next));
    }
    smart.allocate(device, request, reqs)
}

#[test]
fn smart_spreads_over_the_heaps() {
    let mut device = Exchange::new();
    let properties = MemoryProperties {
        memory_types: vec![memory_type(DEVICE_LOCAL, 0), memory_type(DEVICE_LOCAL, 1)],
        memory_heaps: vec![256 * MIB, 1024 * MIB],
    };
    let mut smart = SmartAllocator::new(properties, MIB, 8, 64, 4 * MIB);
    let mut next = 0;
    let request = (Type::General, Properties::from_bits(DEVICE_LOCAL));
    let reqs = Requirements { size: 64 * MIB, alignment: 256, type_mask: 0b11 };
    let mut blocks = Vec::new();
    let mut chosen = Vec::new();
    for _ in 0..10 {
        let block = take(&mut smart, &mut device, &mut next, request, reqs).unwrap();
        assert_eq!(block.size(), 64 * MIB);
        assert_eq!(smart.properties(&block), Properties::from_bits(DEVICE_LOCAL));
        chosen.push(block.memory_type().0);
        blocks.push(block);
        let (small, large) = (smart.heap(0).unwrap(), smart.heap(1).unwrap());
        assert!(smart.heap(2).is_none());
        let left = small.used() as u128 * large.size() as u128;
        let right = large.used() as u128 * small.size() as u128;
        let step = 64 * MIB as u128 * large.size() as u128;
        assert!(left <= right + step && right <= left + step);
    }
    assert_eq!(chosen, vec![0, 1, 1, 1, 1, 0, 1, 1, 1, 1]);
    for first in 0..blocks.len() {
        for second in first + 1..blocks.len() {
            let (a, b) = (&blocks[first], &blocks[second]);
            assert!(
                a.memory() != b.memory()
                    || a.range().end <= b.range().start
                    || b.range().end <= a.range().start
            );
        }
    }
    assert_eq!(smart.heap(0).unwrap().used(), 128 * MIB);
    assert_eq!(smart.heap(1).unwrap().used(), 512 * MIB);
    assert_eq!(smart.heap(0).unwrap().available(), 128 * MIB);
    assert!(smart.is_used());
    let mut smart = match smart.dispose(&mut device) {
        Ok(()) => panic!("blocks are out"),
        Err(smart) => smart,
    };
    for block in blocks {
        smart.free(&mut device, block);
    }
    assert_eq!(smart.heap(0).unwrap().used(), 0);
    assert_eq!(smart.heap(1).unwrap().used(), 0);
    assert!(!smart.is_used());
    assert_eq!(device.take_released().len(), 10);
    assert!(smart.dispose(&mut device).is_ok());
}

#[test]
fn smart_finds_no_memory_type_with_the_properties() {
    let mut device = Exchange::new();
    let properties = MemoryProperties {
        memory_types: vec![memory_type(DEVICE_LOCAL, 0)],
        memory_heaps: vec![256 * MIB],
    };
    let mut smart = SmartAllocator::new(properties, MIB, 8, 64, 4 * MIB);
    let request = (Type::General, Properties::from_bits(CPU_VISIBLE));
    let reqs = Requirements { size: 1024, alignment: 16, type_mask: 0b1 };
    assert_eq!(smart.demand(request, reqs), None);
    assert!(matches!(smart.select(request.1, reqs), Err(MemoryError::NoCompatibleMemoryType)));
    let result = smart.allocate(&mut device, request, reqs);
    assert!(matches!(result, Err(MemoryError::NoCompatibleMemoryType)));
    // the properties are there, but the request does not accept the type
    let request = (Type::General, Properties::from_bits(DEVICE_LOCAL));
    let reqs = Requirements { size: 1024, alignment: 16, type_mask: 0b10 };
    let result = smart.allocate(&mut device, request, reqs);
    assert!(matches!(result, Err(MemoryError::NoCompatibleMemoryType)));
    assert!(!smart.is_used());
    assert!(smart.dispose(&mut device).is_ok());
}

#[test]
fn smart_runs_out_of_memory_where_no_heap_has_room() {
    let mut device = Exchange::new();
    let properties = MemoryProperties {
        memory_types: vec![
            memory_type(DEVICE_LOCAL, 0),
            memory_type(CPU_VISIBLE | COHERENT, 1),
            memory_type(DEVICE_LOCAL | CPU_VISIBLE, 0),
        ],
        memory_heaps: vec![1000, 4096],
    };
    let mut smart = SmartAllocator::new(properties, 256, 8, 64, 1024);
    let mut next = 0;
    let visible = (Type::ShortLived, Properties::from_bits(CPU_VISIBLE));
    let local = (Type::ShortLived, Properties::from_bits(DEVICE_LOCAL));
    let all = Requirements { size: 900, alignment: 100, type_mask: 0b111 };
    // size and alignment come to 1000 bytes: both heaps have room, and of
    // both nothing is used, so the first acceptable type serves
    assert_eq!(smart.select(visible.1, all), Ok(1));
    assert_eq!(smart.select(local.1, all), Ok(0));
    let first = take(&mut smart, &mut device, &mut next, local, all).unwrap();
    assert_eq!(first.memory_type(), MemoryTypeId(0));
    assert_eq!(first.size(), 900);
    assert_eq!(smart.heap(0).unwrap().used(), 900);
    // the first heap has 100 bytes left
    assert!(matches!(smart.select(local.1, all), Err(MemoryError::OutOfMemory)));
    assert!(matches!(
        take(&mut smart, &mut device, &mut next, local, all),
        Err(MemoryError::OutOfMemory)
    ));
    assert_eq!(smart.select(visible.1, all), Ok(1));
    let small = Requirements { size: 60, alignment: 40, type_mask: 0b101 };
    assert_eq!(smart.select(visible.1, small), Ok(2));
    let second = take(&mut smart, &mut device, &mut next, visible, small).unwrap();
    assert_eq!(second.memory_type(), MemoryTypeId(2));
    assert_eq!(smart.heap(0).unwrap().used(), 960);
    assert_eq!(smart.heap(1).unwrap().used(), 0);
    // a slot of the size classes has 64 bytes: more than the heap has left
    let general = (Type::General, Properties::from_bits(DEVICE_LOCAL));
    let tiny = Requirements { size: 30, alignment: 8, type_mask: 0b111 };
    assert_eq!(smart.select(general.1, tiny), Ok(0));
    assert_eq!(smart.demand(general, tiny), None);
    assert!(matches!(
        take(&mut smart, &mut device, &mut next, general, tiny),
        Err(MemoryError::OutOfMemory)
    ));
    smart.free(&mut device, first);
    assert_eq!(smart.heap(0).unwrap().used(), 60);
    let third = take(&mut smart, &mut device, &mut next, general, tiny).unwrap();
    assert_eq!(third.size(), 64);
    assert_eq!(third.range().start % 8, 0);
    assert_eq!(smart.heap(0).unwrap().used(), 124);
    smart.free(&mut device, second);
    smart.free(&mut device, third);
    assert_eq!(smart.heap(0).unwrap().used(), 0);
    assert!(smart.dispose(&mut device).is_ok());
}

#[test]
fn smart_prefers_the_less_used_heap_and_then_the_first_type() {
    let mut device = Exchange::new();
    let properties = MemoryProperties {
        memory_types: vec![
            memory_type(DEVICE_LOCAL, 1),
            memory_type(DEVICE_LOCAL, 0),
            memory_type(DEVICE_LOCAL, 1),
        ],
        memory_heaps: vec![1000, 3000],
    };
    let mut smart = SmartAllocator::new(properties, 256, 8, 64, 1024);
    let mut next = 0;
    let request = (Type::ShortLived, Properties::from_bits(DEVICE_LOCAL));
    let reqs = Requirements { size: 100, alignment: 1, type_mask: 0b111 };
    let mut blocks = Vec::new();
    let mut chosen = Vec::new();
    for _ in 0..8 {
        let block = take(&mut smart, &mut device, &mut next, request, reqs).unwrap();
        chosen.push(block.memory_type().0);
        blocks.push(block);
    }
    // shares used: 1/30 of the second heap, then 1/10 of the first, ...
    assert_eq!(chosen, vec![0, 1, 0, 0, 0, 1, 0, 0]);
    assert_eq!(smart.heap(0).unwrap().used(), 200);
    assert_eq!(smart.heap(1).unwrap().used(), 600);
    let only_last = Requirements { size: 100, alignment: 1, type_mask: 0b100 };
    let block = take(&mut smart, &mut device, &mut next, request, only_last).unwrap();
    assert_eq!(block.memory_type(), MemoryTypeId(2));
    assert_eq!(smart.heap(1).unwrap().used(), 700);
    blocks.push(block);
    for block in blocks {
        smart.free(&mut device, block);
    }
    assert!(!smart.is_used());
    assert!(smart.dispose(&mut device).is_ok());
}

#[test]
fn smart_round_trip_keeps_the_state_of_use() {
    let mut device = Exchange::new();
    let properties = MemoryProperties {
        memory_types: vec![memory_type(DEVICE_LOCAL, 0)],
        memory_heaps: vec![MIB],
    };
    let mut smart = SmartAllocator::new(properties, 256, 8, 64, 1024);
    let mut next = 0;
    let request = (Type::General, Properties::from_bits(0));
    let reqs = Requirements { size: 100, alignment: 4, type_mask: 1 };
    assert!(!smart.is_used());
    let block = take(&mut smart, &mut device, &mut next, request, reqs).unwrap();
    assert!(smart.is_used());
    smart.free(&mut device, block);
    assert!(!smart.is_used());
    assert!(smart.dispose(&mut device).is_ok());
}

#[test]
fn heaps_compare_by_the_share_that_is_used() {
    let mut small = Heap::new(100);
    let mut large = Heap::new(1000);
    let empty = Heap::new(0);
    assert_eq!(small.size(), 100);
    assert_eq!(small.used(), 0);
    assert_eq!(small.available(), 100);
    assert!(!small.less_used(&large));
    assert!(!large.less_used(&small));
    small.allocate(10);
    large.allocate(99);
    assert_eq!(small.available(), 90);
    assert!(large.less_used(&small));
    assert!(!small.less_used(&large));
    large.allocate(1);
    assert!(!large.less_used(&small));
    assert!(!small.less_used(&large));
    large.allocate(1);
    assert!(small.less_used(&large));
    // a heap without bytes counts as full
    assert!(small.less_used(&empty));
    assert!(!empty.less_used(&small));
    assert!(!empty.less_used(&empty));
    small.allocate(90);
    assert!(!small.less_used(&empty));
    assert!(!empty.less_used(&small));
    small.free(100);
    large.free(101);
    assert_eq!(small.used(), 0);
    assert_eq!(large.available(), 1000);
    let huge = Heap::new(u64::MAX);
    let mut other = Heap::new(u64::MAX);
    other.allocate(u64::MAX);
    assert!(huge.less_used(&other));
    assert!(!other.less_used(&huge));
}
