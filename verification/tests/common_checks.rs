use gfx_mem::{
    alignment_shift, shift_for_alignment, ArenaAllocator, ArenaNode, Block, ChunkedAllocator,
    CombinedAllocator, Exchange, Item, MemoryError, MemoryHandle, MemoryTypeId, Properties,
    Region, Requirements, RootAllocator, SmartAllocator,
};

fn assert_send_sync<T: Send + Sync>() {}

#[test]
fn arena_test_send_sync() {
    assert_send_sync::<ArenaAllocator>();
}

#[test]
fn chunked_test_send_sync() {
    assert_send_sync::<ChunkedAllocator>();
}

#[test]
fn combined_test_send_sync() {
    assert_send_sync::<CombinedAllocator>();
}

#[test]
fn root_test_send_sync() {
    assert_send_sync::<RootAllocator>();
}

#[test]
fn smart_test_send_sync() {
    assert_send_sync::<SmartAllocator>();
}

#[test]
fn alignment_shift_values() {
    assert_eq!(alignment_shift(16, 5), 11);
    assert_eq!(alignment_shift(16, 16), 0);
    assert_eq!(alignment_shift(16, 17), 15);
    assert_eq!(alignment_shift(16, 0), 0);
    assert_eq!(alignment_shift(1, 12345), 0);
    assert_eq!(alignment_shift(256, 1), 255);
    assert_eq!(alignment_shift(0, 5), 0);
    // an alignment that is no power of two: the low bits of 2 are set in 3
    assert_eq!(alignment_shift(3, 4), 0);
    assert_eq!(alignment_shift(3, 5), 2);
    assert_eq!(alignment_shift(1 << 63, 1), (1 << 63) - 1);
    assert_eq!(alignment_shift(8, u64::MAX), 1);
}

#[test]
fn shift_for_alignment_values() {
    assert_eq!(shift_for_alignment(16, 5), 16);
    assert_eq!(shift_for_alignment(16, 16), 16);
    assert_eq!(shift_for_alignment(256, 257), 512);
    assert_eq!(shift_for_alignment(16, 0), 0);
    assert_eq!(shift_for_alignment(0, 7), 7);
    assert_eq!(shift_for_alignment(1, u64::MAX), u64::MAX);
}

#[test]
fn alignment_shift_reaches_a_multiple() {
    for exponent in 0..12u32 {
        let alignment = 1u64 << exponent;
        for offset in 0..300u64 {
            let shift = alignment_shift(alignment, offset);
            assert!(shift < alignment);
            assert_eq!((offset + shift) % alignment, 0);
            assert_eq!(shift_for_alignment(alignment, offset), offset + shift);
        }
    }
}

#[test]
fn error_descriptions() {
    assert_eq!(MemoryError::NoCompatibleMemoryType.description(), "No compatible memory");
    assert_eq!(MemoryError::OutOfMemory.description(), "Out of memory");
    assert_ne!(MemoryError::OutOfMemory, MemoryError::NoCompatibleMemoryType);
}

#[test]
fn properties_contain_their_subsets() {
    let device_local = Properties::from_bits(0x1);
    let host_visible = Properties::from_bits(0x2);
    let both = Properties::from_bits(0x3);
    assert_eq!(both.bits(), 3);
    assert!(both.contains(device_local));
    assert!(both.contains(host_visible));
    assert!(both.contains(both));
    assert!(!device_local.contains(host_visible));
    assert!(!device_local.contains(both));
    assert!(device_local.contains(Properties::from_bits(0)));
}

#[test]
fn exchange_keeps_what_nobody_claims() {
    let mut device = Exchange::new();
    assert_eq!(device.pending(), None);
    device.supply(MemoryHandle(1));
    assert_eq!(device.pending(), Some(MemoryHandle(1)));
    device.supply(MemoryHandle(2));
    assert_eq!(device.pending(), Some(MemoryHandle(2)));
    assert_eq!(device.take_released(), vec![MemoryHandle(1)]);
    assert_eq!(device.take_released(), vec![]);
    assert_eq!(device.pending(), Some(MemoryHandle(2)));
}

#[test]
fn blocks_contain_what_is_carved_from_them() {
    let mut device = Exchange::new();
    let mut root = RootAllocator::new(MemoryTypeId(0));
    device.supply(MemoryHandle(1));
    let chunk = root
        .allocate(&mut device, (), Requirements { size: 256, alignment: 1, type_mask: 1 })
        .unwrap();
    device.supply(MemoryHandle(2));
    let other = root
        .allocate(&mut device, (), Requirements { size: 256, alignment: 1, type_mask: 1 })
        .unwrap();
    let mut node = ArenaNode::new(chunk);
    let first = node.allocate(Requirements { size: 100, alignment: 1, type_mask: 1 }).unwrap();
    let second = node.allocate(Requirements { size: 100, alignment: 64, type_mask: 1 }).unwrap();
    assert_eq!(first.range(), 0..100);
    assert_eq!(second.range(), 128..228);
    assert_eq!(second.size(), 100);
    assert!(node.chunk().contains(&first));
    assert!(node.chunk().contains(&second));
    assert!(!first.contains(&second));
    assert!(!first.contains(node.chunk()));
    assert!(first.contains(&first));
    assert!(!other.contains(&first));
    assert!(node.allocate(Requirements { size: 29, alignment: 1, type_mask: 1 }).is_none());
    assert!(!node.fits(Requirements { size: 29, alignment: 1, type_mask: 1 }));
    assert!(node.fits(Requirements { size: 28, alignment: 1, type_mask: 1 }));
    assert!(!node.fits(Requirements { size: 1, alignment: 256, type_mask: 1 }));
    assert_eq!(node.used(), 200);
    assert!(node.is_used());
    let item = Item::new(17u32, second);
    assert_eq!(*item.raw(), 17);
    assert_eq!(*item.borrow(), 17);
    assert_eq!(item.memory(), MemoryHandle(1));
    assert_eq!(item.range(), 128..228);
    assert_eq!(item.size(), 100);
    assert_eq!(item.block().range(), 128..228);
    assert!(node.chunk().contains(&item));
    let mut item = item;
    *item.borrow_mut() = 18;
    let (raw, second) = item.into_parts();
    assert_eq!(raw, 18);
    node.free(first);
    assert!(node.is_used());
    node.free(second);
    assert!(!node.is_used());
    assert!(node.dispose(&mut root, &mut device).is_ok());
    root.free(&mut device, other);
    assert_eq!(device.take_released(), vec![MemoryHandle(1), MemoryHandle(2)]);
    assert!(root.dispose(&mut device).is_ok());
}
