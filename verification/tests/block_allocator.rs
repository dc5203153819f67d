use samanthi::allocator::fixed_size_block::FixedSizeBlockAllocator;
use samanthi::allocator::linked_list::LinkedListAllocator;
use samanthi::allocator::{align_up, init_heap, HEAP_SIZE, HEAP_START};
use samanthi::memory::{
    BootInfoFrameAllocator, MemoryError, MemoryRegion, MemoryRegionType, PhysAddr, PhysFrame,
    PageTableHierarchy,
};

#[test]
fn align_up_rounds_to_the_next_multiple() {
    assert_eq!(align_up(0x1001, 0x1000), 0x2000);
    assert_eq!(align_up(0x1000, 0x1000), 0x1000);
    assert_eq!(align_up(7, 8), 8);
    assert_eq!(align_up(0, 16), 0);
    assert_eq!(align_up(17, 1), 17);
}

#[test]
fn heap_init_reports_the_full_byte_count() {
    // Concrete boot scenario: one usable region covering every frame the
    // heap window needs, heap base 0x444444440000, heap size 1 MiB.
    let mut mapper = PageTableHierarchy::init(PhysFrame { start: PhysAddr { value: 0x1000 } });
    let map = vec![MemoryRegion {
        start_frame_number: 2,
        end_frame_number: 2 + 1100,
        region_type: MemoryRegionType::Usable,
    }];
    let mut frames = BootInfoFrameAllocator::init(map);
    let mut allocator = FixedSizeBlockAllocator::new();
    init_heap(&mut mapper, &mut frames, &mut allocator).expect("heap init should succeed");
    assert_eq!(HEAP_SIZE, 1_048_576);
    assert_eq!(HEAP_START, 0x4444_4444_0000);
    assert_eq!(allocator.free_bytes(), HEAP_SIZE);
}

#[test]
fn heap_init_fails_without_enough_frames() {
    let mut mapper = PageTableHierarchy::init(PhysFrame { start: PhysAddr { value: 0x1000 } });
    let map = vec![MemoryRegion {
        start_frame_number: 2,
        end_frame_number: 12,
        region_type: MemoryRegionType::Usable,
    }];
    let mut frames = BootInfoFrameAllocator::init(map);
    let mut allocator = FixedSizeBlockAllocator::new();
    let r = init_heap(&mut mapper, &mut frames, &mut allocator);
    assert_eq!(r, Err(MemoryError::FrameAllocationFailed));
}

#[test]
fn size_class_round_trip_keeps_list_length() {
    let mut a = FixedSizeBlockAllocator::new();
    a.init(0x10000, 65536);
    // Warm the class with one allocation so its list is populated.
    let first = a.allocate(16, 8).expect("allocation");
    a.deallocate(first, 16, 8);
    let baseline = a.list_heads[1].len();
    assert!(baseline > 0);
    for _ in 0..10 {
        let b = a.allocate(16, 8).expect("allocation");
        a.deallocate(b, 16, 8);
        assert_eq!(a.list_heads[1].len(), baseline);
    }
}

#[test]
fn fallback_first_fit_reuses_the_freed_block() {
    let mut a = FixedSizeBlockAllocator::new();
    a.init(0x10000, 8192);
    // A request outside every size class goes to the fallback list.
    let p1 = a.allocate(4096, 8).expect("first fallback allocation");
    assert_eq!(p1, 0x10000);
    a.deallocate(p1, 4096, 8);
    let p2 = a.allocate(4096, 8).expect("second fallback allocation");
    assert_eq!(p2, p1);
}

#[test]
fn fallback_splits_and_merges_exactly() {
    let mut ll = LinkedListAllocator::new();
    ll.init(0x20000, 4096);
    assert_eq!(ll.free_bytes(), 4096);
    let p = ll.allocate(1024, 8).expect("fits");
    assert_eq!(p, 0x20000);
    assert_eq!(ll.free_bytes(), 3072);
    ll.deallocate(p, 1024);
    assert_eq!(ll.free_bytes(), 4096);
    assert_eq!(ll.free_list.len(), 1);
}

#[test]
fn heap_exhaustion_yields_allocation_failed() {
    let mut a = FixedSizeBlockAllocator::new();
    a.init(0x10000, 8192);
    // Outstanding fallback blocks eventually exceed the window.
    assert!(a.allocate(4096, 8).is_ok());
    assert!(a.allocate(4096, 8).is_ok());
    assert_eq!(a.allocate(4096, 8), Err(MemoryError::AllocationFailed));
    // Class requests fail too once no batch can be carved anywhere.
    assert_eq!(a.allocate(1, 1), Err(MemoryError::AllocationFailed));
}

#[test]
fn free_bytes_drop_by_at_least_the_request() {
    let mut a = FixedSizeBlockAllocator::new();
    a.init(0x10000, 65536);
    let before = a.free_bytes();
    let b = a.allocate(100, 4).expect("allocation");
    let after = a.free_bytes();
    assert!(after + 100 <= before);
    a.deallocate(b, 100, 4);
    // A classed block returns to its class list, so the bytes come back.
    assert_eq!(a.free_bytes(), before);
}

#[test]
fn class_blocks_are_aligned_and_inside_the_heap() {
    let mut a = FixedSizeBlockAllocator::new();
    a.init(0x10000, 65536);
    for _ in 0..20 {
        let b = a.allocate(24, 8).expect("allocation");
        assert_eq!(b % 32, 0);
        assert!(b >= 0x10000 && b + 32 <= 0x10000 + 65536);
    }
}
