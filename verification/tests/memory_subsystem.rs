use samanthi::memory::{
    translate_addr, BootInfoFrameAllocator, EmptyFrameAllocator, FrameAllocator, MemoryError,
    MemoryRegion, MemoryRegionType, Page, PageTableHierarchy, PhysAddr, PhysFrame, VirtAddr,
    FLAG_PRESENT, FLAG_WRITABLE,
};

fn usable(start: u64, end: u64) -> MemoryRegion {
    MemoryRegion { start_frame_number: start, end_frame_number: end, region_type: MemoryRegionType::Usable }
}

fn reserved(start: u64, end: u64) -> MemoryRegion {
    MemoryRegion { start_frame_number: start, end_frame_number: end, region_type: MemoryRegionType::Reserved }
}

#[test]
fn frame_allocator_walks_usable_regions_in_order() {
    let map = vec![usable(1, 4), reserved(4, 8), usable(8, 10)];
    let mut alloc = BootInfoFrameAllocator::init(map);
    let expected = [0x1000u64, 0x2000, 0x3000, 0x8000, 0x9000];
    let mut seen: Vec<u64> = Vec::new();
    for _ in 0..5 {
        let f = alloc.allocate_frame().expect("frame expected");
        seen.push(f.start_address().value);
    }
    assert_eq!(seen, expected);
    // Frame monotonicity: pairwise distinct and non-decreasing.
    for i in 0..seen.len() {
        for j in (i + 1)..seen.len() {
            assert!(seen[i] < seen[j]);
        }
    }
    assert!(alloc.allocate_frame().is_none());
    assert!(alloc.allocate_frame().is_none());
}

#[test]
fn empty_frame_allocator_never_yields() {
    let mut alloc = EmptyFrameAllocator;
    assert!(alloc.allocate_frame().is_none());
}

#[test]
fn translation_follows_mapping_and_unmapping() {
    let mut mapper = PageTableHierarchy::init(PhysFrame { start: PhysAddr { value: 0x1000 } });
    let map = vec![usable(2, 64)];
    let mut alloc = BootInfoFrameAllocator::init(map);

    let page = Page { start: VirtAddr { value: 0x2000_0000 } };
    let frame = PhysFrame { start: PhysAddr { value: 0x123000 } };

    // Nothing is mapped in a fresh hierarchy.
    assert!(translate_addr(VirtAddr { value: 0x2000_0123 }, &mapper).is_none());

    mapper
        .map_to(page, frame, FLAG_PRESENT | FLAG_WRITABLE, &mut alloc)
        .expect("mapping should succeed");

    // Translation correctness: same offset inside the frame.
    let t = translate_addr(VirtAddr { value: 0x2000_0123 }, &mapper).expect("mapped");
    assert_eq!(t.value, 0x123123);
    let t0 = translate_addr(VirtAddr { value: 0x2000_0000 }, &mapper).expect("mapped");
    assert_eq!(t0.value, 0x123000);
    // A neighboring page stays unmapped.
    assert!(translate_addr(VirtAddr { value: 0x2000_1000 }, &mapper).is_none());

    // Unmapping returns the frame and removes the translation.
    let freed = mapper.unmap(page).expect("was mapped");
    assert_eq!(freed.start.value, 0x123000);
    assert!(translate_addr(VirtAddr { value: 0x2000_0123 }, &mapper).is_none());
    assert_eq!(mapper.unmap(page), Err(MemoryError::UnmapMissing));
}

#[test]
fn mapping_conflict_is_reported_not_masked() {
    let mut mapper = PageTableHierarchy::init(PhysFrame { start: PhysAddr { value: 0x1000 } });
    let mut alloc = BootInfoFrameAllocator::init(vec![usable(2, 64)]);
    let page = Page { start: VirtAddr { value: 0x4000_0000 } };
    let frame = PhysFrame { start: PhysAddr { value: 0x200000 } };
    mapper
        .map_to(page, frame, FLAG_PRESENT | FLAG_WRITABLE, &mut alloc)
        .expect("first mapping");
    let again = mapper.map_to(page, frame, FLAG_PRESENT | FLAG_WRITABLE, &mut alloc);
    assert_eq!(again, Err(MemoryError::MappingConflict));
}

#[test]
fn mapping_without_frames_reports_exhaustion() {
    let mut mapper = PageTableHierarchy::init(PhysFrame { start: PhysAddr { value: 0x1000 } });
    let mut alloc = EmptyFrameAllocator;
    let page = Page { start: VirtAddr { value: 0x4000_0000 } };
    let frame = PhysFrame { start: PhysAddr { value: 0x200000 } };
    let r = mapper.map_to(page, frame, FLAG_PRESENT | FLAG_WRITABLE, &mut alloc);
    assert_eq!(r, Err(MemoryError::FrameAllocationFailed));
}
