//! Heap-window initialization, the dynamic allocator's front door, and the
//! scratch window for memory-mapped device registers.
//!
//! The heap window is a fixed virtual range whose bounds are compile-time
//! constants; `init_heap` backs every one of its pages with a fresh frame
//! eagerly and then hands the range to the block allocator.  A failed
//! mapping mid-way leaves the window partially backed: there is no
//! rollback, and the boot sequence treats the error as fatal.
pub mod fixed_size_block;
pub mod linked_list;

use vstd::prelude::*;

use crate::PAGE_SIZE;
use crate::memory::{
    FrameAllocator, MemoryError, Page, PageTableHierarchy, PhysAddr, PhysFrame, VirtAddr,
    entry_present, frames_unused, is_page_aligned, lemma_page_base,
    lemma_translation_correctness, lemma_translation_unmapped, missing_tables, page_base,
    translate_spec, walk_bits, walk_entry, FLAG_PRESENT, FLAG_WRITABLE,
};
use self::fixed_size_block::FixedSizeBlockAllocator;

verus! {

/// First byte of the heap window.
pub const HEAP_START: u64 = 0x4444_4444_0000;

/// Size of the heap window in bytes.
pub const HEAP_SIZE: u64 = 1024 * 1024;

/// Whether `align` is a power of two, the only alignments the allocator
/// accepts.
pub open spec fn is_power_of_two(align: u64) -> bool {
    align > 0 && (align & ((align - 1) as u64)) == 0
}

/// Round `addr` up to the next multiple of `align`.
#[verifier::rlimit(100)]
pub fn align_up(addr: u64, align: u64) -> (r: u64)
    requires
        is_power_of_two(align),
        addr + align - 1 <= u64::MAX,
    ensures
        r % align == 0,
        addr <= r,
        r - addr < align,
{
    proof {
        let m: u64 = (align - 1) as u64;
        assert(addr <= (((m + addr) as u64) & !m) && ((((m + addr) as u64) & !m) - addr) < align)
            by (bit_vector)
            requires
                align > 0,
                (align & m) == 0,
                m == (align - 1) as u64,
                addr + m <= 0xFFFF_FFFF_FFFF_FFFFu64,
        ;
        assert((((m + addr) as u64) & !m) % align == 0) by (bit_vector)
            requires
                align > 0,
                (align & m) == 0,
                m == (align - 1) as u64,
        ;
    }
    ((align - 1) + addr) & !(align - 1)
}

/// Map the page containing `virtual_address` onto the frame containing
/// `physical_address` (present and writable) and return the byte offset of
/// `physical_address` within that frame, so that the mapped virtual
/// address plus the offset reaches it.  Obtains intermediate table frames
/// from the frame allocator; a conflict with an existing mapping is
/// reported, not masked.
pub fn map_physical_to_virtual_address<A: FrameAllocator>(
    physical_address: u64,
    virtual_address: u64,
    frame_allocator: &mut A,
    mapper: &mut PageTableHierarchy,
) -> (r: Result<u64, MemoryError>)
    requires
        old(mapper).wf(),
        old(frame_allocator).wf(),
        frames_unused(old(mapper).tables@, old(frame_allocator).avail()),
        physical_address < 0x10_0000_0000_0000,
    ensures
        final(mapper).wf(),
        final(frame_allocator).wf(),
        frames_unused(final(mapper).tables@, final(frame_allocator).avail()),
        forall|vb: u64|
            walk_bits(vb) != walk_bits(page_base(virtual_address)) ==> walk_entry(
                final(mapper).tables@,
                vb,
            ) == walk_entry(old(mapper).tables@, vb),
        r is Ok <==> walk_entry(old(mapper).tables@, page_base(virtual_address)) is None
            && missing_tables(old(mapper).tables@, page_base(virtual_address)) <= old(
            frame_allocator,
        ).avail().len(),
        r == Err::<u64, MemoryError>(MemoryError::MappingConflict) <==> walk_entry(
            old(mapper).tables@,
            page_base(virtual_address),
        ) is Some,
        r is Err ==> r == Err::<u64, MemoryError>(MemoryError::MappingConflict) || r == Err::<
            u64,
            MemoryError,
        >(MemoryError::FrameAllocationFailed),
        r is Ok ==> r->Ok_0 == physical_address % PAGE_SIZE,
        r is Ok ==> walk_entry(final(mapper).tables@, page_base(virtual_address)) == Some(
            page_base(physical_address) | (FLAG_PRESENT | FLAG_WRITABLE),
        ),
{
    let virt_addr = VirtAddr { value: virtual_address };
    let page = Page::containing_address(virt_addr);
    let frame = PhysFrame::containing_address(PhysAddr { value: physical_address });
    let offset = physical_address - frame.start_address().value;
    proof {
        lemma_page_base(virtual_address);
        lemma_page_base(physical_address);
        assert((1u64 | 2) & 1 != 0 && (1u64 | 2) & 0x80 == 0 && (1u64 | 2) < 4096) by (bit_vector);
    }
    let flags = FLAG_PRESENT | FLAG_WRITABLE;
    match mapper.map_to(page, frame, flags, frame_allocator) {
        Ok(()) => Ok(offset),
        Err(e) => Err(e),
    }
}

/// Remove the mapping of the page containing `virtual_address`; the caller
/// must not use the window afterwards.  Reports `UnmapMissing`, changing
/// nothing, where no mapping exists.
pub fn unmap_virtual_address(virtual_address: u64, mapper: &mut PageTableHierarchy) -> (r: Result<
    (),
    MemoryError,
>)
    requires
        old(mapper).wf(),
    ensures
        final(mapper).wf(),
        r is Ok <==> walk_entry(old(mapper).tables@, page_base(virtual_address)) is Some,
        r is Err ==> r == Err::<(), MemoryError>(MemoryError::UnmapMissing) && *final(mapper)
            == *old(mapper),
        r is Ok ==> forall|vb: u64|
            walk_bits(vb) == walk_bits(page_base(virtual_address)) ==> walk_entry(
                final(mapper).tables@,
                vb,
            ) is None,
        forall|vb: u64|
            walk_bits(vb) != walk_bits(page_base(virtual_address)) ==> walk_entry(
                final(mapper).tables@,
                vb,
            ) == walk_entry(old(mapper).tables@, vb),
        forall|g: u64|
            crate::memory::lookup(final(mapper).tables@, g) is Some <==> crate::memory::lookup(
                old(mapper).tables@,
                g,
            ) is Some,
{
    let page = Page::containing_address(VirtAddr { value: virtual_address });
    match mapper.unmap(page) {
        Ok(_) => Ok(()),
        Err(e) => Err(e),
    }
}

/// Number of pages in the heap window.
pub open spec fn heap_page_count() -> int {
    (HEAP_SIZE / PAGE_SIZE) as int
}

/// Virtual address of heap page `i`.
pub open spec fn heap_page(i: int) -> u64 {
    (HEAP_START + i * PAGE_SIZE) as u64
}

/// Distinct heap pages have distinct walk bits, and every heap page is
/// page aligned.
proof fn lemma_heap_pages_distinct(i: u64, j: u64)
    requires
        i < 256,
        j < 256,
    ensures
        is_page_aligned(heap_page(i as int)),
        i != j ==> walk_bits(heap_page(i as int)) != walk_bits(heap_page(j as int)),
{
    assert(i < 256 && j < 256 ==> (((0x4444_4444_0000u64 + i * 4096) as u64) % 4096 == 0 && (i != j
        ==> ((0x4444_4444_0000u64 + i * 4096) as u64) & 0x0000_FFFF_FFFF_F000 != ((
    0x4444_4444_0000u64 + j * 4096) as u64) & 0x0000_FFFF_FFFF_F000))) by (bit_vector);
}

/// Map every page of the heap window onto a fresh frame (present and
/// writable), then hand the window to the block allocator.  Fails on the
/// first allocation or mapping failure and leaves the window partially
/// mapped: there is no rollback, and the frames already consumed stay
/// consumed.  Success is owed whenever the window is unmapped and the
/// frame allocator holds at least four frames per page (one data frame
/// and at most three table frames each).
pub fn init_heap<A: FrameAllocator>(
    mapper: &mut PageTableHierarchy,
    frame_allocator: &mut A,
    allocator: &mut FixedSizeBlockAllocator,
) -> (r: Result<(), MemoryError>)
    requires
        old(mapper).wf(),
        old(frame_allocator).wf(),
        frames_unused(old(mapper).tables@, old(frame_allocator).avail()),
        old(allocator).wf(),
        forall|c: int|
            0 <= c < crate::allocator::fixed_size_block::BLOCK_SIZES_COUNT ==> (#[trigger] old(
                allocator,
            ).list_heads@[c]@).len() == 0,
    ensures
        final(mapper).wf(),
        final(frame_allocator).wf(),
        frames_unused(final(mapper).tables@, final(frame_allocator).avail()),
        (forall|i: int|
            0 <= i < heap_page_count() ==> walk_entry(
                old(mapper).tables@,
                #[trigger] heap_page(i),
            ) is None) && old(frame_allocator).avail().len() >= 4 * heap_page_count() ==> r is Ok,
        r is Err ==> r == Err::<(), MemoryError>(MemoryError::FrameAllocationFailed) || r == Err::<
            (),
            MemoryError,
        >(MemoryError::MappingConflict),
        r is Ok ==> forall|i: int|
            0 <= i < heap_page_count() ==> walk_entry(
                final(mapper).tables@,
                #[trigger] heap_page(i),
            ) is Some && entry_present(walk_entry(final(mapper).tables@, heap_page(i))->0) && (
            walk_entry(final(mapper).tables@, heap_page(i))->0 & FLAG_WRITABLE) != 0,
        r is Ok ==> final(allocator).wf() && final(allocator).heap_start() == HEAP_START && final(allocator).heap_end() == HEAP_START + HEAP_SIZE && final(allocator).free_bytes_spec() == HEAP_SIZE,
        forall|vb: u64|
            (forall|i: int|
                0 <= i < heap_page_count() ==> walk_bits(vb) != walk_bits(
                    #[trigger] heap_page(i),
                )) ==> walk_entry(final(mapper).tables@, vb) == walk_entry(old(mapper).tables@, vb),
{
    let count: u64 = HEAP_SIZE / PAGE_SIZE;
    let ghost ok0 = (forall|i: int|
        0 <= i < heap_page_count() ==> walk_entry(
            old(mapper).tables@,
            #[trigger] heap_page(i),
        ) is None) && old(frame_allocator).avail().len() >= 4 * heap_page_count();
    let mut i: u64 = 0;
    while i < count
        invariant
            count == heap_page_count(),
            i <= count,
            mapper.wf(),
            frame_allocator.wf(),
            frames_unused(mapper.tables@, frame_allocator.avail()),
            ok0 == ((forall|k: int|
                0 <= k < heap_page_count() ==> walk_entry(
                    old(mapper).tables@,
                    #[trigger] heap_page(k),
                ) is None) && old(frame_allocator).avail().len() >= 4 * heap_page_count()),
            ok0 ==> frame_allocator.avail().len() >= 4 * (count - i),
            ok0 ==> forall|k: int|
                i <= k < heap_page_count() ==> walk_entry(
                    mapper.tables@,
                    #[trigger] heap_page(k),
                ) is None,
            forall|k: int|
                0 <= k < i ==> walk_entry(mapper.tables@, #[trigger] heap_page(k)) is Some
                    && entry_present(walk_entry(mapper.tables@, heap_page(k))->0) && (walk_entry(
                    mapper.tables@,
                    heap_page(k),
                )->0 & FLAG_WRITABLE) != 0,
            forall|vb: u64|
                (forall|k: int|
                    0 <= k < i ==> walk_bits(vb) != walk_bits(#[trigger] heap_page(k)))
                    ==> walk_entry(mapper.tables@, vb) == walk_entry(old(mapper).tables@, vb),
        decreases count - i,
    {
        let va = HEAP_START + i * PAGE_SIZE;
        proof {
            lemma_heap_pages_distinct(i, i);
            assert(va == heap_page(i as int));
        }
        let page = Page { start: VirtAddr { value: va } };
        proof {
            frame_allocator.avail_properties();
        }
        let ghost pre_avail = frame_allocator.avail();
        let frame = match frame_allocator.allocate_frame() {
            Some(f) => f,
            None => {
                proof {
                    assert(!ok0);
                }
                return Err(MemoryError::FrameAllocationFailed);
            },
        };
        proof {
            assert(frame.start.value == pre_avail[0]);
            assert(is_page_aligned(frame.start.value) && frame.start.value
                < 0x10_0000_0000_0000);
            assert((1u64 | 2) & 1 != 0 && (1u64 | 2) & 0x80 == 0 && (1u64 | 2) < 4096)
                by (bit_vector);
        }
        let ghost m_before = mapper.tables@;
        match mapper.map_to(page, frame, FLAG_PRESENT | FLAG_WRITABLE, frame_allocator) {
            Ok(()) => {},
            Err(e) => {
                proof {
                    assert(!ok0) by {
                        if ok0 {
                            assert(walk_entry(m_before, heap_page(i as int)) is None);
                            assert(crate::memory::missing_tables(m_before, va) <= 3);
                        }
                    }
                }
                return Err(e);
            },
        }
        proof {
            assert forall|k: int| 0 <= k < i + 1 implies walk_entry(
                mapper.tables@,
                #[trigger] heap_page(k),
            ) is Some && entry_present(walk_entry(mapper.tables@, heap_page(k))->0) && (
            walk_entry(mapper.tables@, heap_page(k))->0 & FLAG_WRITABLE) != 0 by {
                if k < i {
                    lemma_heap_pages_distinct(k as u64, i);
                    assert(walk_entry(mapper.tables@, heap_page(k)) == walk_entry(
                        m_before,
                        heap_page(k),
                    ));
                } else {
                    assert(walk_entry(mapper.tables@, heap_page(k)) == Some(
                        frame.start.value | (FLAG_PRESENT | FLAG_WRITABLE),
                    ));
                    let fv = frame.start.value;
                    assert(((fv | (1u64 | 2)) & 1 != 0) && ((fv | (1u64 | 2)) & 2 != 0))
                        by (bit_vector);
                }
            }
            if ok0 {
                assert forall|k: int| i + 1 <= k < heap_page_count() implies walk_entry(
                    mapper.tables@,
                    #[trigger] heap_page(k),
                ) is None by {
                    lemma_heap_pages_distinct(k as u64, i);
                }
                assert(frame_allocator.avail().len() >= 4 * (count - (i + 1)));
            }
            assert forall|vb: u64|
                (forall|k: int|
                    0 <= k < i + 1 ==> walk_bits(vb) != walk_bits(
                        #[trigger] heap_page(k),
                    )) implies walk_entry(mapper.tables@, vb) == walk_entry(
                old(mapper).tables@,
                vb,
            ) by {
                assert(walk_bits(vb) != walk_bits(heap_page(i as int)));
                assert(walk_entry(mapper.tables@, vb) == walk_entry(m_before, vb));
            }
        }
        i = i + 1;
    }
    allocator.init(HEAP_START, HEAP_SIZE);
    Ok(())
}

/// MMIO window round trip: after `map_physical_to_virtual_address` returns
/// offset `O` for a page-aligned scratch address `A`, the access at
/// `A + O` reaches exactly the physical register address; and once the
/// window is unmapped, no address of the scratch page translates at all.
pub proof fn lemma_mmio_window_round_trip(
    s_mapped: Seq<crate::memory::PageTable>,
    s_unmapped: Seq<crate::memory::PageTable>,
    physical_address: u64,
    virtual_address: u64,
)
    requires
        physical_address < 0x10_0000_0000_0000,
        is_page_aligned(virtual_address),
        walk_entry(s_mapped, virtual_address) == Some(
            page_base(physical_address) | (FLAG_PRESENT | FLAG_WRITABLE),
        ),
        walk_entry(s_unmapped, virtual_address) is None,
        virtual_address + (physical_address % PAGE_SIZE) <= u64::MAX,
    ensures
        translate_spec(s_mapped, (virtual_address + physical_address % PAGE_SIZE) as u64) == Some(
            physical_address,
        ),
        translate_spec(s_unmapped, virtual_address) is None,
{
    lemma_page_base(physical_address);
    lemma_page_base(virtual_address);
    let page = Page { start: VirtAddr { value: virtual_address } };
    let frame = PhysFrame { start: PhysAddr { value: page_base(physical_address) } };
    let va = (virtual_address + physical_address % PAGE_SIZE) as u64;
    assert((1u64 | 2) & 1 != 0 && (1u64 | 2) & 0x80 == 0 && (1u64 | 2) < 4096) by (bit_vector);
    lemma_translation_correctness(
        s_mapped,
        page,
        frame,
        FLAG_PRESENT | FLAG_WRITABLE,
        va,
    );
    lemma_translation_unmapped(s_unmapped, page, virtual_address);
}

} // verus!
