//! Physical-frame bookkeeping and the four-level page-table walk.
//!
//! Physical and virtual addresses are distinct types so that the two spaces
//! cannot be confused.  The boot loader hands the kernel a list of memory
//! region descriptors; `BootInfoFrameAllocator` turns its usable ranges into
//! a monotone stream of fresh frames.  `PageTableHierarchy` holds the live
//! page tables as data, with entries in the hardware bit layout, and the
//! translation and mapping functions are specified against a mathematical
//! walk over that hierarchy.
use vstd::prelude::*;

use crate::PAGE_SIZE;

verus! {

/// Largest frame number a region descriptor may carry; keeps every frame
/// start address strictly below 2^52, the width of a page-table entry's
/// address field.
pub const MAX_FRAME_NUMBER: u64 = 0x10_0000_0000;

/// A physical address.
#[derive(Clone, Copy, PartialEq, Eq, Structural, Debug)]
pub struct PhysAddr {
    pub value: u64,
}

/// A virtual address.
#[derive(Clone, Copy, PartialEq, Eq, Structural, Debug)]
pub struct VirtAddr {
    pub value: u64,
}

/// Start address of the page or frame that contains `a`.
pub open spec fn page_base(a: u64) -> u64 {
    ((a / PAGE_SIZE) * PAGE_SIZE) as u64
}

/// Whether `a` is the start address of a page or frame.
pub open spec fn is_page_aligned(a: u64) -> bool {
    a % PAGE_SIZE == 0
}

/// A page-aligned, 4 KiB unit of physical memory.
#[derive(Clone, Copy, PartialEq, Eq, Structural, Debug)]
pub struct PhysFrame {
    pub start: PhysAddr,
}

/// A page-aligned, 4 KiB unit of virtual address space.
#[derive(Clone, Copy, PartialEq, Eq, Structural, Debug)]
pub struct Page {
    pub start: VirtAddr,
}

impl PhysFrame {
    /// The frame that contains the given physical address.
    pub fn containing_address(address: PhysAddr) -> (r: PhysFrame)
        ensures
            r.start.value == page_base(address.value),
    {
        let a = address.value;
        proof {
            assert(a & 0xFFFF_FFFF_FFFF_F000u64 == (a / 4096) * 4096) by (bit_vector);
        }
        PhysFrame { start: PhysAddr { value: a & 0xFFFF_FFFF_FFFF_F000u64 } }
    }

    /// Start address of the frame.
    pub fn start_address(self) -> (r: PhysAddr)
        ensures
            r == self.start,
    {
        self.start
    }
}

impl Page {
    /// The page that contains the given virtual address.
    pub fn containing_address(address: VirtAddr) -> (r: Page)
        ensures
            r.start.value == page_base(address.value),
    {
        let a = address.value;
        proof {
            assert(a & 0xFFFF_FFFF_FFFF_F000u64 == (a / 4096) * 4096) by (bit_vector);
        }
        Page { start: VirtAddr { value: a & 0xFFFF_FFFF_FFFF_F000u64 } }
    }

    /// Start address of the page.
    pub fn start_address(self) -> (r: VirtAddr)
        ensures
            r == self.start,
    {
        self.start
    }
}

/// Usability tag of a boot memory region, as reported by the boot loader.
#[derive(Clone, Copy, PartialEq, Eq, Structural, Debug)]
pub enum MemoryRegionType {
    /// Free for the frame allocator.
    Usable,
    /// Occupied by the kernel or the boot loader.
    InUse,
    /// Never to be touched.
    Reserved,
}

/// One boot memory region descriptor: a frame-number range plus its tag.
/// `end_frame_number` is exclusive.
#[derive(Clone, Copy, PartialEq, Eq, Structural, Debug)]
pub struct MemoryRegion {
    pub start_frame_number: u64,
    pub end_frame_number: u64,
    pub region_type: MemoryRegionType,
}

/// Number of frames a region spans.
pub open spec fn region_frame_count(r: MemoryRegion) -> int {
    if r.end_frame_number >= r.start_frame_number {
        r.end_frame_number - r.start_frame_number
    } else {
        0
    }
}

/// The frame start addresses of one region, in ascending order.
pub open spec fn region_frames(r: MemoryRegion) -> Seq<u64> {
    Seq::new(region_frame_count(r) as nat, |i: int| ((r.start_frame_number + i) * PAGE_SIZE) as u64)
}

/// The frame start addresses of all usable regions, in descriptor order.
pub open spec fn usable_frames_seq(regions: Seq<MemoryRegion>) -> Seq<u64>
    decreases regions.len(),
{
    if regions.len() == 0 {
        Seq::empty()
    } else {
        let head = if regions[0].region_type == MemoryRegionType::Usable {
            region_frames(regions[0])
        } else {
            Seq::empty()
        };
        head + usable_frames_seq(regions.drop_first())
    }
}

/// Every region is a proper range whose frame numbers stay below the
/// architectural limit.
pub open spec fn regions_wf(regions: Seq<MemoryRegion>) -> bool {
    forall|i: int|
        0 <= i < regions.len() ==> #[trigger] regions[i].end_frame_number <= MAX_FRAME_NUMBER
            && regions[i].start_frame_number <= regions[i].end_frame_number
}

/// Regions are sorted by address and pairwise disjoint, as the boot loader
/// guarantees of the map it hands over.
pub open spec fn regions_sorted(regions: Seq<MemoryRegion>) -> bool {
    forall|i: int|
        0 <= i && i + 1 < regions.len() ==> #[trigger] regions[i].end_frame_number
            <= regions[i + 1].start_frame_number
}

/// The frame-allocation interface: a source of page-aligned physical frames.
/// `avail()` is the exact stream of frame start addresses the source will
/// yield, front first.
pub trait FrameAllocator: Sized {
    /// The frame start addresses still to be handed out, in order.
    spec fn avail(&self) -> Seq<u64>;

    /// Validity of the allocator's own state.
    spec fn wf(&self) -> bool;

    /// The frames an allocator yields are pairwise distinct, page aligned
    /// and below the entry address-field limit.
    proof fn avail_properties(&self)
        requires
            self.wf(),
        ensures
            forall|i: int, j: int|
                0 <= i < j < self.avail().len() ==> self.avail()[i] != self.avail()[j],
            forall|i: int|
                0 <= i < self.avail().len() ==> is_page_aligned(#[trigger] self.avail()[i])
                    && self.avail()[i] < 0x10_0000_0000_0000,
    ;

    /// Hand out the next frame, or report exhaustion.
    fn allocate_frame(&mut self) -> (r: Option<PhysFrame>)
        requires
            old(self).wf(),
        ensures
            final(self).wf(),
            old(self).avail().len() == 0 ==> r is None && final(self).avail() == old(
                self,
            ).avail(),
            old(self).avail().len() > 0 ==> final(self).avail() == old(
                self,
            ).avail().drop_first() && r == Some(
                (PhysFrame { start: (PhysAddr { value: old(self).avail()[0] }) }),
            ),
    ;
}

/// An allocator that owns no frames at all; every request is refused.
pub struct EmptyFrameAllocator;

impl FrameAllocator for EmptyFrameAllocator {
    open spec fn avail(&self) -> Seq<u64> {
        Seq::empty()
    }

    open spec fn wf(&self) -> bool {
        true
    }

    proof fn avail_properties(&self) {
    }

    fn allocate_frame(&mut self) -> (r: Option<PhysFrame>) {
        None
    }
}

/// Hands out the usable frames of the boot memory map in ascending address
/// order.  The cursor only advances; a frame once issued is never reissued,
/// and there is no way to return one.
pub struct BootInfoFrameAllocator {
    pub memory_map: Vec<MemoryRegion>,
    pub next: usize,
}

impl BootInfoFrameAllocator {
    /// The full stream of usable frames described by the boot map.
    pub open spec fn usable_frames(&self) -> Seq<u64> {
        usable_frames_seq(self.memory_map@)
    }

    /// Build an allocator over a boot memory map.  The map must satisfy the
    /// boot contract: in-bounds frame numbers, sorted and disjoint regions.
    pub fn init(memory_map: Vec<MemoryRegion>) -> (r: Self)
        requires
            regions_wf(memory_map@),
            regions_sorted(memory_map@),
            usable_frames_seq(memory_map@).len() <= usize::MAX,
        ensures
            r.wf(),
            r.memory_map == memory_map,
            r.avail() == usable_frames_seq(memory_map@),
    {
        let r = BootInfoFrameAllocator { memory_map, next: 0 };
        proof {
            assert(r.avail() =~= usable_frames_seq(r.memory_map@));
        }
        r
    }
}

/// Dropping the first region keeps a region list well formed and sorted.
proof fn lemma_rest_regions_wf(regions: Seq<MemoryRegion>)
    requires
        regions.len() > 0,
        regions_wf(regions),
    ensures
        regions_wf(regions.drop_first()),
        regions_sorted(regions) ==> regions_sorted(regions.drop_first()),
{
    let rest = regions.drop_first();
    assert forall|i: int| 0 <= i < rest.len() implies #[trigger] rest[i].end_frame_number
        <= MAX_FRAME_NUMBER && rest[i].start_frame_number <= rest[i].end_frame_number by {
        assert(rest[i] == regions[i + 1]);
    }
    if regions_sorted(regions) {
        assert forall|i: int| 0 <= i && i + 1 < rest.len() implies #[trigger] rest[i].end_frame_number
            <= rest[i + 1].start_frame_number by {
            assert(rest[i] == regions[i + 1]);
            assert(rest[i + 1] == regions[i + 2]);
        }
    }
}

/// `usable_frames_seq` of a single region is that region's usable frames.
proof fn lemma_usable_frames_seq_singleton(r: MemoryRegion)
    ensures
        usable_frames_seq(seq![r]) == if r.region_type == MemoryRegionType::Usable {
            region_frames(r)
        } else {
            Seq::<u64>::empty()
        },
{
    reveal_with_fuel(usable_frames_seq, 2);
    assert(seq![r].drop_first() =~= Seq::<MemoryRegion>::empty());
    let head = if r.region_type == MemoryRegionType::Usable {
        region_frames(r)
    } else {
        Seq::<u64>::empty()
    };
    assert(usable_frames_seq(seq![r]) =~= head);
}

/// `usable_frames_seq` distributes over concatenation of region lists.
proof fn lemma_usable_frames_seq_concat(a: Seq<MemoryRegion>, b: Seq<MemoryRegion>)
    ensures
        usable_frames_seq(a + b) == usable_frames_seq(a) + usable_frames_seq(b),
    decreases a.len(),
{
    if a.len() == 0 {
        assert(a + b =~= b);
        assert(usable_frames_seq(a) + usable_frames_seq(b) =~= usable_frames_seq(b));
    } else {
        lemma_usable_frames_seq_concat(a.drop_first(), b);
        assert((a + b).drop_first() =~= a.drop_first() + b);
        let head = if a[0].region_type == MemoryRegionType::Usable {
            region_frames(a[0])
        } else {
            Seq::empty()
        };
        assert(usable_frames_seq(a + b) =~= head + usable_frames_seq(a.drop_first()) + usable_frames_seq(b));
        assert(usable_frames_seq(a) + usable_frames_seq(b) =~= head + usable_frames_seq(
            a.drop_first(),
        ) + usable_frames_seq(b));
    }
}

impl FrameAllocator for BootInfoFrameAllocator {
    open spec fn avail(&self) -> Seq<u64> {
        self.usable_frames().skip(self.next as int)
    }

    open spec fn wf(&self) -> bool {
        &&& regions_wf(self.memory_map@)
        &&& regions_sorted(self.memory_map@)
        &&& self.next <= self.usable_frames().len()
        &&& self.usable_frames().len() <= usize::MAX
    }

    proof fn avail_properties(&self) {
        lemma_usable_frames_increasing(self.memory_map@);
        lemma_usable_frames_in_bounds(self.memory_map@);
        assert forall|i: int, j: int| 0 <= i < j < self.avail().len() implies self.avail()[i]
            != self.avail()[j] by {
            assert(self.avail()[i] == self.usable_frames()[self.next + i]);
            assert(self.avail()[j] == self.usable_frames()[self.next + j]);
        }
        assert forall|i: int| 0 <= i < self.avail().len() implies is_page_aligned(
            #[trigger] self.avail()[i],
        ) && self.avail()[i] < 0x10_0000_0000_0000 by {
            assert(self.avail()[i] == self.usable_frames()[self.next + i]);
        }
    }

    fn allocate_frame(&mut self) -> (r: Option<PhysFrame>) {
        let ghost all = self.usable_frames();
        let mut remaining: usize = self.next;
        let mut i: usize = 0;
        proof {
            assert(self.memory_map@.take(0) =~= Seq::<MemoryRegion>::empty());
            assert(self.memory_map@.skip(0) =~= self.memory_map@);
        }
        while i < self.memory_map.len()
            invariant
                self == old(self),
                old(self).wf(),
                regions_wf(self.memory_map@),
                i <= self.memory_map@.len(),
                all == usable_frames_seq(self.memory_map@),
                remaining <= self.next,
                self.next <= all.len(),
                all.len() <= usize::MAX,
                usable_frames_seq(self.memory_map@.take(i as int)).len() == self.next - remaining,
                all == usable_frames_seq(self.memory_map@.take(i as int)) + usable_frames_seq(
                    self.memory_map@.skip(i as int),
                ),
            decreases self.memory_map@.len() - i,
        {
            let ghost prefix = self.memory_map@.take(i as int);
            let ghost r0 = self.memory_map@[i as int];
            let ghost head = if r0.region_type == MemoryRegionType::Usable {
                region_frames(r0)
            } else {
                Seq::<u64>::empty()
            };
            proof {
                assert(self.memory_map@.take(i + 1) =~= prefix + seq![r0]);
                lemma_usable_frames_seq_concat(prefix, seq![r0]);
                lemma_usable_frames_seq_singleton(r0);
                assert(usable_frames_seq(self.memory_map@.take(i + 1)) =~= usable_frames_seq(
                    prefix,
                ) + head);
                assert(self.memory_map@.skip(i as int)[0] == r0);
                assert(self.memory_map@.skip(i as int).drop_first() =~= self.memory_map@.skip(
                    i + 1,
                ));
                assert(usable_frames_seq(self.memory_map@.skip(i as int)) =~= head
                    + usable_frames_seq(self.memory_map@.skip(i + 1)));
            }
            let region = self.memory_map[i];
            if matches!(region.region_type, MemoryRegionType::Usable)
                && region.end_frame_number > region.start_frame_number {
                let count = region.end_frame_number - region.start_frame_number;
                proof {
                    assert(head.len() == count);
                }
                if (remaining as u64) < count {
                    proof {
                        lemma_region_frame_fits(r0, remaining as int);
                    }
                    let frame_number = region.start_frame_number + (remaining as u64);
                    let address = frame_number * PAGE_SIZE;
                    proof {
                        assert(usable_frames_seq(prefix).len() + head.len() <= all.len());
                        assert(self.next < all.len());
                        assert(head[remaining as int] == address);
                        assert(all[usable_frames_seq(prefix).len() + remaining] == address);
                        assert(all[self.next as int] == address);
                        assert(self.avail()[0] == address);
                        assert(all.skip(self.next as int).drop_first() =~= all.skip(
                            self.next + 1,
                        ));
                    }
                    self.next = self.next + 1;
                    return Some(PhysFrame { start: PhysAddr { value: address } });
                }
                remaining = remaining - (count as usize);
            } else {
                proof {
                    assert(head.len() == 0);
                }
            }
            i = i + 1;
        }
        proof {
            assert(self.memory_map@.take(self.memory_map@.len() as int) =~= self.memory_map@);
            assert(self.memory_map@.skip(self.memory_map@.len() as int) =~= Seq::<
                MemoryRegion,
            >::empty());
            assert(usable_frames_seq(self.memory_map@).len() == self.next - remaining);
            assert(self.next == all.len());
            assert(self.avail().len() == 0);
        }
        None
    }
}

/// With a sorted, disjoint boot map the usable-frame stream is strictly
/// increasing: for any run of allocations the returned frames are pairwise
/// distinct and non-decreasing within each usable region.
pub proof fn lemma_usable_frames_increasing(regions: Seq<MemoryRegion>)
    requires
        regions_wf(regions),
        regions_sorted(regions),
    ensures
        forall|i: int, j: int|
            0 <= i < j < usable_frames_seq(regions).len() ==> #[trigger] usable_frames_seq(
                regions,
            )[i] < #[trigger] usable_frames_seq(regions)[j],
    decreases regions.len(),
{
    if regions.len() > 0 {
        let rest = regions.drop_first();
        lemma_rest_regions_wf(regions);
        lemma_usable_frames_increasing(rest);
        lemma_usable_frames_lower_bound(rest, regions[0].end_frame_number);
        let s = usable_frames_seq(regions);
        let head = if regions[0].region_type == MemoryRegionType::Usable {
            region_frames(regions[0])
        } else {
            Seq::empty()
        };
        assert forall|i: int, j: int| 0 <= i < j < s.len() implies s[i] < s[j] by {
            if j < head.len() {
                assert(s[i] == head[i] && s[j] == head[j]);
                assert(((regions[0].start_frame_number + i) * PAGE_SIZE) < ((
                regions[0].start_frame_number + j) * PAGE_SIZE)) by (nonlinear_arith)
                    requires
                        0 <= i < j,
                        PAGE_SIZE > 0,
                ;
                lemma_region_frame_fits(regions[0], i);
                lemma_region_frame_fits(regions[0], j);
            } else if i >= head.len() {
                assert(s[i] == usable_frames_seq(rest)[i - head.len()]);
                assert(s[j] == usable_frames_seq(rest)[j - head.len()]);
            } else {
                assert(s[i] == head[i]);
                assert(s[j] == usable_frames_seq(rest)[j - head.len()]);
                lemma_region_frame_fits(regions[0], i);
                assert((regions[0].start_frame_number + i) < regions[0].end_frame_number);
                assert(((regions[0].start_frame_number + i) * PAGE_SIZE)
                    < regions[0].end_frame_number * PAGE_SIZE) by (nonlinear_arith)
                    requires
                        (regions[0].start_frame_number + i) < regions[0].end_frame_number,
                        PAGE_SIZE > 0,
                ;
            }
        }
    }
}

/// Every frame of `regions` lies at or above `bound * PAGE_SIZE` when all
/// regions start at or above `bound`.
proof fn lemma_usable_frames_lower_bound(regions: Seq<MemoryRegion>, bound: u64)
    requires
        regions_wf(regions),
        regions_sorted(regions),
        regions.len() > 0 ==> bound <= regions[0].start_frame_number,
    ensures
        forall|k: int|
            0 <= k < usable_frames_seq(regions).len() ==> (bound * PAGE_SIZE)
                <= #[trigger] usable_frames_seq(regions)[k],
    decreases regions.len(),
{
    if regions.len() > 0 {
        let rest = regions.drop_first();
        lemma_rest_regions_wf(regions);
        if rest.len() > 0 {
            assert(regions[0].end_frame_number <= rest[0].start_frame_number);
        }
        lemma_usable_frames_lower_bound(rest, regions[0].end_frame_number);
        let s = usable_frames_seq(regions);
        let head = if regions[0].region_type == MemoryRegionType::Usable {
            region_frames(regions[0])
        } else {
            Seq::empty()
        };
        assert forall|k: int| 0 <= k < s.len() implies (bound * PAGE_SIZE) <= s[k] by {
            if k < head.len() {
                assert(s[k] == head[k]);
                lemma_region_frame_fits(regions[0], k);
                assert((bound * PAGE_SIZE) <= ((regions[0].start_frame_number + k) * PAGE_SIZE))
                    by (nonlinear_arith)
                    requires
                        bound <= regions[0].start_frame_number + k,
                        PAGE_SIZE > 0,
                ;
            } else {
                assert(s[k] == usable_frames_seq(rest)[k - head.len()]);
                assert((regions[0].end_frame_number * PAGE_SIZE) <= s[k]);
                assert((bound * PAGE_SIZE) <= (regions[0].end_frame_number * PAGE_SIZE))
                    by (nonlinear_arith)
                    requires
                        bound <= regions[0].end_frame_number,
                        PAGE_SIZE > 0,
                ;
            }
        }
    }
}

/// A frame address inside a well-formed region does not overflow and stays
/// page aligned and below the entry address-field limit.
proof fn lemma_region_frame_fits(r: MemoryRegion, i: int)
    requires
        r.end_frame_number <= MAX_FRAME_NUMBER,
        0 <= i < region_frame_count(r),
    ensures
        (r.start_frame_number + i) * PAGE_SIZE == region_frames(r)[i],
        (r.start_frame_number + i) * PAGE_SIZE < 0x10_0000_0000_0000,
        is_page_aligned(region_frames(r)[i]),
{
    assert((r.start_frame_number + i) < MAX_FRAME_NUMBER);
    assert((r.start_frame_number + i) * PAGE_SIZE < MAX_FRAME_NUMBER * PAGE_SIZE)
        by (nonlinear_arith)
        requires
            (r.start_frame_number + i) < MAX_FRAME_NUMBER,
            PAGE_SIZE > 0,
    ;
    assert(((r.start_frame_number + i) * PAGE_SIZE) % (PAGE_SIZE as int) == 0) by (nonlinear_arith)
        requires
            PAGE_SIZE > 0,
    ;
}

/// Every usable frame is page aligned and below the entry address-field
/// limit.
proof fn lemma_usable_frames_in_bounds(regions: Seq<MemoryRegion>)
    requires
        regions_wf(regions),
    ensures
        forall|k: int|
            0 <= k < usable_frames_seq(regions).len() ==> is_page_aligned(
                #[trigger] usable_frames_seq(regions)[k],
            ) && usable_frames_seq(regions)[k] < 0x10_0000_0000_0000,
    decreases regions.len(),
{
    if regions.len() > 0 {
        let rest = regions.drop_first();
        lemma_rest_regions_wf(regions);
        lemma_usable_frames_in_bounds(rest);
        let s = usable_frames_seq(regions);
        let head = if regions[0].region_type == MemoryRegionType::Usable {
            region_frames(regions[0])
        } else {
            Seq::empty()
        };
        assert forall|k: int| 0 <= k < s.len() implies is_page_aligned(#[trigger] s[k]) && s[k]
            < 0x10_0000_0000_0000 by {
            if k < head.len() {
                lemma_region_frame_fits(regions[0], k);
            } else {
                assert(s[k] == usable_frames_seq(rest)[k - head.len()]);
            }
        }
    }
}

/// Errors of the memory subsystem.
#[derive(Clone, Copy, PartialEq, Eq, Structural, Debug)]
pub enum MemoryError {
    /// Physical memory is exhausted.
    FrameAllocationFailed,
    /// The virtual page is already mapped.
    MappingConflict,
    /// There is no mapping to remove.
    UnmapMissing,
    /// No size-class batch and no fallback block satisfies the request.
    AllocationFailed,
}

/// Entry flag: the entry is in use.
pub const FLAG_PRESENT: u64 = 1;

/// Entry flag: writes are allowed through this entry.
pub const FLAG_WRITABLE: u64 = 2;

/// Entry flag: caching is disabled, as device registers need.
pub const FLAG_NO_CACHE: u64 = 0x10;

/// Entry flag: the entry is a huge-page leaf at a non-leaf level.  The
/// mapper never creates such entries and the translator treats them as an
/// unsupported condition, excluded by well-formedness.
pub const FLAG_HUGE_PAGE: u64 = 0x80;

/// The bits of an entry that hold the target frame's start address.
pub const ENTRY_ADDR_MASK: u64 = 0x000F_FFFF_FFFF_F000;

/// Number of entries in one page table.
pub const ENTRY_COUNT: usize = 512;

/// Whether an entry is in use.
pub open spec fn entry_present(e: u64) -> bool {
    e & FLAG_PRESENT != 0
}

/// Whether an entry carries the huge-page flag.
pub open spec fn entry_huge(e: u64) -> bool {
    e & FLAG_HUGE_PAGE != 0
}

/// The frame start address an entry points at.
pub open spec fn entry_target(e: u64) -> u64 {
    e & ENTRY_ADDR_MASK
}

/// Index of `va` into the table at the given level (4 at the root, 1 at the
/// leaves).
pub open spec fn level_index(va: u64, level: int) -> int {
    if level == 4 {
        ((va >> 39) & 0x1ff) as int
    } else if level == 3 {
        ((va >> 30) & 0x1ff) as int
    } else if level == 2 {
        ((va >> 21) & 0x1ff) as int
    } else {
        ((va >> 12) & 0x1ff) as int
    }
}

/// The bits of a virtual address that the walk reads: the four table
/// indices.  Two addresses with equal walk bits translate alike.
pub open spec fn walk_bits(va: u64) -> u64 {
    va & 0x0000_FFFF_FFFF_F000
}

/// Every table index is in range, and addresses with equal walk bits have
/// equal indices at every level.
pub proof fn lemma_level_index(va: u64, vb: u64)
    ensures
        0 <= level_index(va, 4) < 512,
        0 <= level_index(va, 3) < 512,
        0 <= level_index(va, 2) < 512,
        0 <= level_index(va, 1) < 512,
        walk_bits(va) == walk_bits(vb) <==> level_index(va, 4) == level_index(vb, 4)
            && level_index(va, 3) == level_index(vb, 3) && level_index(va, 2) == level_index(vb, 2)
            && level_index(va, 1) == level_index(vb, 1),
{
    assert(((va >> 39) & 0x1ff) < 512 && ((va >> 30) & 0x1ff) < 512 && ((va >> 21) & 0x1ff) < 512
        && ((va >> 12) & 0x1ff) < 512) by (bit_vector);
    assert(va & 0x0000_FFFF_FFFF_F000 == vb & 0x0000_FFFF_FFFF_F000 <==> (((va >> 39) & 0x1ff) == ((
    vb >> 39) & 0x1ff) && ((va >> 30) & 0x1ff) == ((vb >> 30) & 0x1ff) && ((va >> 21) & 0x1ff) == ((
    vb >> 21) & 0x1ff) && ((va >> 12) & 0x1ff) == ((vb >> 12) & 0x1ff))) by (bit_vector);
}

/// The walk reads a virtual address only through its walk bits.
pub proof fn lemma_walk_same_bits(s: Seq<PageTable>, va: u64, vb: u64)
    requires
        walk_bits(va) == walk_bits(vb),
    ensures
        walk_entry(s, va) == walk_entry(s, vb),
{
    lemma_level_index(va, vb);
}

/// One level of the page-table hierarchy: 512 entries in the hardware bit
/// layout, together with the physical frame that holds the table.  The
/// level is model bookkeeping only; the hardware table does not store it.
pub struct PageTable {
    pub frame: u64,
    pub level: Ghost<nat>,
    pub entries: Vec<u64>,
}

/// The live page-table hierarchy as data: the root table first, every other
/// table reachable from it by entry pointers.
pub struct PageTableHierarchy {
    pub tables: Vec<PageTable>,
}

/// First table of `s` whose frame is `f`, the way a walk resolves an entry
/// pointer.
pub open spec fn lookup(s: Seq<PageTable>, f: u64) -> Option<PageTable>
    decreases s.len(),
{
    if s.len() == 0 {
        None
    } else if s[0].frame == f {
        Some(s[0])
    } else {
        lookup(s.drop_first(), f)
    }
}

/// No two tables share a frame.
pub open spec fn distinct_frames(s: Seq<PageTable>) -> bool {
    forall|i: int, j: int| 0 <= i < j < s.len() ==> s[i].frame != s[j].frame
}

/// One step of the walk: read the entry for `va` at `level` in `t` and
/// resolve the table it points at.
pub open spec fn walk_step(s: Seq<PageTable>, t: PageTable, va: u64, level: int) -> Option<
    PageTable,
> {
    let e = t.entries@[level_index(va, level)];
    if entry_present(e) && !entry_huge(e) {
        lookup(s, entry_target(e))
    } else {
        None
    }
}

/// The four-level walk: the leaf entry that maps `va`, or `None` where any
/// level leaves it unmapped.
pub open spec fn walk_entry(s: Seq<PageTable>, va: u64) -> Option<u64> {
    if s.len() == 0 {
        None
    } else {
        match walk_step(s, s[0], va, 4) {
            None => None,
            Some(t3) => match walk_step(s, t3, va, 3) {
                None => None,
                Some(t2) => match walk_step(s, t2, va, 2) {
                    None => None,
                    Some(t1) => {
                        let e1 = t1.entries@[level_index(va, 1)];
                        if entry_present(e1) {
                            Some(e1)
                        } else {
                            None
                        }
                    },
                },
            },
        }
    }
}

/// The physical address `va` translates to: the leaf entry's frame plus the
/// page offset.
pub open spec fn translate_spec(s: Seq<PageTable>, va: u64) -> Option<u64> {
    match walk_entry(s, va) {
        Some(e) => Some((entry_target(e) + (va % PAGE_SIZE)) as u64),
        None => None,
    }
}

/// Present entries of tables above the leaf level are not huge and point at
/// an existing table of the level below.
pub open spec fn entries_closed(s: Seq<PageTable>) -> bool {
    forall|i: int, k: int|
        0 <= i < s.len() && 0 <= k < 512 && s[i].level@ >= 2 && entry_present(
            #[trigger] s[i].entries@[k],
        ) ==> !entry_huge(s[i].entries@[k]) && match lookup(s, entry_target(s[i].entries@[k])) {
            Some(c) => c.level@ == s[i].level@ - 1,
            None => false,
        }
}

/// No table frame is pointed at by two different entries: the hierarchy is
/// a tree, not a graph.
pub open spec fn parents_injective(s: Seq<PageTable>) -> bool {
    forall|i1: int, k1: int, i2: int, k2: int|
        0 <= i1 < s.len() && 0 <= k1 < 512 && 0 <= i2 < s.len() && 0 <= k2 < 512 && s[i1].level@
            >= 2 && s[i2].level@ >= 2 && entry_present(#[trigger] s[i1].entries@[k1])
            && entry_present(#[trigger] s[i2].entries@[k2]) && entry_target(s[i1].entries@[k1])
            == entry_target(s[i2].entries@[k2]) ==> i1 == i2 && k1 == k2
}

/// Validity of a hierarchy: a level-4 root, full tables, bounded and
/// pairwise distinct frames, entries closed under lookup, and tree shape.
pub open spec fn tables_wf(s: Seq<PageTable>) -> bool {
    &&& s.len() >= 1
    &&& s[0].level@ == 4
    &&& forall|i: int| 0 <= i < s.len() ==> (#[trigger] s[i].entries@.len()) == 512
    &&& forall|i: int| 0 <= i < s.len() ==> 1 <= (#[trigger] s[i].level@) <= 4
    &&& forall|i: int|
        0 <= i < s.len() ==> is_page_aligned(#[trigger] s[i].frame) && s[i].frame
            < 0x10_0000_0000_0000
    &&& distinct_frames(s)
    &&& entries_closed(s)
    &&& parents_injective(s)
}

impl PageTableHierarchy {
    /// Validity of the hierarchy.
    pub open spec fn wf(&self) -> bool {
        tables_wf(self.tables@)
    }

    /// Whether some table of the hierarchy occupies frame `f`.
    pub open spec fn has_table_frame(&self, f: u64) -> bool {
        lookup(self.tables@, f) is Some
    }

    /// Locate the active hierarchy, given the frame that the page-table
    /// root register names.  The root starts empty: nothing is mapped.
    pub fn init(root_frame: PhysFrame) -> (r: PageTableHierarchy)
        requires
            is_page_aligned(root_frame.start.value),
            root_frame.start.value < 0x10_0000_0000_0000,
        ensures
            r.wf(),
            r.tables@.len() == 1,
            r.tables@[0].frame == root_frame.start.value,
            forall|va: u64| walk_entry(r.tables@, va) is None,
    {
        let entries: Vec<u64> = vec![0u64; 512];
        let root = PageTable { frame: root_frame.start.value, level: Ghost(4nat), entries };
        let tables_vec: Vec<PageTable> = vec![root];
        let r = PageTableHierarchy { tables: tables_vec };
        proof {
            assert(0u64 & 1u64 == 0u64) by (bit_vector);
            assert(!entry_present(0u64));
            assert(r.tables@.len() == 1);
            assert(r.tables@[0].entries@.len() == 512);
            assert(forall|k: int| 0 <= k < 512 ==> r.tables@[0].entries@[k] == 0u64);
            assert(entries_closed(r.tables@));
            assert(parents_injective(r.tables@));
            assert forall|va: u64| walk_entry(r.tables@, va) is None by {
                lemma_level_index(va, va);
                assert(r.tables@[0].entries@[level_index(va, 4)] == 0u64);
            }
        }
        r
    }
}

/// Skipping tables whose frames all differ from `f` leaves `lookup`
/// unchanged.
proof fn lemma_lookup_skip(s: Seq<PageTable>, j: int, f: u64)
    requires
        0 <= j <= s.len(),
        forall|k: int| 0 <= k < j ==> (#[trigger] s[k]).frame != f,
    ensures
        lookup(s, f) == lookup(s.skip(j), f),
    decreases j,
{
    if j > 0 {
        assert(s.skip(0) =~= s);
        assert(s.drop_first().skip(j - 1) =~= s.skip(j));
        let rest = s.drop_first();
        assert forall|k: int| 0 <= k < j - 1 implies (#[trigger] rest[k]).frame != f by {
            assert(rest[k] == s[k + 1]);
        }
        lemma_lookup_skip(rest, j - 1, f);
    } else {
        assert(s.skip(0) =~= s);
    }
}

impl PageTableHierarchy {
    /// Position of the table occupying frame `frame`, as a walk resolves an
    /// entry pointer.
    fn find_table(&self, frame: u64) -> (r: Option<usize>)
        ensures
            match r {
                Some(i) => i < self.tables@.len() && self.tables@[i as int].frame == frame
                    && lookup(self.tables@, frame) == Some(self.tables@[i as int]),
                None => lookup(self.tables@, frame) is None,
            },
    {
        let ghost s = self.tables@;
        let mut j: usize = 0;
        while j < self.tables.len()
            invariant
                s == self.tables@,
                j <= s.len(),
                forall|k: int| 0 <= k < j ==> (#[trigger] s[k]).frame != frame,
            decreases s.len() - j,
        {
            if self.tables[j].frame == frame {
                proof {
                    lemma_lookup_skip(s, j as int, frame);
                    assert(s.skip(j as int)[0] == s[j as int]);
                }
                return Some(j);
            }
            j = j + 1;
        }
        proof {
            lemma_lookup_skip(s, s.len() as int, frame);
            assert(s.skip(s.len() as int) =~= Seq::<PageTable>::empty());
        }
        None
    }
}

/// Walk the active hierarchy and resolve `addr` to the physical address it
/// maps to, or report that it is unmapped.  Huge-page leaves are an
/// unsupported condition, excluded by `mapper.wf()`.
pub fn translate_addr(addr: VirtAddr, mapper: &PageTableHierarchy) -> (r: Option<PhysAddr>)
    requires
        mapper.wf(),
    ensures
        r is Some <==> translate_spec(mapper.tables@, addr.value) is Some,
        r is Some ==> r == Some((PhysAddr { value: translate_spec(mapper.tables@, addr.value)->0 })),
{
    let ghost s = mapper.tables@;
    let va = addr.value;
    proof {
        lemma_level_index(va, va);
    }
    let idx4 = ((va >> 39u64) & 0x1ffu64) as usize;
    let idx3 = ((va >> 30u64) & 0x1ffu64) as usize;
    let idx2 = ((va >> 21u64) & 0x1ffu64) as usize;
    let idx1 = ((va >> 12u64) & 0x1ffu64) as usize;
    let e4 = mapper.tables[0].entries[idx4];
    if e4 & FLAG_PRESENT == 0 {
        return None;
    }
    proof {
        assert(!entry_huge(e4) && lookup(s, entry_target(e4)) is Some);
    }
    let i3 = match mapper.find_table(e4 & ENTRY_ADDR_MASK) {
        Some(i) => i,
        None => {
            return None;
        },
    };
    proof {
        assert(s[i3 as int].level@ == 3);
        assert(walk_step(s, s[0], va, 4) == Some(s[i3 as int]));
    }
    let e3 = mapper.tables[i3].entries[idx3];
    if e3 & FLAG_PRESENT == 0 {
        return None;
    }
    let i2 = match mapper.find_table(e3 & ENTRY_ADDR_MASK) {
        Some(i) => i,
        None => {
            return None;
        },
    };
    proof {
        assert(s[i2 as int].level@ == 2);
        assert(walk_step(s, s[i3 as int], va, 3) == Some(s[i2 as int]));
    }
    let e2 = mapper.tables[i2].entries[idx2];
    if e2 & FLAG_PRESENT == 0 {
        return None;
    }
    let i1 = match mapper.find_table(e2 & ENTRY_ADDR_MASK) {
        Some(i) => i,
        None => {
            return None;
        },
    };
    proof {
        assert(s[i1 as int].level@ == 1);
        assert(walk_step(s, s[i2 as int], va, 2) == Some(s[i1 as int]));
    }
    let e1 = mapper.tables[i1].entries[idx1];
    if e1 & FLAG_PRESENT == 0 {
        return None;
    }
    proof {
        assert(walk_entry(s, va) == Some(e1));
        assert((e1 & ENTRY_ADDR_MASK) <= ENTRY_ADDR_MASK && (va & 0xfffu64) == va % 4096u64)
            by (bit_vector);
    }
    Some(PhysAddr { value: (e1 & ENTRY_ADDR_MASK) + (va & 0xfffu64) })
}

/// `lookup` finds exactly the tables that are in the sequence.
proof fn lemma_lookup_props(s: Seq<PageTable>, f: u64)
    ensures
        match lookup(s, f) {
            Some(t) => t.frame == f && exists|i: int| 0 <= i < s.len() && s[i] == t,
            None => forall|i: int| 0 <= i < s.len() ==> (#[trigger] s[i]).frame != f,
        },
    decreases s.len(),
{
    if s.len() > 0 && s[0].frame != f {
        lemma_lookup_props(s.drop_first(), f);
        let rest = s.drop_first();
        match lookup(s, f) {
            Some(t) => {
                let i = choose|i: int| 0 <= i < rest.len() && rest[i] == t;
                assert(s[i + 1] == t);
            },
            None => {
                assert forall|i: int| 0 <= i < s.len() implies (#[trigger] s[i]).frame != f by {
                    if i > 0 {
                        assert(rest[i - 1] == s[i]);
                    }
                }
            },
        }
    }
}

/// With distinct frames, `lookup` of table `i`'s frame returns table `i`.
proof fn lemma_lookup_at_index(s: Seq<PageTable>, i: int)
    requires
        distinct_frames(s),
        0 <= i < s.len(),
    ensures
        lookup(s, s[i].frame) == Some(s[i]),
    decreases i,
{
    if i > 0 {
        let rest = s.drop_first();
        assert forall|a: int, b: int| 0 <= a < b < rest.len() implies rest[a].frame
            != rest[b].frame by {
            assert(rest[a] == s[a + 1] && rest[b] == s[b + 1]);
        }
        assert(rest[i - 1] == s[i]);
        lemma_lookup_at_index(rest, i - 1);
        assert(s[0].frame != s[i].frame);
    }
}

/// After replacing table `j` by a table with the same frame, every lookup
/// is unchanged except at that frame, which now yields the replacement.
proof fn lemma_lookup_update(s: Seq<PageTable>, j: int, t2: PageTable, g: u64)
    requires
        0 <= j < s.len(),
        t2.frame == s[j].frame,
        distinct_frames(s),
    ensures
        lookup(s.update(j, t2), g) == if g == s[j].frame {
            Some(t2)
        } else {
            lookup(s, g)
        },
    decreases j,
{
    let s2 = s.update(j, t2);
    if j == 0 {
        assert(s2[0] == t2);
        if g != s[j].frame {
            assert(s2.drop_first() =~= s.drop_first());
        }
    } else {
        let rest = s.drop_first();
        assert forall|a: int, b: int| 0 <= a < b < rest.len() implies rest[a].frame
            != rest[b].frame by {
            assert(rest[a] == s[a + 1] && rest[b] == s[b + 1]);
        }
        assert(rest[j - 1] == s[j]);
        lemma_lookup_update(rest, j - 1, t2, g);
        assert(s2.drop_first() =~= rest.update(j - 1, t2));
        assert(s2[0] == s[0]);
        assert(s[0].frame != s[j].frame);
    }
}

/// Appending a table with a fresh frame changes no existing lookup and
/// makes the fresh frame resolve to the new table.
proof fn lemma_lookup_push(s: Seq<PageTable>, t: PageTable, g: u64)
    requires
        lookup(s, t.frame) is None,
    ensures
        lookup(s.push(t), g) == if g == t.frame {
            Some(t)
        } else {
            lookup(s, g)
        },
    decreases s.len(),
{
    lemma_lookup_props(s, t.frame);
    let s2 = s.push(t);
    if s.len() == 0 {
        assert(s2[0] == t);
        if g != t.frame {
            assert(s2.drop_first() =~= Seq::<PageTable>::empty());
        }
    } else {
        assert(s2[0] == s[0]);
        assert(s2.drop_first() =~= s.drop_first().push(t));
        lemma_lookup_push(s.drop_first(), t, g);
    }
}

/// Basic facts about the entry bit layout, for a page-aligned, in-range
/// frame `f`.
proof fn lemma_entry_encode(f: u64)
    requires
        is_page_aligned(f),
        f < 0x10_0000_0000_0000,
    ensures
        entry_present((f | FLAG_PRESENT) | FLAG_WRITABLE),
        !entry_huge((f | FLAG_PRESENT) | FLAG_WRITABLE),
        entry_target((f | FLAG_PRESENT) | FLAG_WRITABLE) == f,
        !entry_present(0u64),
{
    assert(f % 4096 == 0 && f < 0x10_0000_0000_0000 ==> (((f | 1) | 2) & 1 != 0) && (((f | 1) | 2)
        & 0x80 == 0) && (((f | 1) | 2) & 0x000F_FFFF_FFFF_F000 == f) && (0u64 & 1 == 0))
        by (bit_vector);
}

/// Installing a fresh, empty intermediate table changes no translation:
/// the new parent entry leads only to absent entries.  `s2` is `s` with
/// table `p`'s entry `k` now pointing at a zeroed table over the fresh
/// frame `f`, appended at the end.
proof fn lemma_install_preserves(s: Seq<PageTable>, s2: Seq<PageTable>, p: int, k: int, f: u64)
    requires
        tables_wf(s),
        0 <= p < s.len(),
        0 <= k < 512,
        s[p].level@ >= 2,
        !entry_present(s[p].entries@[k]),
        lookup(s, f) is None,
        is_page_aligned(f),
        f < 0x10_0000_0000_0000,
        s2.len() == s.len() + 1,
        forall|i: int| 0 <= i < s.len() && i != p ==> s2[i] == s[i],
        s2[p].frame == s[p].frame,
        s2[p].level@ == s[p].level@,
        s2[p].entries@ == s[p].entries@.update(k, (f | FLAG_PRESENT) | FLAG_WRITABLE),
        s2[s.len() as int].frame == f,
        s2[s.len() as int].level@ == s[p].level@ - 1,
        s2[s.len() as int].entries@ == Seq::new(512, |i: int| 0u64),
    ensures
        tables_wf(s2),
        forall|va: u64| walk_entry(s2, va) == walk_entry(s, va),
        forall|g: u64|
            lookup(s2, g) == (if g == f {
                Some(s2[s.len() as int])
            } else if g == s[p].frame {
                Some(s2[p])
            } else {
                lookup(s, g)
            }),
{
    let np = s2[p];
    let nt = s2[s.len() as int];
    let ne = (f | FLAG_PRESENT) | FLAG_WRITABLE;
    lemma_entry_encode(f);
    lemma_lookup_at_index(s, p);
    lemma_lookup_props(s, f);
    assert(s2 =~= s.update(p, np).push(nt));
    assert forall|g: u64|
        lookup(s2, g) == (if g == f {
            Some(nt)
        } else if g == s[p].frame {
            Some(np)
        } else {
            lookup(s, g)
        }) by {
        lemma_lookup_update(s, p, np, g);
        lemma_lookup_update(s, p, np, f);
        lemma_lookup_push(s.update(p, np), nt, g);
    }
    // Well-formedness of the grown hierarchy.
    assert forall|i: int| 0 <= i < s2.len() implies (#[trigger] s2[i].entries@.len()) == 512 by {
        if i == p {
        } else if i == s.len() {
        }
    }
    assert(distinct_frames(s2)) by {
        assert forall|i: int, j: int| 0 <= i < j < s2.len() implies s2[i].frame != s2[j].frame by {
            if j == s.len() {
                assert(s2[i].frame == s[i].frame);
            } else {
                assert(s2[i].frame == s[i].frame && s2[j].frame == s[j].frame);
            }
        }
    }
    assert(entries_closed(s2)) by {
        assert forall|i: int, k2: int|
            0 <= i < s2.len() && 0 <= k2 < 512 && s2[i].level@ >= 2 && entry_present(
                #[trigger] s2[i].entries@[k2],
            ) implies !entry_huge(s2[i].entries@[k2]) && match lookup(
            s2,
            entry_target(s2[i].entries@[k2]),
        ) {
            Some(c) => c.level@ == s2[i].level@ - 1,
            None => false,
        } by {
            if i == s.len() {
                assert(s2[i].entries@[k2] == 0u64);
                assert(false);
            } else if i == p && k2 == k {
                assert(s2[i].entries@[k2] == ne);
            } else {
                let e = s2[i].entries@[k2];
                assert(e == s[i].entries@[k2]);
                assert(s2[i].level@ == s[i].level@);
                let t = entry_target(e);
                assert(lookup(s, t) is Some && lookup(s, t)->0.level@ == s[i].level@ - 1);
                assert(t != f);
                if t == s[p].frame {
                    assert(lookup(s, t) == Some(s[p]));
                    assert(lookup(s2, t) == Some(np));
                }
            }
        }
    }
    assert(parents_injective(s2)) by {
        assert forall|i1: int, k1: int, i2: int, k2: int|
            0 <= i1 < s2.len() && 0 <= k1 < 512 && 0 <= i2 < s2.len() && 0 <= k2 < 512
                && s2[i1].level@ >= 2 && s2[i2].level@ >= 2 && entry_present(
                #[trigger] s2[i1].entries@[k1],
            ) && entry_present(#[trigger] s2[i2].entries@[k2]) && entry_target(s2[i1].entries@[k1])
                == entry_target(s2[i2].entries@[k2]) implies i1 == i2 && k1 == k2 by {
            if i1 == s.len() {
                assert(s2[i1].entries@[k1] == 0u64);
                assert(false);
            } else if i2 == s.len() {
                assert(s2[i2].entries@[k2] == 0u64);
                assert(false);
            } else {
                let new1 = i1 == p && k1 == k;
                let new2 = i2 == p && k2 == k;
                if new1 && new2 {
                } else if new1 {
                    assert(s2[i2].entries@[k2] == s[i2].entries@[k2]);
                    assert(entry_target(s2[i1].entries@[k1]) == f);
                    assert(lookup(s, entry_target(s[i2].entries@[k2])) is Some);
                    assert(false);
                } else if new2 {
                    assert(s2[i1].entries@[k1] == s[i1].entries@[k1]);
                    assert(entry_target(s2[i2].entries@[k2]) == f);
                    assert(lookup(s, entry_target(s[i1].entries@[k1])) is Some);
                    assert(false);
                } else {
                    assert(s2[i1].entries@[k1] == s[i1].entries@[k1]);
                    assert(s2[i2].entries@[k2] == s[i2].entries@[k2]);
                    assert(s2[i1].level@ == s[i1].level@ && s2[i2].level@ == s[i2].level@);
                }
            }
        }
    }
    // No translation changes.
    assert forall|va: u64| walk_entry(s2, va) == walk_entry(s, va) by {
        lemma_install_preserves_one(s, s2, p, k, f, va);
    }
}

/// One virtual address's walk is unchanged by installing a fresh, empty
/// intermediate table.  Helper for `lemma_install_preserves`; the first
/// three `lookup` facts restate its conclusions.
proof fn lemma_install_preserves_one(s: Seq<PageTable>, s2: Seq<PageTable>, p: int, k: int, f: u64, va: u64)
    requires
        tables_wf(s),
        0 <= p < s.len(),
        0 <= k < 512,
        s[p].level@ >= 2,
        !entry_present(s[p].entries@[k]),
        lookup(s, f) is None,
        is_page_aligned(f),
        f < 0x10_0000_0000_0000,
        s2.len() == s.len() + 1,
        forall|i: int| 0 <= i < s.len() && i != p ==> s2[i] == s[i],
        s2[p].frame == s[p].frame,
        s2[p].level@ == s[p].level@,
        s2[p].entries@ == s[p].entries@.update(k, (f | FLAG_PRESENT) | FLAG_WRITABLE),
        s2[s.len() as int].frame == f,
        s2[s.len() as int].level@ == s[p].level@ - 1,
        s2[s.len() as int].entries@ == Seq::new(512, |i: int| 0u64),
        forall|g: u64|
            lookup(s2, g) == (if g == f {
                Some(s2[s.len() as int])
            } else if g == s[p].frame {
                Some(s2[p])
            } else {
                lookup(s, g)
            }),
    ensures
        walk_entry(s2, va) == walk_entry(s, va),
{
    let np = s2[p];
    let nt = s2[s.len() as int];
    let ne = (f | FLAG_PRESENT) | FLAG_WRITABLE;
    lemma_entry_encode(f);
    lemma_lookup_at_index(s, p);
    lemma_lookup_props(s, f);
    lemma_level_index(va, va);
    let i4 = level_index(va, 4);
    let i3 = level_index(va, 3);
    let i2 = level_index(va, 2);
    let i1 = level_index(va, 1);
    assert(forall|j: int| 0 <= j < 512 ==> nt.entries@[j] == 0u64);
    if p == 0 && k == i4 {
        // The walk read the installed entry at the root; it now leads into
        // the zeroed table and still ends unmapped.
        assert(walk_step(s, s[0], va, 4) is None);
        assert(s2[0] == np);
        assert(np.entries@[i4] == ne);
        assert(walk_step(s2, s2[0], va, 4) == Some(nt));
        assert(walk_step(s2, nt, va, 3) is None);
    } else {
        let e4 = s[0].entries@[i4];
        assert(s2[0].entries@[i4] == e4);
        assert(s2[0].level@ == s[0].level@);
        if !(entry_present(e4) && !entry_huge(e4)) {
        } else {
            let g4 = entry_target(e4);
            assert(lookup(s, g4) is Some && lookup(s, g4)->0.level@ == 3);
            assert(g4 != f);
            let t3 = lookup(s, g4)->0;
            let t3n = lookup(s2, g4)->0;
            assert(walk_step(s, s[0], va, 4) == Some(t3));
            assert(walk_step(s2, s2[0], va, 4) == Some(t3n));
            if g4 == s[p].frame {
                assert(t3 == s[p] && t3n == np);
                assert(s[p].level@ == 3);
            } else {
                assert(t3n == t3);
            }
            if t3 == s[p] && t3n == np && k == i3 {
                assert(walk_step(s, t3, va, 3) is None);
                assert(t3n.entries@[i3] == ne);
                assert(walk_step(s2, t3n, va, 3) == Some(nt));
                assert(nt.level@ == 2);
                assert(walk_step(s2, nt, va, 2) is None);
            } else {
                let e3 = t3.entries@[i3];
                assert(t3n.entries@[i3] == e3 && t3n.level@ == t3.level@);
                if !(entry_present(e3) && !entry_huge(e3)) {
                } else {
                    lemma_lookup_props(s, g4);
                    let a3 = choose|a: int| 0 <= a < s.len() && s[a] == t3;
                    assert(s[a3].level@ == 3);
                    let g3 = entry_target(e3);
                    assert(lookup(s, g3) is Some && lookup(s, g3)->0.level@ == 2);
                    assert(g3 != f);
                    let t2 = lookup(s, g3)->0;
                    let t2n = lookup(s2, g3)->0;
                    assert(walk_step(s, t3, va, 3) == Some(t2));
                    assert(walk_step(s2, t3n, va, 3) == Some(t2n));
                    if g3 == s[p].frame {
                        assert(t2 == s[p] && t2n == np);
                        assert(s[p].level@ == 2);
                    } else {
                        assert(t2n == t2);
                    }
                    if t2 == s[p] && t2n == np && k == i2 {
                        assert(walk_step(s, t2, va, 2) is None);
                        assert(t2n.entries@[i2] == ne);
                        assert(walk_step(s2, t2n, va, 2) == Some(nt));
                        assert(nt.level@ == 1);
                        assert(!entry_present(nt.entries@[i1]));
                    } else {
                        let e2 = t2.entries@[i2];
                        assert(t2n.entries@[i2] == e2 && t2n.level@ == t2.level@);
                        if !(entry_present(e2) && !entry_huge(e2)) {
                        } else {
                            lemma_lookup_props(s, g3);
                            let a2 = choose|a: int| 0 <= a < s.len() && s[a] == t2;
                            assert(s[a2].level@ == 2);
                            let g2 = entry_target(e2);
                            assert(lookup(s, g2) is Some && lookup(s, g2)->0.level@ == 1);
                            assert(g2 != f);
                            let t1 = lookup(s, g2)->0;
                            assert(g2 != s[p].frame) by {
                                if g2 == s[p].frame {
                                    assert(lookup(s, g2) == Some(s[p]));
                                }
                            }
                            assert(lookup(s2, g2) == Some(t1));
                            assert(walk_step(s, t2, va, 2) == Some(t1));
                            assert(walk_step(s2, t2n, va, 2) == Some(t1));
                        }
                    }
                }
            }
        }
    }
}

/// Number of intermediate tables still missing on `va`'s walk path: the
/// frames `map_to` must obtain before it can install a leaf entry.
pub open spec fn missing_tables(s: Seq<PageTable>, va: u64) -> int {
    if s.len() == 0 {
        3
    } else {
        match walk_step(s, s[0], va, 4) {
            None => 3,
            Some(t3) => match walk_step(s, t3, va, 3) {
                None => 2,
                Some(t2) => match walk_step(s, t2, va, 2) {
                    None => 1,
                    Some(_) => 0,
                },
            },
        }
    }
}

/// Facts about a leaf entry assembled from an aligned frame and low-bit
/// flags.
proof fn lemma_leaf_encode(f: u64, flags: u64)
    requires
        is_page_aligned(f),
        f < 0x10_0000_0000_0000,
        flags < PAGE_SIZE,
        entry_present(flags),
        !entry_huge(flags),
    ensures
        entry_present(f | flags),
        !entry_huge(f | flags),
        entry_target(f | flags) == f,
{
    assert(f % 4096 == 0 && f < 0x10_0000_0000_0000 && flags < 4096 && flags & 1 != 0 && flags
        & 0x80 == 0 ==> ((f | flags) & 1 != 0) && ((f | flags) & 0x80 == 0) && ((f | flags)
        & 0x000F_FFFF_FFFF_F000 == f)) by (bit_vector);
}

/// Rewriting one leaf entry changes the translation of exactly the
/// addresses whose walk bits select that entry, and nothing else.  `s2` is
/// `s` with the leaf table `j1` on `va`'s walk path updated at `va`'s
/// leaf index to `newe`; `j3` and `j2` are the intermediate tables of that
/// path.
proof fn lemma_leaf_update(
    s: Seq<PageTable>,
    s2: Seq<PageTable>,
    va: u64,
    j3: int,
    j2: int,
    j1: int,
    newe: u64,
)
    requires
        tables_wf(s),
        0 <= j3 < s.len(),
        0 <= j2 < s.len(),
        0 <= j1 < s.len(),
        walk_step(s, s[0], va, 4) == Some(s[j3]),
        walk_step(s, s[j3], va, 3) == Some(s[j2]),
        walk_step(s, s[j2], va, 2) == Some(s[j1]),
        s2.len() == s.len(),
        forall|i: int| 0 <= i < s.len() && i != j1 ==> s2[i] == s[i],
        s2[j1].frame == s[j1].frame,
        s2[j1].level@ == s[j1].level@,
        s2[j1].entries@ == s[j1].entries@.update(level_index(va, 1), newe),
    ensures
        tables_wf(s2),
        walk_entry(s2, va) == (if entry_present(newe) {
            Some(newe)
        } else {
            None
        }),
        forall|vb: u64|
            walk_bits(vb) != walk_bits(va) ==> walk_entry(s2, vb) == walk_entry(s, vb),
        forall|g: u64|
            lookup(s2, g) == (if g == s[j1].frame {
                Some(s2[j1])
            } else {
                lookup(s, g)
            }),
{
    let nl = s2[j1];
    let i4 = level_index(va, 4);
    let i3 = level_index(va, 3);
    let i2 = level_index(va, 2);
    let i1 = level_index(va, 1);
    lemma_level_index(va, va);
    lemma_lookup_at_index(s, j1);
    assert(s2 =~= s.update(j1, nl));
    assert forall|g: u64|
        lookup(s2, g) == (if g == s[j1].frame {
            Some(nl)
        } else {
            lookup(s, g)
        }) by {
        lemma_lookup_update(s, j1, nl, g);
    }
    // The walk path facts, as indexed entries.
    let e4 = s[0].entries@[i4];
    let e3 = s[j3].entries@[i3];
    let e2 = s[j2].entries@[i2];
    assert(entry_present(e4) && !entry_huge(e4) && lookup(s, entry_target(e4)) == Some(s[j3]));
    assert(entry_present(e3) && !entry_huge(e3) && lookup(s, entry_target(e3)) == Some(s[j2]));
    assert(entry_present(e2) && !entry_huge(e2) && lookup(s, entry_target(e2)) == Some(s[j1]));
    lemma_lookup_props(s, entry_target(e4));
    lemma_lookup_props(s, entry_target(e3));
    lemma_lookup_props(s, entry_target(e2));
    assert(entry_target(e4) == s[j3].frame);
    assert(entry_target(e3) == s[j2].frame);
    assert(entry_target(e2) == s[j1].frame);
    assert(s[j3].level@ == 3 && s[j2].level@ == 2 && s[j1].level@ == 1);
    assert(j1 != 0 && j3 != 0 && j2 != 0 && j1 != j3 && j1 != j2);
    // The rewritten address itself.
    assert(s2[0] == s[0] && s2[j3] == s[j3] && s2[j2] == s[j2]);
    assert(walk_step(s2, s2[0], va, 4) == Some(s[j3]));
    assert(walk_step(s2, s[j3], va, 3) == Some(s[j2]));
    assert(walk_step(s2, s[j2], va, 2) == Some(nl));
    assert(nl.entries@[i1] == newe);
    // Well-formedness: only a leaf table's entries changed.
    assert(entries_closed(s2)) by {
        assert forall|i: int, k2: int|
            0 <= i < s2.len() && 0 <= k2 < 512 && s2[i].level@ >= 2 && entry_present(
                #[trigger] s2[i].entries@[k2],
            ) implies !entry_huge(s2[i].entries@[k2]) && match lookup(
            s2,
            entry_target(s2[i].entries@[k2]),
        ) {
            Some(c) => c.level@ == s2[i].level@ - 1,
            None => false,
        } by {
            assert(s2[i].entries@[k2] == s[i].entries@[k2]);
            assert(s2[i].level@ == s[i].level@);
            let t = entry_target(s[i].entries@[k2]);
            assert(lookup(s, t) is Some && lookup(s, t)->0.level@ == s[i].level@ - 1);
            if t == s[j1].frame {
                assert(lookup(s, t) == Some(s[j1]));
                assert(lookup(s2, t) == Some(nl));
            }
        }
    }
    assert(parents_injective(s2)) by {
        assert forall|a1: int, k1: int, a2: int, k2: int|
            0 <= a1 < s2.len() && 0 <= k1 < 512 && 0 <= a2 < s2.len() && 0 <= k2 < 512
                && s2[a1].level@ >= 2 && s2[a2].level@ >= 2 && entry_present(
                #[trigger] s2[a1].entries@[k1],
            ) && entry_present(#[trigger] s2[a2].entries@[k2]) && entry_target(s2[a1].entries@[k1])
                == entry_target(s2[a2].entries@[k2]) implies a1 == a2 && k1 == k2 by {
            assert(s2[a1].entries@[k1] == s[a1].entries@[k1]);
            assert(s2[a2].entries@[k2] == s[a2].entries@[k2]);
            assert(s2[a1].level@ == s[a1].level@ && s2[a2].level@ == s[a2].level@);
        }
    }
    // Framing: any address with different walk bits is untouched.
    assert forall|vb: u64| walk_bits(vb) != walk_bits(va) implies walk_entry(s2, vb)
        == walk_entry(s, vb) by {
        lemma_level_index(vb, va);
        let b4 = level_index(vb, 4);
        let b3 = level_index(vb, 3);
        let b2 = level_index(vb, 2);
        let b1 = level_index(vb, 1);
        let f4 = s[0].entries@[b4];
        assert(s2[0].entries@[b4] == f4);
        if entry_present(f4) && !entry_huge(f4) {
            let h4 = entry_target(f4);
            assert(lookup(s, h4) is Some && lookup(s, h4)->0.level@ == 3);
            let u3 = lookup(s, h4)->0;
            assert(h4 != s[j1].frame) by {
                if h4 == s[j1].frame {
                    assert(lookup(s, h4) == Some(s[j1]));
                }
            }
            assert(lookup(s2, h4) == Some(u3));
            let f3 = u3.entries@[b3];
            if entry_present(f3) && !entry_huge(f3) {
                lemma_lookup_props(s, h4);
                let c3 = choose|a: int| 0 <= a < s.len() && s[a] == u3;
                assert(s[c3].level@ == 3);
                let h3 = entry_target(f3);
                assert(lookup(s, h3) is Some && lookup(s, h3)->0.level@ == 2);
                let u2 = lookup(s, h3)->0;
                assert(h3 != s[j1].frame) by {
                    if h3 == s[j1].frame {
                        assert(lookup(s, h3) == Some(s[j1]));
                    }
                }
                assert(lookup(s2, h3) == Some(u2));
                let f2 = u2.entries@[b2];
                if entry_present(f2) && !entry_huge(f2) {
                    lemma_lookup_props(s, h3);
                    let c2 = choose|a: int| 0 <= a < s.len() && s[a] == u2;
                    assert(s[c2].level@ == 2);
                    let h2 = entry_target(f2);
                    assert(lookup(s, h2) is Some && lookup(s, h2)->0.level@ == 1);
                    let u1 = lookup(s, h2)->0;
                    if h2 == s[j1].frame {
                        // The walks share the leaf table; climb the tree to
                        // show they share every index above the leaf.
                        assert(u1 == s[j1]);
                        assert(lookup(s2, h2) == Some(nl));
                        assert(s[c2].entries@[b2] == f2 && entry_target(f2) == s[j1].frame);
                        assert(s[j2].entries@[i2] == e2 && entry_target(e2) == s[j1].frame);
                        assert(c2 == j2 && b2 == i2);
                        assert(s[c3].entries@[b3] == f3 && entry_target(f3) == s[j2].frame);
                        assert(s[j3].entries@[i3] == e3 && entry_target(e3) == s[j2].frame);
                        assert(c3 == j3 && b3 == i3);
                        assert(entry_target(f4) == s[j3].frame);
                        assert(b4 == i4);
                        assert(b1 != i1);
                        assert(nl.entries@[b1] == s[j1].entries@[b1]);
                        assert(walk_entry(s2, vb) == walk_entry(s, vb));
                    } else {
                        assert(lookup(s2, h2) == Some(u1));
                        assert(walk_entry(s2, vb) == walk_entry(s, vb));
                    }
                }
            }
        }
    }
}

/// No frame of `frames` is occupied by a table of `s`.  Mapping functions
/// require this of the allocator's remaining frames, so that freshly
/// allocated table frames never collide with live tables.
pub open spec fn frames_unused(s: Seq<PageTable>, frames: Seq<u64>) -> bool {
    forall|i: int| 0 <= i < frames.len() ==> lookup(s, #[trigger] frames[i]) is None
}

impl PageTableHierarchy {
    /// Make table `parent`'s entry `idx` point at a table one level below,
    /// installing a fresh zeroed table from the frame allocator when the
    /// entry is absent.  Returns the child table's position.  A fresh
    /// intermediate table maps nothing, so no translation changes; a frame
    /// consumed for it is never reclaimed, as the frame allocator has no
    /// way to take one back.
    fn ensure_child<A: FrameAllocator>(
        &mut self,
        parent: usize,
        idx: usize,
        frame_allocator: &mut A,
    ) -> (r: Result<usize, MemoryError>)
        requires
            old(self).wf(),
            old(frame_allocator).wf(),
            frames_unused(old(self).tables@, old(frame_allocator).avail()),
            parent < old(self).tables@.len(),
            idx < 512,
            old(self).tables@[parent as int].level@ >= 2,
        ensures
            final(self).wf(),
            final(frame_allocator).wf(),
            frames_unused(final(self).tables@, final(frame_allocator).avail()),
            forall|va: u64|
                walk_entry(final(self).tables@, va) == walk_entry(old(self).tables@, va),
            entry_present(old(self).tables@[parent as int].entries@[idx as int]) ==> *final(self)
                == *old(self) && final(frame_allocator).avail() == old(frame_allocator).avail()
                && r is Ok,
            !entry_present(old(self).tables@[parent as int].entries@[idx as int]) && old(
                frame_allocator,
            ).avail().len() == 0 ==> r == Err::<usize, MemoryError>(MemoryError::FrameAllocationFailed) && *final(self)
                == *old(self) && final(frame_allocator).avail() == old(frame_allocator).avail(),
            !entry_present(old(self).tables@[parent as int].entries@[idx as int]) && old(
                frame_allocator,
            ).avail().len() > 0 ==> r is Ok && r->Ok_0 == old(self).tables@.len() && final(frame_allocator).avail() == old(frame_allocator).avail().drop_first() && final(self).tables@.len()
                == old(self).tables@.len() + 1 && (
            forall|i: int|
                0 <= i < old(self).tables@.len() && i != parent ==> final(self).tables@[i] == old(
                    self,
                ).tables@[i]) && final(self).tables@[parent as int].frame == old(
                self,
            ).tables@[parent as int].frame && final(self).tables@[parent as int].level@ == old(
                self,
            ).tables@[parent as int].level@ && final(self).tables@[parent as int].entries@ == old(
                self,
            ).tables@[parent as int].entries@.update(
                idx as int,
                (old(frame_allocator).avail()[0] | FLAG_PRESENT) | FLAG_WRITABLE,
            ) && final(self).tables@[old(self).tables@.len() as int].entries@ == Seq::new(
                512,
                |i: int| 0u64,
            ),
            r is Ok ==> {
                let c = r->Ok_0 as int;
                let sf = final(self).tables@;
                &&& r->Ok_0 < sf.len()
                &&& entry_present(sf[parent as int].entries@[idx as int])
                &&& !entry_huge(sf[parent as int].entries@[idx as int])
                &&& entry_target(sf[parent as int].entries@[idx as int]) == sf[c].frame
                &&& sf[c].level@ == old(self).tables@[parent as int].level@ - 1
                &&& lookup(sf, sf[c].frame) == Some(sf[c])
                &&& sf[parent as int].frame == old(self).tables@[parent as int].frame
                &&& sf[parent as int].level@ == old(self).tables@[parent as int].level@
            },
            r is Err ==> r == Err::<usize, MemoryError>(MemoryError::FrameAllocationFailed),
    {
        let ghost s = self.tables@;
        let e = self.tables[parent].entries[idx];
        if e & FLAG_PRESENT != 0 {
            proof {
                assert(entry_present(e));
                assert(lookup(s, entry_target(e)) is Some && lookup(s, entry_target(e))->0.level@
                    == s[parent as int].level@ - 1);
            }
            match self.find_table(e & ENTRY_ADDR_MASK) {
                Some(c) => {
                    proof {
                        lemma_lookup_at_index(s, c as int);
                    }
                    Ok(c)
                },
                None => {
                    proof {
                        assert(false);
                    }
                    Err(MemoryError::FrameAllocationFailed)
                },
            }
        } else {
            proof {
                assert(!entry_present(e));
                frame_allocator.avail_properties();
            }
            match frame_allocator.allocate_frame() {
                None => Err(MemoryError::FrameAllocationFailed),
                Some(frame) => {
                    let f = frame.start_address().value;
                    let entries: Vec<u64> = vec![0u64; 512];
                    let ghost child_level: nat = (self.tables@[parent as int].level@ - 1) as nat;
                    let child = PageTable { frame: f, level: Ghost(child_level), entries };
                    let value = (f | FLAG_PRESENT) | FLAG_WRITABLE;
                    self.tables[parent].entries[idx] = value;
                    self.tables.push(child);
                    let c = self.tables.len() - 1;
                    proof {
                        let s2 = self.tables@;
                        assert(s2[c as int].entries@ =~= Seq::new(512, |i: int| 0u64));
                        assert(frames_unused(s, old(frame_allocator).avail()));
                        assert(lookup(s, f) is None);
                        lemma_install_preserves(s, s2, parent as int, idx as int, f);
                        lemma_entry_encode(f);
                        lemma_lookup_at_index(s2, c as int);
                        assert forall|i: int|
                            0 <= i < final(frame_allocator).avail().len() implies lookup(
                            s2,
                            #[trigger] final(frame_allocator).avail()[i],
                        ) is None by {
                            let g = final(frame_allocator).avail()[i];
                            assert(g == old(frame_allocator).avail()[i + 1]);
                            assert(lookup(s, g) is None);
                            assert(g != f);
                            assert(g != s[parent as int].frame) by {
                                lemma_lookup_at_index(s, parent as int);
                            }
                        }
                    }
                    Ok(c)
                },
            }
        }
    }
}

impl PageTableHierarchy {
    /// Install a leaf mapping from `page` to `frame` with the given flags,
    /// obtaining any missing intermediate table frames from the frame
    /// allocator.  A present mapping is never silently overwritten: that is
    /// reported as `MappingConflict`.  On frame exhaustion the intermediate
    /// tables already installed stay in place and their frames stay
    /// consumed — there is no rollback and the frame allocator cannot take
    /// a frame back — but no translation has changed.
    pub fn map_to<A: FrameAllocator>(
        &mut self,
        page: Page,
        frame: PhysFrame,
        flags: u64,
        frame_allocator: &mut A,
    ) -> (r: Result<(), MemoryError>)
        requires
            old(self).wf(),
            old(frame_allocator).wf(),
            frames_unused(old(self).tables@, old(frame_allocator).avail()),
            is_page_aligned(page.start.value),
            is_page_aligned(frame.start.value),
            frame.start.value < 0x10_0000_0000_0000,
            entry_present(flags),
            !entry_huge(flags),
            flags < PAGE_SIZE,
        ensures
            final(self).wf(),
            final(frame_allocator).wf(),
            frames_unused(final(self).tables@, final(frame_allocator).avail()),
            forall|vb: u64|
                walk_bits(vb) != walk_bits(page.start.value) ==> walk_entry(
                    final(self).tables@,
                    vb,
                ) == walk_entry(old(self).tables@, vb),
            r is Ok <==> walk_entry(old(self).tables@, page.start.value) is None
                && missing_tables(old(self).tables@, page.start.value) <= old(
                frame_allocator,
            ).avail().len(),
            r == Err::<(), MemoryError>(MemoryError::MappingConflict) <==> walk_entry(
                old(self).tables@,
                page.start.value,
            ) is Some,
            r is Err ==> r == Err::<(), MemoryError>(MemoryError::MappingConflict) || r == Err::<
                (),
                MemoryError,
            >(MemoryError::FrameAllocationFailed),
            r == Err::<(), MemoryError>(MemoryError::MappingConflict) ==> *final(self) == *old(self)
                && final(frame_allocator).avail() == old(frame_allocator).avail(),
            r == Err::<(), MemoryError>(MemoryError::FrameAllocationFailed) ==> final(frame_allocator).avail().len() == 0 && (forall|vb: u64|
                walk_entry(final(self).tables@, vb) == walk_entry(old(self).tables@, vb)),
            r is Ok ==> walk_entry(final(self).tables@, page.start.value) == Some(
                frame.start.value | flags,
            ),
            r is Ok ==> final(frame_allocator).avail() == old(frame_allocator).avail().skip(
                missing_tables(old(self).tables@, page.start.value),
            ),
    {
        let ghost s0 = old(self).tables@;
        let ghost a0 = old(frame_allocator).avail();
        let va = page.start.value;
        let ghost m0 = missing_tables(s0, va);
        proof {
            lemma_level_index(va, va);
        }
        let i4 = ((va >> 39u64) & 0x1ffu64) as usize;
        let i3 = ((va >> 30u64) & 0x1ffu64) as usize;
        let i2 = ((va >> 21u64) & 0x1ffu64) as usize;
        let i1 = ((va >> 12u64) & 0x1ffu64) as usize;
        let ghost e4_0 = s0[0].entries@[i4 as int];
        let c3 = match self.ensure_child(0, i4, frame_allocator) {
            Ok(c) => c,
            Err(err) => {
                proof {
                    assert(!entry_present(e4_0) && a0.len() == 0);
                    assert(walk_step(s0, s0[0], va, 4) is None);
                    assert(walk_entry(s0, va) is None);
                    assert(m0 == 3);
                }
                return Err(err);
            },
        };
        let ghost s1 = self.tables@;
        let ghost a1 = frame_allocator.avail();
        proof {
            assert(walk_step(s1, s1[0], va, 4) == Some(s1[c3 as int]));
            assert(s1[c3 as int].level@ == 3);
            if entry_present(e4_0) {
                assert(s1 == s0 && a1 == a0);
                assert(a1 =~= a0.skip(0));
            } else {
                assert(m0 == 3);
                assert(a1 =~= a0.skip(1));
                assert(!entry_present(s1[c3 as int].entries@[i3 as int])) by {
                    lemma_entry_encode(0);
                }
                assert(walk_step(s1, s1[c3 as int], va, 3) is None);
                assert(missing_tables(s1, va) == 2);
            }
            assert(m0 == (a0.len() - a1.len()) + missing_tables(s1, va));
            assert(a1 =~= a0.skip(a0.len() - a1.len()));
        }
        let ghost e3_1 = s1[c3 as int].entries@[i3 as int];
        let c2 = match self.ensure_child(c3, i3, frame_allocator) {
            Ok(c) => c,
            Err(err) => {
                proof {
                    assert(!entry_present(e3_1) && a1.len() == 0);
                    assert(walk_step(s1, s1[c3 as int], va, 3) is None);
                    assert(missing_tables(s1, va) == 2);
                    assert(walk_entry(s1, va) is None);
                    assert(walk_entry(s0, va) is None);
                    assert(m0 > a0.len());
                }
                return Err(err);
            },
        };
        let ghost s2 = self.tables@;
        let ghost a2 = frame_allocator.avail();
        proof {
            assert(c3 != 0) by {
                assert(s1[0].level@ == 4);
            }
            if entry_present(e3_1) {
                assert(s2 == s1 && a2 == a1);
            } else {
                assert(missing_tables(s1, va) == 2);
                assert(a2 == a1.drop_first());
                assert(s2[0] == s1[0]);
            }
            assert(s2[0].entries@[i4 as int] == s1[0].entries@[i4 as int]);
            assert(s2[c3 as int].frame == s1[c3 as int].frame && s2[c3 as int].level@ == s1[c3 as int].level@);
            lemma_lookup_at_index(s2, c3 as int);
            assert(walk_step(s2, s2[0], va, 4) == Some(s2[c3 as int]));
            assert(walk_step(s2, s2[c3 as int], va, 3) == Some(s2[c2 as int]));
            assert(s2[c2 as int].level@ == 2);
            if !entry_present(e3_1) {
                assert(!entry_present(s2[c2 as int].entries@[i2 as int])) by {
                    lemma_entry_encode(0);
                }
                assert(walk_step(s2, s2[c2 as int], va, 2) is None);
                assert(missing_tables(s2, va) == 1);
            }
            assert(m0 == (a0.len() - a2.len()) + missing_tables(s2, va));
            assert(a2 =~= a0.skip(a0.len() - a2.len()));
        }
        let ghost e2_2 = s2[c2 as int].entries@[i2 as int];
        let c1 = match self.ensure_child(c2, i2, frame_allocator) {
            Ok(c) => c,
            Err(err) => {
                proof {
                    assert(!entry_present(e2_2) && a2.len() == 0);
                    assert(walk_step(s2, s2[c2 as int], va, 2) is None);
                    assert(missing_tables(s2, va) == 1);
                    assert(walk_entry(s2, va) is None);
                    assert(walk_entry(s0, va) is None);
                    assert(m0 > a0.len());
                }
                return Err(err);
            },
        };
        let ghost s3 = self.tables@;
        let ghost a3 = frame_allocator.avail();
        proof {
            assert(c2 != 0 && c2 != c3) by {
                assert(s2[0].level@ == 4 && s2[c3 as int].level@ == 3);
            }
            if entry_present(e2_2) {
                assert(s3 == s2 && a3 == a2);
            } else {
                assert(missing_tables(s2, va) == 1);
                assert(a3 == a2.drop_first());
                assert(s3[0] == s2[0] && s3[c3 as int] == s2[c3 as int]);
            }
            assert(s3[0].entries@[i4 as int] == s2[0].entries@[i4 as int]);
            assert(s3[c3 as int].entries@[i3 as int] == s2[c3 as int].entries@[i3 as int]);
            assert(s3[c3 as int].frame == s2[c3 as int].frame && s3[c3 as int].level@ == s2[c3 as int].level@);
            assert(s3[c2 as int].frame == s2[c2 as int].frame && s3[c2 as int].level@ == s2[c2 as int].level@);
            lemma_lookup_at_index(s3, c3 as int);
            lemma_lookup_at_index(s3, c2 as int);
            lemma_lookup_at_index(s3, c1 as int);
            assert(walk_step(s3, s3[0], va, 4) == Some(s3[c3 as int]));
            assert(walk_step(s3, s3[c3 as int], va, 3) == Some(s3[c2 as int]));
            assert(walk_step(s3, s3[c2 as int], va, 2) == Some(s3[c1 as int]));
            assert(s3[c1 as int].level@ == 1);
            assert(missing_tables(s3, va) == 0);
            assert(m0 == (a0.len() - a3.len()) + missing_tables(s3, va));
            assert(m0 == a0.len() - a3.len() && m0 <= a0.len());
            assert(a3 =~= a0.skip(m0));
        }
        let e1 = self.tables[c1].entries[i1];
        if e1 & FLAG_PRESENT != 0 {
            proof {
                assert(entry_present(e1));
                assert(walk_entry(s3, va) == Some(e1));
                assert(walk_entry(s0, va) is Some);
                // Everything on the path was already present, so nothing
                // was installed or consumed.
                assert(entry_present(e4_0));
                assert(s1 == s0 && a1 == a0);
                assert(entry_present(e3_1)) by {
                    assert(walk_step(s1, s1[c3 as int], va, 3) is Some);
                }
                assert(s2 == s1 && a2 == a1);
                assert(entry_present(e2_2)) by {
                    assert(walk_step(s2, s2[c2 as int], va, 2) is Some);
                }
                assert(s3 == s2 && a3 == a2);
                assert(*self == *old(self));
            }
            return Err(MemoryError::MappingConflict);
        }
        let value = frame.start.value | flags;
        proof {
            lemma_leaf_encode(frame.start.value, flags);
            assert(!entry_present(e1));
            assert(walk_entry(s3, va) is None);
            assert(walk_entry(s0, va) is None);
        }
        self.tables[c1].entries[i1] = value;
        proof {
            let s4 = self.tables@;
            lemma_leaf_update(s3, s4, va, c3 as int, c2 as int, c1 as int, value);
            assert(walk_entry(s4, va) == Some(value));
            assert forall|i: int| 0 <= i < a3.len() implies lookup(
                s4,
                #[trigger] a3[i],
            ) is None by {
                assert(lookup(s3, a3[i]) is None);
                assert(a3[i] != s3[c1 as int].frame) by {
                    lemma_lookup_at_index(s3, c1 as int);
                }
            }
        }
        Ok(())
    }

    /// Remove the leaf mapping of `page` and report the frame it pointed
    /// at.  Reports `UnmapMissing`, changing nothing, where no mapping
    /// exists.
    pub fn unmap(&mut self, page: Page) -> (r: Result<PhysFrame, MemoryError>)
        requires
            old(self).wf(),
        ensures
            final(self).wf(),
            r is Ok <==> walk_entry(old(self).tables@, page.start.value) is Some,
            r is Err ==> r == Err::<PhysFrame, MemoryError>(MemoryError::UnmapMissing) && *final(self) == *old(self),
            r is Ok ==> r == Ok::<PhysFrame, MemoryError>(
                (PhysFrame {
                    start: (PhysAddr {
                        value: entry_target(
                            walk_entry(old(self).tables@, page.start.value)->0,
                        ),
                    }),
                }),
            ),
            r is Ok ==> forall|vb: u64|
                walk_bits(vb) == walk_bits(page.start.value) ==> walk_entry(
                    final(self).tables@,
                    vb,
                ) is None,
            forall|vb: u64|
                walk_bits(vb) != walk_bits(page.start.value) ==> walk_entry(
                    final(self).tables@,
                    vb,
                ) == walk_entry(old(self).tables@, vb),
            forall|g: u64|
                lookup(final(self).tables@, g) is Some <==> lookup(old(self).tables@, g) is Some,
    {
        let ghost s = self.tables@;
        let va = page.start.value;
        proof {
            lemma_level_index(va, va);
        }
        let i4 = ((va >> 39u64) & 0x1ffu64) as usize;
        let i3 = ((va >> 30u64) & 0x1ffu64) as usize;
        let i2 = ((va >> 21u64) & 0x1ffu64) as usize;
        let i1 = ((va >> 12u64) & 0x1ffu64) as usize;
        let e4 = self.tables[0].entries[i4];
        if e4 & FLAG_PRESENT == 0 {
            return Err(MemoryError::UnmapMissing);
        }
        let c3 = match self.find_table(e4 & ENTRY_ADDR_MASK) {
            Some(i) => i,
            None => {
                return Err(MemoryError::UnmapMissing);
            },
        };
        proof {
            assert(walk_step(s, s[0], va, 4) == Some(s[c3 as int]));
        }
        let e3 = self.tables[c3].entries[i3];
        if e3 & FLAG_PRESENT == 0 {
            return Err(MemoryError::UnmapMissing);
        }
        let c2 = match self.find_table(e3 & ENTRY_ADDR_MASK) {
            Some(i) => i,
            None => {
                return Err(MemoryError::UnmapMissing);
            },
        };
        proof {
            assert(walk_step(s, s[c3 as int], va, 3) == Some(s[c2 as int]));
        }
        let e2 = self.tables[c2].entries[i2];
        if e2 & FLAG_PRESENT == 0 {
            return Err(MemoryError::UnmapMissing);
        }
        let c1 = match self.find_table(e2 & ENTRY_ADDR_MASK) {
            Some(i) => i,
            None => {
                return Err(MemoryError::UnmapMissing);
            },
        };
        proof {
            assert(walk_step(s, s[c2 as int], va, 2) == Some(s[c1 as int]));
        }
        let e1 = self.tables[c1].entries[i1];
        if e1 & FLAG_PRESENT == 0 {
            proof {
                assert(walk_entry(s, va) is None);
            }
            return Err(MemoryError::UnmapMissing);
        }
        proof {
            assert(walk_entry(s, va) == Some(e1));
        }
        self.tables[c1].entries[i1] = 0u64;
        proof {
            let s2 = self.tables@;
            lemma_leaf_update(s, s2, va, c3 as int, c2 as int, c1 as int, 0u64);
            lemma_entry_encode(0);
            assert forall|vb: u64| walk_bits(vb) == walk_bits(va) implies walk_entry(
                s2,
                vb,
            ) is None by {
                lemma_walk_same_bits(s2, vb, va);
            }
        }
        let masked = e1 & ENTRY_ADDR_MASK;
        Ok(PhysFrame { start: PhysAddr { value: masked } })
    }
}

/// Map `page` to `phys_frame` for device-register access: present,
/// writable, caching disabled.  Intermediate tables come from the frame
/// allocator.  The original design treats a failure here as fatal to the
/// calling driver's setup; it is reported, never masked.
pub fn create_mapping<A: FrameAllocator>(
    page: Page,
    phys_frame: PhysFrame,
    mapper: &mut PageTableHierarchy,
    frame_allocator: &mut A,
) -> (r: Result<(), MemoryError>)
    requires
        old(mapper).wf(),
        old(frame_allocator).wf(),
        frames_unused(old(mapper).tables@, old(frame_allocator).avail()),
        is_page_aligned(page.start.value),
        is_page_aligned(phys_frame.start.value),
        phys_frame.start.value < 0x10_0000_0000_0000,
    ensures
        final(mapper).wf(),
        final(frame_allocator).wf(),
        frames_unused(final(mapper).tables@, final(frame_allocator).avail()),
        forall|vb: u64|
            walk_bits(vb) != walk_bits(page.start.value) ==> walk_entry(final(mapper).tables@, vb)
                == walk_entry(old(mapper).tables@, vb),
        r is Ok <==> walk_entry(old(mapper).tables@, page.start.value) is None && missing_tables(
            old(mapper).tables@,
            page.start.value,
        ) <= old(frame_allocator).avail().len(),
        r == Err::<(), MemoryError>(MemoryError::MappingConflict) <==> walk_entry(
            old(mapper).tables@,
            page.start.value,
        ) is Some,
        r is Err ==> r == Err::<(), MemoryError>(MemoryError::MappingConflict) || r == Err::<
            (),
            MemoryError,
        >(MemoryError::FrameAllocationFailed),
        r is Ok ==> walk_entry(final(mapper).tables@, page.start.value) == Some(
            phys_frame.start.value | ((FLAG_PRESENT | FLAG_WRITABLE) | FLAG_NO_CACHE),
        ),
{
    let flags = (FLAG_PRESENT | FLAG_WRITABLE) | FLAG_NO_CACHE;
    proof {
        assert(((1u64 | 2) | 0x10) & 1 != 0 && ((1u64 | 2) | 0x10) & 0x80 == 0 && ((1u64 | 2)
            | 0x10) < 4096) by (bit_vector);
        assert(entry_present(flags) && !entry_huge(flags) && flags < PAGE_SIZE);
    }
    mapper.map_to(page, phys_frame, flags, frame_allocator)
}

/// The page base is aligned, at most the address itself, and within one
/// page of it.
pub proof fn lemma_page_base(a: u64)
    ensures
        is_page_aligned(page_base(a)),
        page_base(a) <= a < page_base(a) + PAGE_SIZE,
        a % PAGE_SIZE == a - page_base(a),
        page_base(a) <= a,
{
    assert(a & 0xFFFF_FFFF_FFFF_F000u64 == (a / 4096) * 4096 && ((a / 4096) * 4096) % 4096 == 0 && (
    a / 4096) * 4096 <= a && a < (a / 4096) * 4096 + 4096 && a % 4096 == ((a - (a / 4096) * 4096)
        as u64)) by (bit_vector);
}

/// Addresses inside one page share their walk bits, and their page offset
/// is their distance from the page start.
proof fn lemma_same_page_bits(p: u64, va: u64)
    requires
        is_page_aligned(p),
        p <= va < p + PAGE_SIZE,
    ensures
        walk_bits(va) == walk_bits(p),
        va % PAGE_SIZE == va - p,
{
    assert(p % 4096 == 0 && p <= va && ((va - p) as u64) < 4096 ==> (va & 0x0000_FFFF_FFFF_F000 == p
        & 0x0000_FFFF_FFFF_F000) && va % 4096 == ((va - p) as u64)) by (bit_vector);
}

/// Translation correctness, mapped half: where page `page` is mapped to
/// frame `frame`, any address inside the page translates to the address at
/// the same offset inside the frame.
pub proof fn lemma_translation_correctness(
    s: Seq<PageTable>,
    page: Page,
    frame: PhysFrame,
    flags: u64,
    va: u64,
)
    requires
        walk_entry(s, page.start.value) == Some(frame.start.value | flags),
        is_page_aligned(page.start.value),
        is_page_aligned(frame.start.value),
        frame.start.value < 0x10_0000_0000_0000,
        entry_present(flags),
        !entry_huge(flags),
        flags < PAGE_SIZE,
        page.start.value <= va < page.start.value + PAGE_SIZE,
    ensures
        translate_spec(s, va) == Some(
            (frame.start.value + (va - page.start.value)) as u64,
        ),
{
    lemma_leaf_encode(frame.start.value, flags);
    lemma_same_page_bits(page.start.value, va);
    lemma_walk_same_bits(s, va, page.start.value);
}

/// Translation correctness, unmapped half: where page `page` has no leaf
/// entry, no address inside the page translates.
pub proof fn lemma_translation_unmapped(s: Seq<PageTable>, page: Page, va: u64)
    requires
        walk_entry(s, page.start.value) is None,
        is_page_aligned(page.start.value),
        page.start.value <= va < page.start.value + PAGE_SIZE,
    ensures
        translate_spec(s, va) is None,
{
    lemma_same_page_bits(page.start.value, va);
    lemma_walk_same_bits(s, va, page.start.value);
}

} // verus!
