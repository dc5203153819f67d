//! The fallback allocator: an address-ordered list of free regions with
//! first-fit allocation.  A matched region is split — the aligned block is
//! carved out and any leftover head and tail stay free — and a freed block
//! is reinserted in address order, merged with a neighbor only when the
//! adjacency is an exact match.  Simple opportunistic coalescing, not
//! defragmentation.
use vstd::prelude::*;

use crate::memory::MemoryError;
use super::{align_up, is_power_of_two};
use vstd::arithmetic::div_mod::{lemma_fundamental_div_mod, lemma_mod_multiples_basic};

verus! {

/// One free region of the managed range.
#[derive(Clone, Copy, PartialEq, Eq, Structural, Debug)]
pub struct FreeRegion {
    pub addr: u64,
    pub size: u64,
}

/// Upper bound on the managed range's end, leaving headroom so that no
/// address computation overflows.
pub const HEAP_END_LIMIT: u64 = 0x4000_0000_0000_0000;

/// The free regions are non-empty, lie inside the managed range, ascend by
/// address, and are pairwise separated by at least one allocated byte (the
/// list is fully coalesced).
pub open spec fn free_list_wf(regions: Seq<FreeRegion>, heap_start: u64, heap_end: u64) -> bool {
    &&& forall|i: int|
        0 <= i < regions.len() ==> (#[trigger] regions[i]).size >= 1 && regions[i].addr
            >= heap_start && regions[i].addr + regions[i].size <= heap_end
    &&& forall|i: int|
        0 <= i && i + 1 < regions.len() ==> (#[trigger] regions[i]).addr + regions[i].size
            < regions[i + 1].addr
}

/// Total number of free bytes in the list.
pub open spec fn region_sum(regions: Seq<FreeRegion>) -> int
    decreases regions.len(),
{
    if regions.len() == 0 {
        0
    } else {
        regions[0].size + region_sum(regions.drop_first())
    }
}

/// Where a block of `size` bytes aligned to `align` would start inside
/// region `r`.
pub open spec fn spec_align_up(a: u64, align: u64) -> int {
    if a % align == 0 {
        a as int
    } else {
        a + (align - a % align)
    }
}

/// Whether region `r` can hold a block of `size` bytes aligned to `align`.
pub open spec fn region_fits(r: FreeRegion, size: u64, align: u64) -> bool {
    spec_align_up(r.addr, align) + size <= r.addr + r.size
}

/// Index of the first region that can hold the request: first fit.
pub open spec fn find_first_fit(regions: Seq<FreeRegion>, size: u64, align: u64) -> Option<int>
    decreases regions.len(),
{
    if regions.len() == 0 {
        None
    } else if region_fits(regions[0], size, align) {
        Some(0)
    } else {
        match find_first_fit(regions.drop_first(), size, align) {
            Some(i) => Some(i + 1),
            None => None,
        }
    }
}

/// The free list after carving the aligned block out of region `i`: any
/// head gap and leftover tail stay free, in place.
pub open spec fn regions_after_alloc(
    regions: Seq<FreeRegion>,
    i: int,
    size: u64,
    align: u64,
) -> Seq<FreeRegion> {
    let r = regions[i];
    let a = spec_align_up(r.addr, align);
    let head = if a > r.addr {
        seq![FreeRegion { addr: r.addr, size: (a - r.addr) as u64 }]
    } else {
        Seq::<FreeRegion>::empty()
    };
    let tail = if a + size < r.addr + r.size {
        seq![
            FreeRegion {
                addr: (a + size) as u64,
                size: ((r.addr + r.size) - (a + size)) as u64,
            },
        ]
    } else {
        Seq::<FreeRegion>::empty()
    };
    regions.take(i) + head + tail + regions.skip(i + 1)
}

/// Number of regions that start below `addr`: where a freed block at
/// `addr` is inserted.
pub open spec fn count_before(regions: Seq<FreeRegion>, addr: u64) -> int
    decreases regions.len(),
{
    if regions.len() == 0 {
        0
    } else if regions[0].addr < addr {
        1 + count_before(regions.drop_first(), addr)
    } else {
        0
    }
}

/// The free list after reinserting a freed block in address order, merged
/// with its predecessor or successor exactly where the adjacency is exact.
pub open spec fn regions_after_free(regions: Seq<FreeRegion>, addr: u64, size: u64) -> Seq<
    FreeRegion,
> {
    let i = count_before(regions, addr);
    let merge_pred = i > 0 && regions[i - 1].addr + regions[i - 1].size == addr;
    let merge_succ = i < regions.len() && addr + size == regions[i].addr;
    if merge_pred && merge_succ {
        regions.take(i - 1) + seq![
            FreeRegion {
                addr: regions[i - 1].addr,
                size: (regions[i - 1].size + size + regions[i].size) as u64,
            },
        ] + regions.skip(i + 1)
    } else if merge_pred {
        regions.take(i - 1) + seq![
            FreeRegion {
                addr: regions[i - 1].addr,
                size: (regions[i - 1].size + size) as u64,
            },
        ] + regions.skip(i)
    } else if merge_succ {
        regions.take(i) + seq![
            FreeRegion { addr, size: (size + regions[i].size) as u64 },
        ] + regions.skip(i + 1)
    } else {
        regions.take(i) + seq![FreeRegion { addr, size }] + regions.skip(i)
    }
}

/// The fallback allocator over one managed byte range.
pub struct LinkedListAllocator {
    pub heap_start: u64,
    pub heap_end: u64,
    pub free_list: Vec<FreeRegion>,
}

impl LinkedListAllocator {
    /// Validity: a bounded managed range and a well-formed free list.
    pub open spec fn wf(&self) -> bool {
        &&& self.heap_start <= self.heap_end <= HEAP_END_LIMIT
        &&& free_list_wf(self.free_list@, self.heap_start, self.heap_end)
    }

    /// Free bytes the list still holds.
    pub open spec fn free_bytes_spec(&self) -> int {
        region_sum(self.free_list@)
    }

    /// An empty allocator that manages nothing yet.
    pub fn new() -> (r: Self)
        ensures
            r.wf(),
            r.heap_start == 0 && r.heap_end == 0,
            r.free_list@ =~= Seq::<FreeRegion>::empty(),
    {
        LinkedListAllocator { heap_start: 0, heap_end: 0, free_list: Vec::new() }
    }

    /// Record the managed byte range; the whole of it starts free.
    pub fn init(&mut self, heap_start: u64, heap_size: u64)
        requires
            heap_start + heap_size <= HEAP_END_LIMIT,
        ensures
            final(self).wf(),
            final(self).heap_start == heap_start,
            final(self).heap_end == heap_start + heap_size,
            final(self).free_bytes_spec() == heap_size,
            heap_size >= 1 ==> final(self).free_list@ =~= seq![
                FreeRegion { addr: heap_start, size: heap_size },
            ],
            heap_size == 0 ==> final(self).free_list@ =~= Seq::<FreeRegion>::empty(),
    {
        self.heap_start = heap_start;
        self.heap_end = heap_start + heap_size;
        let mut list: Vec<FreeRegion> = Vec::new();
        if heap_size >= 1 {
            list.push(FreeRegion { addr: heap_start, size: heap_size });
        }
        self.free_list = list;
        proof {
            reveal_with_fuel(region_sum, 2);
            if heap_size >= 1 {
                assert(self.free_list@.drop_first() =~= Seq::<FreeRegion>::empty());
            }
        }
    }
}

/// `region_sum` distributes over concatenation.
pub proof fn lemma_region_sum_concat(a: Seq<FreeRegion>, b: Seq<FreeRegion>)
    ensures
        region_sum(a + b) == region_sum(a) + region_sum(b),
    decreases a.len(),
{
    if a.len() == 0 {
        assert(a + b =~= b);
    } else {
        lemma_region_sum_concat(a.drop_first(), b);
        assert((a + b).drop_first() =~= a.drop_first() + b);
    }
}

/// A sequence splits around any index for `region_sum`.
pub proof fn lemma_region_sum_split(s: Seq<FreeRegion>, i: int)
    requires
        0 <= i < s.len(),
    ensures
        region_sum(s) == region_sum(s.take(i)) + s[i].size + region_sum(s.skip(i + 1)),
{
    reveal_with_fuel(region_sum, 2);
    assert(s =~= s.take(i) + seq![s[i]] + s.skip(i + 1));
    lemma_region_sum_concat(s.take(i) + seq![s[i]], s.skip(i + 1));
    lemma_region_sum_concat(s.take(i), seq![s[i]]);
    assert(seq![s[i]].drop_first() =~= Seq::<FreeRegion>::empty());
}

/// A fully coalesced free list that starts at or above `lo` holds at most
/// the bytes between `lo` and the range end.
pub proof fn lemma_region_sum_bounded(regions: Seq<FreeRegion>, lo: u64, heap_end: u64)
    requires
        forall|i: int|
            0 <= i < regions.len() ==> (#[trigger] regions[i]).size >= 1 && regions[i].addr
                + regions[i].size <= heap_end,
        forall|i: int|
            0 <= i && i + 1 < regions.len() ==> (#[trigger] regions[i]).addr + regions[i].size
                < regions[i + 1].addr,
        regions.len() > 0 ==> lo <= regions[0].addr,
        lo <= heap_end,
    ensures
        region_sum(regions) <= heap_end - lo,
    decreases regions.len(),
{
    if regions.len() > 0 {
        let rest = regions.drop_first();
        assert(forall|i: int| 0 <= i < rest.len() ==> rest[i] == regions[i + 1]);
        let next_lo = (regions[0].addr + regions[0].size) as u64;
        lemma_region_sum_bounded(rest, next_lo, heap_end);
    }
}

impl LinkedListAllocator {
    /// Free bytes the list still holds.
    pub fn free_bytes(&self) -> (r: u64)
        requires
            self.wf(),
        ensures
            r == self.free_bytes_spec(),
    {
        let ghost regions = self.free_list@;
        proof {
            lemma_region_sum_bounded(regions, self.heap_start, self.heap_end);
        }
        let mut total: u64 = 0;
        let mut i: usize = 0;
        while i < self.free_list.len()
            invariant
                self.wf(),
                regions == self.free_list@,
                i <= regions.len(),
                total == region_sum(regions.take(i as int)),
                region_sum(regions) <= self.heap_end,
            decreases regions.len() - i,
        {
            proof {
                reveal_with_fuel(region_sum, 2);
                lemma_region_sum_split(regions, i as int);
                assert(regions.take(i + 1) =~= regions.take(i as int) + seq![regions[i as int]]);
                lemma_region_sum_concat(regions.take(i as int), seq![regions[i as int]]);
                assert(seq![regions[i as int]].drop_first() =~= Seq::<FreeRegion>::empty());
                assert(region_sum(regions.skip(i + 1)) >= 0) by {
                    lemma_region_sum_nonneg(regions.skip(i + 1));
                }
                assert(region_sum(regions.take(i as int)) >= 0) by {
                    lemma_region_sum_nonneg(regions.take(i as int));
                }
                assert(region_sum(regions.take(i + 1)) == region_sum(regions.take(i as int))
                    + regions[i as int].size);
            }
            total = total + self.free_list[i].size;
            i = i + 1;
        }
        proof {
            assert(regions.take(regions.len() as int) =~= regions);
        }
        total
    }
}

/// A power of two is at most 2^63.
proof fn lemma_power_of_two_bound(align: u64)
    requires
        is_power_of_two(align),
    ensures
        align <= 0x8000_0000_0000_0000,
{
    assert(align > 0 && (align & ((align - 1) as u64)) == 0 ==> align <= 0x8000_0000_0000_0000)
        by (bit_vector);
}

/// `spec_align_up` is the least multiple of `align` at or above `a`.
pub proof fn lemma_spec_align_up(a: u64, align: u64)
    requires
        align >= 1,
    ensures
        spec_align_up(a, align) % (align as int) == 0,
        a <= spec_align_up(a, align),
        spec_align_up(a, align) - a < align,
{
    let ai = a as int;
    let al = align as int;
    lemma_fundamental_div_mod(ai, al);
    if a % align != 0 {
        let q = ai / al;
        assert(spec_align_up(a, align) == (q + 1) * al) by (nonlinear_arith)
            requires
                al >= 1,
                ai == al * q + (ai % al),
                spec_align_up(a, align) == ai + (al - ai % al),
        ;
        lemma_mod_multiples_basic(q + 1, al);
        assert(((q + 1) * al) % al == 0);
    }
}

/// Two multiples of `align` within one `align`-sized window are equal; in
/// particular the executable rounding matches `spec_align_up`.
pub proof fn lemma_align_up_unique(a: u64, align: u64, x: int, y: int)
    requires
        align >= 1,
        x % (align as int) == 0,
        y % (align as int) == 0,
        a <= x < a + align,
        a <= y < a + align,
    ensures
        x == y,
{
    let al = align as int;
    let mx = x / al;
    let my = y / al;
    lemma_fundamental_div_mod(x, al);
    lemma_fundamental_div_mod(y, al);
    assert(mx == my) by (nonlinear_arith)
        requires
            al >= 1,
            x == al * mx,
            y == al * my,
            x < y + al,
            y < x + al,
    ;
}

/// Regions that do not fit can be skipped without changing the first fit.
proof fn lemma_find_first_fit_skip(regions: Seq<FreeRegion>, i: int, size: u64, align: u64)
    requires
        0 <= i <= regions.len(),
        forall|j: int| 0 <= j < i ==> !region_fits(#[trigger] regions[j], size, align),
    ensures
        find_first_fit(regions, size, align) == match find_first_fit(
            regions.skip(i),
            size,
            align,
        ) {
            Some(k) => Some(k + i),
            None => None::<int>,
        },
    decreases i,
{
    if i == 0 {
        assert(regions.skip(0) =~= regions);
    } else {
        let rest = regions.drop_first();
        assert(forall|j: int| 0 <= j < rest.len() ==> rest[j] == regions[j + 1]);
        assert(rest.skip(i - 1) =~= regions.skip(i));
        lemma_find_first_fit_skip(rest, i - 1, size, align);
    }
}

/// Carving an aligned block out of the fitting region keeps the free list
/// well formed and removes exactly `size` free bytes.
#[verifier::rlimit(100)]
proof fn lemma_regions_after_alloc(
    regions: Seq<FreeRegion>,
    i: int,
    size: u64,
    align: u64,
    heap_start: u64,
    heap_end: u64,
)
    requires
        free_list_wf(regions, heap_start, heap_end),
        0 <= i < regions.len(),
        region_fits(regions[i], size, align),
        1 <= size,
        align >= 1,
    ensures
        free_list_wf(regions_after_alloc(regions, i, size, align), heap_start, heap_end),
        region_sum(regions_after_alloc(regions, i, size, align)) == region_sum(regions) - size,
        heap_start <= spec_align_up(regions[i].addr, align),
        spec_align_up(regions[i].addr, align) + size <= heap_end,
{
    let r = regions[i];
    let a = spec_align_up(r.addr, align);
    lemma_spec_align_up(r.addr, align);
    let head = if a > r.addr {
        seq![FreeRegion { addr: r.addr, size: (a - r.addr) as u64 }]
    } else {
        Seq::<FreeRegion>::empty()
    };
    let tail = if a + size < r.addr + r.size {
        seq![
            FreeRegion { addr: (a + size) as u64, size: ((r.addr + r.size) - (a + size)) as u64 },
        ]
    } else {
        Seq::<FreeRegion>::empty()
    };
    let s2 = regions_after_alloc(regions, i, size, align);
    assert(s2 == regions.take(i) + head + tail + regions.skip(i + 1));
    lemma_region_sum_split(regions, i);
    lemma_region_sum_concat(regions.take(i) + head + tail, regions.skip(i + 1));
    lemma_region_sum_concat(regions.take(i) + head, tail);
    lemma_region_sum_concat(regions.take(i), head);
    reveal_with_fuel(region_sum, 2);
    if head.len() > 0 {
        assert(head.drop_first() =~= Seq::<FreeRegion>::empty());
    }
    if tail.len() > 0 {
        assert(tail.drop_first() =~= Seq::<FreeRegion>::empty());
    }
    let hl = head.len() as int;
    let tl = tail.len() as int;
    assert forall|j: int|
        0 <= j < s2.len() implies (#[trigger] s2[j]).size >= 1 && s2[j].addr >= heap_start
        && s2[j].addr + s2[j].size <= heap_end by {
        if j < i {
            assert(s2[j] == regions[j]);
        } else if j >= i + hl + tl {
            assert(s2[j] == regions[j - hl - tl + 1]);
        }
    }
    assert forall|j: int|
        0 <= j && j + 1 < s2.len() implies (#[trigger] s2[j]).addr + s2[j].size < s2[j
        + 1].addr by {
        if j + 1 < i {
            assert(s2[j] == regions[j] && s2[j + 1] == regions[j + 1]);
        } else if j + 1 == i {
            assert(s2[j] == regions[j]);
        } else if j >= i + hl + tl {
            assert(s2[j] == regions[j - hl - tl + 1] && s2[j + 1] == regions[j - hl - tl + 2]);
        } else if j + 1 == i + hl + tl {
            assert(s2[j + 1] == regions[i + 1]);
            assert(regions[i].addr + regions[i].size < regions[i + 1].addr);
        }
    }
}

impl LinkedListAllocator {
    /// First-fit allocation: scan the address-ordered list for the first
    /// region that can hold an aligned block of `size` bytes, carve the
    /// block out of it, and keep any head gap and leftover tail as free
    /// regions in place.
    pub fn allocate(&mut self, size: u64, align: u64) -> (r: Result<u64, MemoryError>)
        requires
            old(self).wf(),
            1 <= size,
            is_power_of_two(align),
        ensures
            final(self).wf(),
            final(self).heap_start == old(self).heap_start,
            final(self).heap_end == old(self).heap_end,
            r is Err <==> find_first_fit(old(self).free_list@, size, align) is None,
            r is Err ==> r == Err::<u64, MemoryError>(MemoryError::AllocationFailed) && *final(self)
                == *old(self),
            r is Ok ==> {
                let i = find_first_fit(old(self).free_list@, size, align)->0;
                &&& r->Ok_0 == spec_align_up(old(self).free_list@[i].addr, align)
                &&& final(self).free_list@ == regions_after_alloc(
                    old(self).free_list@,
                    i,
                    size,
                    align,
                )
                &&& r->Ok_0 % align == 0
                &&& old(self).heap_start <= r->Ok_0
                &&& r->Ok_0 + size <= old(self).heap_end
                &&& final(self).free_bytes_spec() == old(self).free_bytes_spec() - size
            },
    {
        let ghost regions = self.free_list@;
        let mut i: usize = 0;
        while i < self.free_list.len()
            invariant
                self == old(self),
                old(self).wf(),
                regions == self.free_list@,
                i <= regions.len(),
                1 <= size,
                is_power_of_two(align),
                forall|j: int| 0 <= j < i ==> !region_fits(#[trigger] regions[j], size, align),
            decreases regions.len() - i,
        {
            let reg = self.free_list[i];
            proof {
                lemma_power_of_two_bound(align);
                lemma_spec_align_up(reg.addr, align);
            }
            let aligned = align_up(reg.addr, align);
            proof {
                lemma_align_up_unique(
                    reg.addr,
                    align,
                    aligned as int,
                    spec_align_up(reg.addr, align),
                );
            }
            let end = reg.addr + reg.size;
            if aligned <= end && size <= end - aligned {
                proof {
                    assert(region_fits(reg, size, align));
                    lemma_find_first_fit_skip(regions, i as int, size, align);
                    assert(regions.skip(i as int)[0] == regions[i as int]);
                    assert(regions.skip(i as int).drop_first() =~= regions.skip(i + 1));
                    assert(find_first_fit(regions, size, align) == Some(i as int));
                    lemma_region_sum_split(regions, i as int);
                }
                let block_end = aligned + size;
                let ghost head_seq = if aligned > reg.addr {
                    seq![FreeRegion { addr: reg.addr, size: (aligned - reg.addr) as u64 }]
                } else {
                    Seq::<FreeRegion>::empty()
                };
                let ghost tail_seq = if block_end < end {
                    seq![FreeRegion { addr: block_end, size: (end - block_end) as u64 }]
                } else {
                    Seq::<FreeRegion>::empty()
                };
                if aligned > reg.addr {
                    self.free_list[i] = FreeRegion { addr: reg.addr, size: aligned - reg.addr };
                    if block_end < end {
                        self.free_list.insert(
                            i + 1,
                            FreeRegion { addr: block_end, size: end - block_end },
                        );
                    }
                } else {
                    if block_end < end {
                        self.free_list[i] = FreeRegion { addr: block_end, size: end - block_end };
                    } else {
                        self.free_list.remove(i);
                    }
                }
                proof {
                    let newr = regions_after_alloc(regions, i as int, size, align);
                    assert(self.free_list@ =~= regions.take(i as int) + head_seq + tail_seq
                        + regions.skip(i + 1)) by {
                        if aligned > reg.addr {
                            if block_end < end {
                                assert(self.free_list@ =~= regions.update(
                                    i as int,
                                    head_seq[0],
                                ).insert(i + 1, tail_seq[0]));
                            }
                        }
                    }
                    assert(self.free_list@ =~= newr);
                    lemma_regions_after_alloc(
                        regions,
                        i as int,
                        size,
                        align,
                        self.heap_start,
                        self.heap_end,
                    );
                }
                return Ok(aligned);
            }
            proof {
                assert(!region_fits(regions[i as int], size, align));
            }
            i = i + 1;
        }
        proof {
            lemma_find_first_fit_skip(regions, regions.len() as int, size, align);
            assert(regions.skip(regions.len() as int) =~= Seq::<FreeRegion>::empty());
        }
        Err(MemoryError::AllocationFailed)
    }
}

/// `count_before` splits a sorted list into the regions strictly below
/// `addr` and the rest.
proof fn lemma_count_before_props(regions: Seq<FreeRegion>, addr: u64)
    requires
        forall|i: int|
            0 <= i && i + 1 < regions.len() ==> (#[trigger] regions[i]).addr + regions[i].size
                < regions[i + 1].addr,
        forall|i: int| 0 <= i < regions.len() ==> (#[trigger] regions[i]).size >= 1,
    ensures
        0 <= count_before(regions, addr) <= regions.len(),
        forall|j: int|
            0 <= j < count_before(regions, addr) ==> (#[trigger] regions[j]).addr < addr,
        forall|j: int|
            count_before(regions, addr) <= j < regions.len() ==> (#[trigger] regions[j]).addr
                >= addr,
    decreases regions.len(),
{
    if regions.len() > 0 {
        let rest = regions.drop_first();
        assert(forall|i: int| 0 <= i < rest.len() ==> rest[i] == regions[i + 1]);
        lemma_count_before_props(rest, addr);
        if regions[0].addr < addr {
            assert forall|j: int| 0 <= j < count_before(regions, addr) implies (
            #[trigger] regions[j]).addr < addr by {
                if j > 0 {
                    assert(regions[j] == rest[j - 1]);
                }
            }
            assert forall|j: int|
                count_before(regions, addr) <= j < regions.len() implies (
            #[trigger] regions[j]).addr >= addr by {
                assert(regions[j] == rest[j - 1]);
            }
        } else {
            assert forall|j: int| 0 <= j < regions.len() implies (#[trigger] regions[j]).addr
                >= addr by {
                if j > 0 {
                    lemma_sorted_addr_increasing(regions, 0, j);
                }
            }
        }
    }
}

/// In a sorted free list, later regions start strictly higher.
proof fn lemma_sorted_addr_increasing(regions: Seq<FreeRegion>, i: int, j: int)
    requires
        forall|k: int|
            0 <= k && k + 1 < regions.len() ==> (#[trigger] regions[k]).addr + regions[k].size
                < regions[k + 1].addr,
        forall|k: int| 0 <= k < regions.len() ==> (#[trigger] regions[k]).size >= 1,
        0 <= i < j < regions.len(),
    ensures
        regions[i].addr + regions[i].size <= regions[j].addr,
        regions[i].addr < regions[j].addr,
    decreases j - i,
{
    if i + 1 < j {
        lemma_sorted_addr_increasing(regions, i + 1, j);
    }
}

/// `region_sum` around two adjacent positions.
proof fn lemma_region_sum_split2(s: Seq<FreeRegion>, i: int)
    requires
        0 <= i,
        i + 1 < s.len(),
    ensures
        region_sum(s) == region_sum(s.take(i)) + s[i].size + s[i + 1].size + region_sum(
            s.skip(i + 2),
        ),
{
    lemma_region_sum_split(s, i);
    lemma_region_sum_split(s.skip(i + 1), 0);
    assert(s.skip(i + 1)[0] == s[i + 1]);
    assert(s.skip(i + 1).take(0) =~= Seq::<FreeRegion>::empty());
    assert(s.skip(i + 1).skip(1) =~= s.skip(i + 2));
}

/// Reinserting a freed block adds exactly `size` free bytes.
#[verifier::spinoff_prover]
proof fn lemma_regions_after_free_sum(
    regions: Seq<FreeRegion>,
    addr: u64,
    size: u64,
    heap_start: u64,
    heap_end: u64,
)
    requires
        free_list_wf(regions, heap_start, heap_end),
        1 <= size,
        heap_start <= addr,
        addr + size <= heap_end,
        heap_end <= HEAP_END_LIMIT,
    ensures
        region_sum(regions_after_free(regions, addr, size)) == region_sum(regions) + size,
{
    let i = count_before(regions, addr);
    lemma_count_before_bound(regions, addr);
    let merge_pred = i > 0 && regions[i - 1].addr + regions[i - 1].size == addr;
    let merge_succ = i < regions.len() && addr + size == regions[i].addr;
    let s2 = regions_after_free(regions, addr, size);
    reveal_with_fuel(region_sum, 2);
    if merge_pred && merge_succ {
        let merged = FreeRegion {
            addr: regions[i - 1].addr,
            size: (regions[i - 1].size + size + regions[i].size) as u64,
        };
        lemma_region_sum_concat(regions.take(i - 1) + seq![merged], regions.skip(i + 1));
        lemma_region_sum_concat(regions.take(i - 1), seq![merged]);
        assert(seq![merged].drop_first() =~= Seq::<FreeRegion>::empty());
        lemma_region_sum_split2(regions, i - 1);
    } else if merge_pred {
        let merged = FreeRegion {
            addr: regions[i - 1].addr,
            size: (regions[i - 1].size + size) as u64,
        };
        lemma_region_sum_concat(regions.take(i - 1) + seq![merged], regions.skip(i));
        lemma_region_sum_concat(regions.take(i - 1), seq![merged]);
        assert(seq![merged].drop_first() =~= Seq::<FreeRegion>::empty());
        lemma_region_sum_split(regions, i - 1);
        assert(regions.skip((i - 1) + 1) =~= regions.skip(i));
    } else if merge_succ {
        let merged = FreeRegion { addr, size: (size + regions[i].size) as u64 };
        lemma_region_sum_concat(regions.take(i) + seq![merged], regions.skip(i + 1));
        lemma_region_sum_concat(regions.take(i), seq![merged]);
        assert(seq![merged].drop_first() =~= Seq::<FreeRegion>::empty());
        lemma_region_sum_split(regions, i);
    } else {
        let fresh = FreeRegion { addr, size };
        lemma_region_sum_concat(regions.take(i) + seq![fresh], regions.skip(i));
        lemma_region_sum_concat(regions.take(i), seq![fresh]);
        assert(seq![fresh].drop_first() =~= Seq::<FreeRegion>::empty());
        lemma_region_sum_concat(regions.take(i), regions.skip(i));
        assert(regions.take(i) + regions.skip(i) =~= regions);
    }
}

/// `count_before` never exceeds the list length.
proof fn lemma_count_before_bound(regions: Seq<FreeRegion>, addr: u64)
    ensures
        0 <= count_before(regions, addr) <= regions.len(),
    decreases regions.len(),
{
    if regions.len() > 0 {
        lemma_count_before_bound(regions.drop_first(), addr);
    }
}

/// Reinserting a freed, disjoint block keeps the free list well formed.
#[verifier::rlimit(100)]
#[verifier::spinoff_prover]
proof fn lemma_regions_after_free_wf(
    regions: Seq<FreeRegion>,
    addr: u64,
    size: u64,
    heap_start: u64,
    heap_end: u64,
)
    requires
        free_list_wf(regions, heap_start, heap_end),
        1 <= size,
        heap_start <= addr,
        addr + size <= heap_end,
        forall|j: int|
            0 <= j < regions.len() ==> (addr + size <= (#[trigger] regions[j]).addr
                || regions[j].addr + regions[j].size <= addr),
    ensures
        free_list_wf(regions_after_free(regions, addr, size), heap_start, heap_end),
{
    lemma_count_before_props(regions, addr);
    let i = count_before(regions, addr);
    let merge_pred = i > 0 && regions[i - 1].addr + regions[i - 1].size == addr;
    let merge_succ = i < regions.len() && addr + size == regions[i].addr;
    let s2 = regions_after_free(regions, addr, size);
    if i > 0 {
        assert(regions[i - 1].addr + regions[i - 1].size <= addr);
    }
    if i < regions.len() {
        assert(addr + size <= regions[i].addr) by {
            assert(regions[i].addr >= addr);
            assert(addr + size <= regions[i].addr || regions[i].addr + regions[i].size <= addr);
        }
    }
    if merge_pred && merge_succ {
        let merged = FreeRegion {
            addr: regions[i - 1].addr,
            size: (regions[i - 1].size + size + regions[i].size) as u64,
        };
        assert(s2 == regions.take(i - 1) + seq![merged] + regions.skip(i + 1));
        assert(s2.len() == regions.len() - 1);
        assert forall|j: int|
            0 <= j < s2.len() implies (#[trigger] s2[j]).size >= 1 && s2[j].addr >= heap_start
            && s2[j].addr + s2[j].size <= heap_end by {
            if j < i - 1 {
                assert(s2[j] == regions[j]);
            } else if j > i - 1 {
                assert(s2[j] == regions[j + 1]);
            }
        }
        assert forall|j: int|
            0 <= j && j + 1 < s2.len() implies (#[trigger] s2[j]).addr + s2[j].size < s2[j
            + 1].addr by {
            if j + 1 < i - 1 {
                assert(s2[j] == regions[j] && s2[j + 1] == regions[j + 1]);
            } else if j + 1 == i - 1 {
                assert(s2[j] == regions[j] && s2[j + 1].addr == regions[i - 1].addr);
            } else if j == i - 1 {
                assert(s2[j + 1] == regions[i + 1]);
            } else {
                assert(s2[j] == regions[j + 1] && s2[j + 1] == regions[j + 2]);
            }
        }
    } else if merge_pred {
        let merged = FreeRegion {
            addr: regions[i - 1].addr,
            size: (regions[i - 1].size + size) as u64,
        };
        assert(s2 == regions.take(i - 1) + seq![merged] + regions.skip(i));
        assert(s2.len() == regions.len());
        assert forall|j: int|
            0 <= j < s2.len() implies (#[trigger] s2[j]).size >= 1 && s2[j].addr >= heap_start
            && s2[j].addr + s2[j].size <= heap_end by {
            if j != i - 1 {
                assert(s2[j] == regions[j]);
            }
        }
        assert forall|j: int|
            0 <= j && j + 1 < s2.len() implies (#[trigger] s2[j]).addr + s2[j].size < s2[j
            + 1].addr by {
            if j + 1 < i - 1 {
                assert(s2[j] == regions[j] && s2[j + 1] == regions[j + 1]);
            } else if j + 1 == i - 1 {
                assert(s2[j] == regions[j] && s2[j + 1].addr == regions[i - 1].addr);
            } else if j == i - 1 {
                assert(s2[j + 1] == regions[i]);
                assert(merged.addr + merged.size == addr + size);
            } else {
                assert(s2[j] == regions[j] && s2[j + 1] == regions[j + 1]);
            }
        }
    } else if merge_succ {
        let merged = FreeRegion { addr, size: (size + regions[i].size) as u64 };
        assert(s2 == regions.take(i) + seq![merged] + regions.skip(i + 1));
        assert(s2.len() == regions.len());
        assert forall|j: int|
            0 <= j < s2.len() implies (#[trigger] s2[j]).size >= 1 && s2[j].addr >= heap_start
            && s2[j].addr + s2[j].size <= heap_end by {
            if j != i {
                assert(s2[j] == regions[j]);
            }
        }
        assert forall|j: int|
            0 <= j && j + 1 < s2.len() implies (#[trigger] s2[j]).addr + s2[j].size < s2[j
            + 1].addr by {
            if j + 1 < i {
                assert(s2[j] == regions[j] && s2[j + 1] == regions[j + 1]);
            } else if j + 1 == i {
                assert(s2[j] == regions[j]);
                assert(regions[j].addr + regions[j].size <= addr) by {
                    assert(regions[j].addr < addr);
                }
            } else if j == i {
                assert(s2[j + 1] == regions[i + 1]);
                assert(merged.addr + merged.size == regions[i].addr + regions[i].size);
            } else {
                assert(s2[j] == regions[j] && s2[j + 1] == regions[j + 1]);
            }
        }
    } else {
        assert(s2 == regions.take(i) + seq![FreeRegion { addr, size }] + regions.skip(i));
        assert(s2.len() == regions.len() + 1);
        assert forall|j: int|
            0 <= j < s2.len() implies (#[trigger] s2[j]).size >= 1 && s2[j].addr >= heap_start
            && s2[j].addr + s2[j].size <= heap_end by {
            if j < i {
                assert(s2[j] == regions[j]);
            } else if j > i {
                assert(s2[j] == regions[j - 1]);
            }
        }
        assert forall|j: int|
            0 <= j && j + 1 < s2.len() implies (#[trigger] s2[j]).addr + s2[j].size < s2[j
            + 1].addr by {
            if j + 1 < i {
                assert(s2[j] == regions[j] && s2[j + 1] == regions[j + 1]);
            } else if j + 1 == i {
                assert(s2[j] == regions[j]);
                assert(regions[j].addr + regions[j].size <= addr);
            } else if j == i {
                assert(s2[j + 1] == regions[i]);
                assert(addr + size <= regions[i].addr);
            } else {
                assert(s2[j] == regions[j - 1] && s2[j + 1] == regions[j]);
            }
        }
    }
}

impl LinkedListAllocator {
    /// Return a block to the free list, keeping address order; merge with a
    /// neighbor exactly where the adjacency is an exact match.  The block
    /// must be one that `allocate` handed out, with the same bounds, and
    /// must not overlap any free region: a mismatched free would corrupt
    /// the list, so this is the caller's contract.
    #[verifier::rlimit(100)]
    #[verifier::spinoff_prover]
    pub fn deallocate(&mut self, addr: u64, size: u64)
        requires
            old(self).wf(),
            1 <= size,
            old(self).heap_start <= addr,
            addr + size <= old(self).heap_end,
            forall|j: int|
                0 <= j < old(self).free_list@.len() ==> (addr + size <= (#[trigger] old(
                    self,
                ).free_list@[j]).addr || old(self).free_list@[j].addr + old(
                    self,
                ).free_list@[j].size <= addr),
        ensures
            final(self).wf(),
            final(self).heap_start == old(self).heap_start,
            final(self).heap_end == old(self).heap_end,
            final(self).free_list@ == regions_after_free(old(self).free_list@, addr, size),
            final(self).free_bytes_spec() == old(self).free_bytes_spec() + size,
    {
        let ghost regions = self.free_list@;
        proof {
            lemma_count_before_props(regions, addr);
            lemma_regions_after_free_sum(regions, addr, size, self.heap_start, self.heap_end);
            lemma_regions_after_free_wf(regions, addr, size, self.heap_start, self.heap_end);
        }
        let mut i: usize = 0;
        while i < self.free_list.len() && self.free_list[i].addr < addr
            invariant
                self == old(self),
                old(self).wf(),
                regions == self.free_list@,
                i <= regions.len(),
                forall|j: int| 0 <= j < i ==> (#[trigger] regions[j]).addr < addr,
            decreases regions.len() - i,
        {
            i = i + 1;
        }
        proof {
            assert(count_before(regions, addr) == i) by {
                lemma_count_before_exact(regions, addr, i as int);
            }
        }
        let merge_pred = i > 0 && {
            let p = self.free_list[i - 1];
            p.addr + p.size == addr
        };
        let merge_succ = i < self.free_list.len() && addr + size == self.free_list[i].addr;
        if merge_pred && merge_succ {
            let p = self.free_list[i - 1];
            let s = self.free_list[i];
            self.free_list[i - 1] = FreeRegion { addr: p.addr, size: p.size + size + s.size };
            self.free_list.remove(i);
            proof {
                assert(self.free_list@ =~= regions_after_free(regions, addr, size));
            }
        } else if merge_pred {
            let p = self.free_list[i - 1];
            self.free_list[i - 1] = FreeRegion { addr: p.addr, size: p.size + size };
            proof {
                assert(self.free_list@ =~= regions_after_free(regions, addr, size));
            }
        } else if merge_succ {
            let s = self.free_list[i];
            self.free_list[i] = FreeRegion { addr, size: size + s.size };
            proof {
                assert(self.free_list@ =~= regions_after_free(regions, addr, size));
            }
        } else {
            self.free_list.insert(i, FreeRegion { addr, size });
            proof {
                assert(self.free_list@ =~= regions_after_free(regions, addr, size));
            }
        }
    }
}

/// A scan that stops at the first region at or above `addr` has counted
/// exactly `count_before`.
proof fn lemma_count_before_exact(regions: Seq<FreeRegion>, addr: u64, i: int)
    requires
        0 <= i <= regions.len(),
        forall|j: int| 0 <= j < i ==> (#[trigger] regions[j]).addr < addr,
        i < regions.len() ==> regions[i].addr >= addr,
    ensures
        count_before(regions, addr) == i,
    decreases regions.len(),
{
    if regions.len() > 0 {
        let rest = regions.drop_first();
        assert(forall|j: int| 0 <= j < rest.len() ==> rest[j] == regions[j + 1]);
        if i == 0 {
            assert(regions[0].addr >= addr);
        } else {
            lemma_count_before_exact(rest, addr, i - 1);
        }
    }
}

/// Fallback first-fit reuse, shown for the single-region pool the design
/// starts from: an aligned allocation carves the front of the region, and
/// freeing that block merges the region back exactly — so the next
/// identical request finds the same first fit and returns the same
/// address, and the pool does not grow.
pub proof fn lemma_fallback_first_fit_reuse(region: FreeRegion, size: u64, align: u64)
    requires
        1 <= size,
        align >= 1,
        region.addr % align == 0,
        size < region.size,
        region.addr + region.size <= HEAP_END_LIMIT,
    ensures
        find_first_fit(seq![region], size, align) == Some(0int),
        spec_align_up(region.addr, align) == region.addr,
        regions_after_free(
            regions_after_alloc(seq![region], 0, size, align),
            region.addr,
            size,
        ) =~= seq![region],
{
    let regions = seq![region];
    assert(spec_align_up(region.addr, align) == region.addr);
    assert(region_fits(region, size, align));
    let after_alloc = regions_after_alloc(regions, 0, size, align);
    let tail = FreeRegion {
        addr: (region.addr + size) as u64,
        size: (region.size - size) as u64,
    };
    assert(regions.take(0) =~= Seq::<FreeRegion>::empty());
    assert(regions.skip(1) =~= Seq::<FreeRegion>::empty());
    assert(after_alloc =~= seq![tail]);
    reveal_with_fuel(count_before, 2);
    assert(count_before(seq![tail], region.addr) == 0);
    let merged = FreeRegion { addr: region.addr, size: (size + tail.size) as u64 };
    assert(regions_after_free(seq![tail], region.addr, size) =~= seq![tail].take(0)
        + seq![merged] + seq![tail].skip(1));
    assert(seq![tail].take(0) =~= Seq::<FreeRegion>::empty());
    assert(seq![tail].skip(1) =~= Seq::<FreeRegion>::empty());
    assert(merged == region);
}

/// A sum of region sizes is never negative.
pub proof fn lemma_region_sum_nonneg(regions: Seq<FreeRegion>)
    ensures
        region_sum(regions) >= 0,
    decreases regions.len(),
{
    if regions.len() > 0 {
        lemma_region_sum_nonneg(regions.drop_first());
    }
}

} // verus!
