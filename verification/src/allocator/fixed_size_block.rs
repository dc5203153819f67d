//! The process-wide dynamic allocator: size-classed free lists for common
//! request shapes, a bump cursor that carves batches of blocks out of one
//! page at a time, and the address-ordered fallback list for everything
//! else.
//!
//! A size-classed block carries no header: the caller must free it with
//! exactly the size and alignment it was allocated with.  That contract is
//! stated here as the precondition of `deallocate`, not checked at run
//! time by the kernel.  Once a block has been classed it is pushed back
//! onto its class list on free, never returned to the bump cursor or the
//! fallback pool.
use vstd::prelude::*;

use crate::memory::MemoryError;
use super::linked_list::{
    find_first_fit, region_sum, regions_after_alloc, regions_after_free, spec_align_up,
    LinkedListAllocator,
};
use super::{align_up, is_power_of_two};
use vstd::arithmetic::div_mod::{lemma_fundamental_div_mod, lemma_mod_multiples_basic};

verus! {

/// Number of declared size classes.
pub const BLOCK_SIZES_COUNT: usize = 9;

/// How many blocks one batch carves from the bump cursor, at most.
pub const BLOCKS_PER_BATCH: u64 = 8;

/// Bytes requested from the fallback pool when the bump cursor is
/// exhausted: one page.
pub const BATCH_PAGE: u64 = 4096;

/// The block size of each declared class, ascending powers of two.
pub open spec fn block_size_spec(idx: int) -> u64 {
    if idx == 0 {
        8
    } else if idx == 1 {
        16
    } else if idx == 2 {
        32
    } else if idx == 3 {
        64
    } else if idx == 4 {
        128
    } else if idx == 5 {
        256
    } else if idx == 6 {
        512
    } else if idx == 7 {
        1024
    } else {
        2048
    }
}

/// Executable table of the declared block sizes.
pub fn block_size(idx: usize) -> (r: u64)
    requires
        idx < BLOCK_SIZES_COUNT,
    ensures
        r == block_size_spec(idx as int),
{
    if idx == 0 {
        8
    } else if idx == 1 {
        16
    } else if idx == 2 {
        32
    } else if idx == 3 {
        64
    } else if idx == 4 {
        128
    } else if idx == 5 {
        256
    } else if idx == 6 {
        512
    } else if idx == 7 {
        1024
    } else {
        2048
    }
}

/// A request is classed by the larger of its size and alignment, since a
/// class block is aligned to its own size.
pub open spec fn required_block_size(size: u64, align: u64) -> u64 {
    if size >= align {
        size
    } else {
        align
    }
}

/// The class that serves a request: the smallest block size that covers
/// it, or none when the request is outside every class.
pub open spec fn class_of(size: u64, align: u64) -> Option<int> {
    let req = required_block_size(size, align);
    if req <= 8 {
        Some(0int)
    } else if req <= 16 {
        Some(1int)
    } else if req <= 32 {
        Some(2int)
    } else if req <= 64 {
        Some(3int)
    } else if req <= 128 {
        Some(4int)
    } else if req <= 256 {
        Some(5int)
    } else if req <= 512 {
        Some(6int)
    } else if req <= 1024 {
        Some(7int)
    } else if req <= 2048 {
        Some(8int)
    } else {
        None
    }
}

/// Executable classing of a request.
pub fn list_index(size: u64, align: u64) -> (r: Option<usize>)
    ensures
        match r {
            Some(c) => class_of(size, align) == Some(c as int) && c < BLOCK_SIZES_COUNT,
            None => class_of(size, align) is None,
        },
{
    let req = if size >= align {
        size
    } else {
        align
    };
    if req <= 8 {
        Some(0)
    } else if req <= 16 {
        Some(1)
    } else if req <= 32 {
        Some(2)
    } else if req <= 64 {
        Some(3)
    } else if req <= 128 {
        Some(4)
    } else if req <= 256 {
        Some(5)
    } else if req <= 512 {
        Some(6)
    } else if req <= 1024 {
        Some(7)
    } else if req <= 2048 {
        Some(8)
    } else {
        None
    }
}

/// Free bytes held by the class lists up to class `c`.
pub open spec fn class_bytes(lists: Seq<Vec<u64>>, c: int) -> int
    decreases c,
{
    if c <= 0 {
        0
    } else {
        class_bytes(lists, c - 1) + lists[c - 1]@.len() * block_size_spec(c - 1)
    }
}

/// The dynamic allocator over one managed byte range.
pub struct FixedSizeBlockAllocator {
    pub list_heads: Vec<Vec<u64>>,
    pub bump_next: u64,
    pub bump_end: u64,
    pub fallback: LinkedListAllocator,
}

impl FixedSizeBlockAllocator {
    /// Start of the managed range.
    pub open spec fn heap_start(&self) -> u64 {
        self.fallback.heap_start
    }

    /// End of the managed range.
    pub open spec fn heap_end(&self) -> u64 {
        self.fallback.heap_end
    }

    /// Validity: one list per class, a well-formed fallback, a bump region
    /// inside the managed range, and every listed block aligned to its
    /// class and inside the managed range.
    pub open spec fn wf(&self) -> bool {
        &&& self.list_heads@.len() == BLOCK_SIZES_COUNT
        &&& self.fallback.wf()
        &&& self.bump_next <= self.bump_end
        &&& self.bump_end <= self.heap_end()
        &&& (self.bump_next == self.bump_end || self.heap_start() <= self.bump_next)
        &&& forall|c: int, k: int|
            0 <= c < BLOCK_SIZES_COUNT && 0 <= k < self.list_heads@[c]@.len() ==> {
                let b = #[trigger] self.list_heads@[c]@[k];
                &&& b % block_size_spec(c) == 0
                &&& self.heap_start() <= b
                &&& b + block_size_spec(c) <= self.heap_end()
            }
    }

    /// Free bytes over every component: class lists, the bump region, and
    /// the fallback pool.
    pub open spec fn free_bytes_spec(&self) -> int {
        class_bytes(self.list_heads@, BLOCK_SIZES_COUNT as int) + (self.bump_end - self.bump_next)
            + self.fallback.free_bytes_spec()
    }

    /// An allocator that manages nothing yet.
    pub fn new() -> (r: Self)
        ensures
            r.wf(),
            r.free_bytes_spec() == 0,
            r.heap_start() == 0 && r.heap_end() == 0,
            forall|c: int| 0 <= c < BLOCK_SIZES_COUNT ==> (#[trigger] r.list_heads@[c]@).len() == 0,
    {
        let mut lists: Vec<Vec<u64>> = Vec::new();
        let mut i: usize = 0;
        while i < BLOCK_SIZES_COUNT
            invariant
                i <= BLOCK_SIZES_COUNT,
                lists@.len() == i,
                forall|c: int| 0 <= c < i ==> (#[trigger] lists@[c]@).len() == 0,
            decreases BLOCK_SIZES_COUNT - i,
        {
            lists.push(Vec::new());
            i = i + 1;
        }
        let r = FixedSizeBlockAllocator {
            list_heads: lists,
            bump_next: 0,
            bump_end: 0,
            fallback: LinkedListAllocator::new(),
        };
        proof {
            lemma_class_bytes_empty(r.list_heads@, BLOCK_SIZES_COUNT as int);
        }
        r
    }

    /// Record the managed byte range.  The whole range goes to the
    /// fallback pool; the bump cursor starts empty and takes pages from
    /// the pool as class batches need them.
    pub fn init(&mut self, heap_start: u64, heap_size: u64)
        requires
            old(self).wf(),
            heap_start + heap_size <= super::linked_list::HEAP_END_LIMIT,
            forall|c: int|
                0 <= c < BLOCK_SIZES_COUNT ==> (#[trigger] old(self).list_heads@[c]@).len() == 0,
        ensures
            final(self).wf(),
            final(self).heap_start() == heap_start,
            final(self).heap_end() == heap_start + heap_size,
            final(self).free_bytes_spec() == heap_size,
            final(self).list_heads@ == old(self).list_heads@,
    {
        self.bump_next = 0;
        self.bump_end = 0;
        self.fallback.init(heap_start, heap_size);
        proof {
            lemma_class_bytes_empty(self.list_heads@, BLOCK_SIZES_COUNT as int);
        }
    }
}

impl FixedSizeBlockAllocator {
    /// Where the next batch for class blocks of size `bs` would start on
    /// the bump region.
    pub open spec fn bump_carve_start(&self, bs: u64) -> int {
        spec_align_up(self.bump_next, bs)
    }

    /// How many blocks of size `bs` the next batch carves from the bump
    /// region: up to `BLOCKS_PER_BATCH`, zero when the region cannot hold
    /// even one.
    pub open spec fn bump_carve_count(&self, bs: u64) -> int {
        if self.bump_carve_start(bs) + bs <= self.bump_end {
            let fit = (self.bump_end - self.bump_carve_start(bs)) / (bs as int);
            if fit > BLOCKS_PER_BATCH {
                BLOCKS_PER_BATCH as int
            } else {
                fit
            }
        } else {
            0
        }
    }

    /// Dynamic allocation.  A request matching a size class pops a block
    /// from that class's free list, first carving a fresh batch of blocks
    /// from the bump cursor when the list is empty — or, once the bump
    /// region is exhausted, from a page requested from the fallback pool.
    /// Any other request goes to the fallback pool's first-fit list.
    /// Reports `AllocationFailed`, changing nothing, when no class batch
    /// and no fallback block can satisfy the request.
    #[verifier::rlimit(100)]
    #[verifier::spinoff_prover]
    pub fn allocate(&mut self, size: u64, align: u64) -> (r: Result<u64, MemoryError>)
        requires
            old(self).wf(),
            1 <= size,
            is_power_of_two(align),
        ensures
            final(self).wf(),
            final(self).heap_start() == old(self).heap_start(),
            final(self).heap_end() == old(self).heap_end(),
            r is Err ==> r == Err::<u64, MemoryError>(MemoryError::AllocationFailed) && *final(self)
                == *old(self),
            r is Ok ==> size <= old(self).free_bytes_spec() && final(self).free_bytes_spec() + size
                <= old(self).free_bytes_spec(),
            r is Ok ==> r->Ok_0 % align == 0 && old(self).heap_start() <= r->Ok_0 && r->Ok_0 + size
                <= old(self).heap_end(),
            ({
                let lists = old(self).list_heads@;
                class_of(size, align) is Some && lists[class_of(size, align)->0]@.len() > 0 ==> {
                    let c = class_of(size, align)->0;
                    &&& r == Ok::<u64, MemoryError>(lists[c]@.last())
                    &&& final(self).list_heads@[c]@ == lists[c]@.drop_last()
                    &&& (forall|k: int|
                        0 <= k < BLOCK_SIZES_COUNT && k != c ==> final(self).list_heads@[k] == lists[k])
                    &&& final(self).bump_next == old(self).bump_next
                    &&& final(self).bump_end == old(self).bump_end
                    &&& final(self).fallback == old(self).fallback
                    &&& final(self).free_bytes_spec() == old(self).free_bytes_spec()
                        - block_size_spec(c)
                }
            }),
            ({
                let lists = old(self).list_heads@;
                class_of(size, align) is Some && lists[class_of(size, align)->0]@.len() == 0 ==> {
                    let c = class_of(size, align)->0;
                    let bs = block_size_spec(c);
                    let n = old(self).bump_carve_count(bs);
                    &&& (n >= 1 ==> {
                        let start = old(self).bump_carve_start(bs);
                        &&& r == Ok::<u64, MemoryError>((start + (n - 1) * bs) as u64)
                        &&& final(self).list_heads@[c]@ == Seq::new(
                            (n - 1) as nat,
                            |j: int| (start + j * bs) as u64,
                        )
                        &&& final(self).bump_next == start + n * bs
                        &&& final(self).bump_end == old(self).bump_end
                        &&& final(self).fallback == old(self).fallback
                    })
                    &&& (n == 0 && find_first_fit(
                        old(self).fallback.free_list@,
                        BATCH_PAGE,
                        BATCH_PAGE,
                    ) is None ==> r is Err)
                    &&& (n == 0 && find_first_fit(
                        old(self).fallback.free_list@,
                        BATCH_PAGE,
                        BATCH_PAGE,
                    ) is Some ==> {
                        let i = find_first_fit(
                            old(self).fallback.free_list@,
                            BATCH_PAGE,
                            BATCH_PAGE,
                        )->0;
                        let p = spec_align_up(old(self).fallback.free_list@[i].addr, BATCH_PAGE);
                        let k = if (BATCH_PAGE as int) / (bs as int) > BLOCKS_PER_BATCH {
                            BLOCKS_PER_BATCH as int
                        } else {
                            (BATCH_PAGE as int) / (bs as int)
                        };
                        &&& r == Ok::<u64, MemoryError>((p + (k - 1) * bs) as u64)
                        &&& final(self).list_heads@[c]@ == Seq::new(
                            (k - 1) as nat,
                            |j: int| (p + j * bs) as u64,
                        )
                        &&& final(self).bump_next == p + k * bs
                        &&& final(self).bump_end == p + BATCH_PAGE
                        &&& final(self).fallback.free_list@ == regions_after_alloc(
                            old(self).fallback.free_list@,
                            i,
                            BATCH_PAGE,
                            BATCH_PAGE,
                        )
                    })
                    &&& (forall|k2: int|
                        0 <= k2 < BLOCK_SIZES_COUNT && k2 != c && r is Ok
                            ==> final(self).list_heads@[k2] == lists[k2])
                }
            }),
            ({
                class_of(size, align) is None ==> {
                    let ff = find_first_fit(old(self).fallback.free_list@, size, align);
                    &&& (ff is None ==> r is Err)
                    &&& (ff is Some ==> {
                        &&& r == Ok::<u64, MemoryError>(
                            spec_align_up(
                                old(self).fallback.free_list@[ff->0].addr,
                                align,
                            ) as u64,
                        )
                        &&& final(self).fallback.free_list@ == regions_after_alloc(
                            old(self).fallback.free_list@,
                            ff->0,
                            size,
                            align,
                        )
                        &&& final(self).list_heads@ == old(self).list_heads@
                        &&& final(self).bump_next == old(self).bump_next
                        &&& final(self).bump_end == old(self).bump_end
                    })
                }
            }),
    {
        let ghost lists0 = self.list_heads@;
        match list_index(size, align) {
            Some(c) => {
                let bs = block_size(c);
                proof {
                    lemma_block_size_facts(c as int);
                    lemma_pow2_divides(align, bs);
                    lemma_class_covers(size, align);
                    lemma_class_bytes_nonneg(self.list_heads@, BLOCK_SIZES_COUNT as int);
                    super::linked_list::lemma_region_sum_nonneg(self.fallback.free_list@);
                }
                if self.list_heads[c].len() > 0 {
                    let b = match self.list_heads[c].pop() {
                        Some(b) => b,
                        None => {
                            proof {
                                assert(false);
                            }
                            return Err(MemoryError::AllocationFailed);
                        },
                    };
                    proof {
                        lemma_class_bytes_update(
                            lists0,
                            self.list_heads@,
                            c as int,
                            BLOCK_SIZES_COUNT as int,
                        );
                        lemma_class_bytes_lower(lists0, c as int, BLOCK_SIZES_COUNT as int);
                        super::linked_list::lemma_region_sum_nonneg(self.fallback.free_list@);
                        assert(lists0[c as int]@.len() * bs >= bs) by (nonlinear_arith)
                            requires
                                lists0[c as int]@.len() >= 1,
                                bs >= 1,
                        ;
                        assert((self.list_heads@[c as int]@.len() - lists0[c as int]@.len()) * (
                        block_size_spec(c as int) as int) == -1 * (bs as int));
                        assert(size <= bs);
                        assert(size <= old(self).free_bytes_spec());
                        assert(self.free_bytes_spec() == old(self).free_bytes_spec() - bs);
                        lemma_divides_transitive(b, bs, align);
                        assert forall|c2: int, k: int|
                            0 <= c2 < BLOCK_SIZES_COUNT && 0 <= k
                                < self.list_heads@[c2]@.len() implies {
                            let bb = #[trigger] self.list_heads@[c2]@[k];
                            &&& bb % block_size_spec(c2) == 0
                            &&& self.heap_start() <= bb
                            &&& bb + block_size_spec(c2) <= self.heap_end()
                        } by {
                            assert(self.list_heads@[c2]@[k] == lists0[c2]@[k]);
                        }
                    }
                    Ok(b)
                } else {
                    self.refill_and_pop(c, size, align)
                }
            },
            None => {
                match self.fallback.allocate(size, align) {
                    Ok(p) => {
                        proof {
                            lemma_class_bytes_same(lists0, self.list_heads@, BLOCK_SIZES_COUNT as int);
                            lemma_class_bytes_nonneg(self.list_heads@, BLOCK_SIZES_COUNT as int);
                            super::linked_list::lemma_region_sum_nonneg(self.fallback.free_list@);
                            assert(size <= old(self).free_bytes_spec());
                        }
                        Ok(p)
                    },
                    Err(e) => Err(e),
                }
            },
        }
    }
}

impl FixedSizeBlockAllocator {
    /// Populate class `c`'s empty free list with `count` fresh blocks
    /// carved in ascending order from `start`, then pop the last of them
    /// for the caller.  Touches nothing but the class list.
    #[verifier::rlimit(100)]
    #[verifier::spinoff_prover]
    fn carve_blocks(&mut self, c: usize, bs: u64, start: u64, count: u64) -> (r: u64)
        requires
            old(self).wf(),
            c < BLOCK_SIZES_COUNT,
            bs == block_size_spec(c as int),
            old(self).list_heads@[c as int]@.len() == 0,
            start % bs == 0,
            old(self).heap_start() <= start,
            start + count * bs <= old(self).heap_end(),
            1 <= count <= BLOCKS_PER_BATCH,
        ensures
            final(self).wf(),
            r == start + (count - 1) * bs,
            final(self).list_heads@.len() == BLOCK_SIZES_COUNT,
            final(self).list_heads@[c as int]@ == Seq::new(
                (count - 1) as nat,
                |j: int| (start + j * bs) as u64,
            ),
            forall|k: int|
                0 <= k < BLOCK_SIZES_COUNT && k != c ==> final(self).list_heads@[k] == old(
                    self,
                ).list_heads@[k],
            final(self).bump_next == old(self).bump_next,
            final(self).bump_end == old(self).bump_end,
            final(self).fallback == old(self).fallback,
            final(self).free_bytes_spec() == old(self).free_bytes_spec() + (count - 1) * bs,
    {
        proof {
            lemma_block_size_facts(c as int);
            assert forall|j: int| 0 <= j < count implies (#[trigger] (j * bs)) >= 0 && ((start + j
                * bs) as int) + bs <= start + count * bs && (start + j * bs) % (bs as int)
                == 0 by {
                assert((j + 1) * bs <= count * bs && j * bs >= 0) by (nonlinear_arith)
                    requires
                        0 <= j < count,
                        bs >= 1,
                ;
                vstd::arithmetic::div_mod::lemma_mod_multiples_vanish(
                    j,
                    start as int,
                    bs as int,
                );
                assert((bs as int) * j + start == start + j * bs);
            }
        }
        let ghost lists0 = self.list_heads@;
        let mut j: u64 = 0;
        while j < count
            invariant
                old(self).wf(),
                c < BLOCK_SIZES_COUNT,
                bs == block_size_spec(c as int),
                j <= count,
                1 <= count <= BLOCKS_PER_BATCH,
                start % bs == 0,
                old(self).heap_start() <= start,
                start + count * bs <= old(self).heap_end(),
                self.list_heads@.len() == BLOCK_SIZES_COUNT,
                self.list_heads@[c as int]@ == Seq::new(j as nat, |t: int| (start + t * bs) as u64),
                forall|k: int|
                    0 <= k < BLOCK_SIZES_COUNT && k != c ==> self.list_heads@[k] == lists0[k],
                self.bump_next == old(self).bump_next,
                self.bump_end == old(self).bump_end,
                self.fallback == old(self).fallback,
                forall|t: int|
                    0 <= t < count ==> (#[trigger] (t * bs)) >= 0 && ((start + t * bs) as int) + bs
                        <= start + count * bs && (start + t * bs) % (bs as int) == 0,
            decreases count - j,
        {
            let val = start + j * bs;
            self.list_heads[c].push(val);
            proof {
                assert(self.list_heads@[c as int]@ =~= Seq::new(
                    (j + 1) as nat,
                    |t: int| (start + t * bs) as u64,
                ));
            }
            j = j + 1;
        }
        let b = match self.list_heads[c].pop() {
            Some(b) => b,
            None => {
                proof {
                    assert(Seq::new(count as nat, |t: int| (start + t * bs) as u64).len() > 0);
                    assert(false);
                }
                0
            },
        };
        proof {
            let full = Seq::new(count as nat, |t: int| (start + t * bs) as u64);
            assert(b == full.last());
            assert(full.last() == start + (count - 1) * bs);
            assert(self.list_heads@[c as int]@ =~= Seq::new(
                (count - 1) as nat,
                |t: int| (start + t * bs) as u64,
            ));
            lemma_class_bytes_update(lists0, self.list_heads@, c as int, BLOCK_SIZES_COUNT as int);
            assert((count - 1) * bs >= 0 && (count - 1) * bs == ((count - 1) as int) * (
            bs as int)) by (nonlinear_arith)
                requires
                    1 <= count,
                    bs >= 1,
            ;
            assert forall|c2: int, k: int|
                0 <= c2 < BLOCK_SIZES_COUNT && 0 <= k < self.list_heads@[c2]@.len() implies {
                let bb = #[trigger] self.list_heads@[c2]@[k];
                &&& bb % block_size_spec(c2) == 0
                &&& self.heap_start() <= bb
                &&& bb + block_size_spec(c2) <= self.heap_end()
            } by {
                if c2 != c {
                    assert(self.list_heads@[c2]@[k] == lists0[c2]@[k]);
                } else {
                    assert(self.list_heads@[c2]@[k] == (start + k * bs) as u64);
                }
            }
        }
        b
    }

    /// Class `c`'s list is empty: carve a fresh batch from the bump
    /// region, or from a page requested from the fallback pool once the
    /// bump region is exhausted, and hand out one block of it.
    #[verifier::rlimit(100)]
    #[verifier::spinoff_prover]
    fn refill_and_pop(&mut self, c: usize, size: u64, align: u64) -> (r: Result<u64, MemoryError>)
        requires
            old(self).wf(),
            c < BLOCK_SIZES_COUNT,
            class_of(size, align) == Some(c as int),
            1 <= size,
            is_power_of_two(align),
            old(self).list_heads@[c as int]@.len() == 0,
        ensures
            final(self).wf(),
            final(self).heap_start() == old(self).heap_start(),
            final(self).heap_end() == old(self).heap_end(),
            r is Err ==> r == Err::<u64, MemoryError>(MemoryError::AllocationFailed) && *final(self)
                == *old(self),
            r is Ok ==> size <= old(self).free_bytes_spec() && final(self).free_bytes_spec() + size
                <= old(self).free_bytes_spec(),
            r is Ok ==> r->Ok_0 % align == 0 && old(self).heap_start() <= r->Ok_0 && r->Ok_0 + size
                <= old(self).heap_end(),
            ({
                let bs = block_size_spec(c as int);
                let n = old(self).bump_carve_count(bs);
                &&& (n >= 1 ==> {
                    let start = old(self).bump_carve_start(bs);
                    &&& r == Ok::<u64, MemoryError>((start + (n - 1) * bs) as u64)
                    &&& final(self).list_heads@[c as int]@ == Seq::new(
                        (n - 1) as nat,
                        |j: int| (start + j * bs) as u64,
                    )
                    &&& final(self).bump_next == start + n * bs
                    &&& final(self).bump_end == old(self).bump_end
                    &&& final(self).fallback == old(self).fallback
                })
                &&& (n == 0 && find_first_fit(
                    old(self).fallback.free_list@,
                    BATCH_PAGE,
                    BATCH_PAGE,
                ) is None ==> r is Err)
                &&& (n == 0 && find_first_fit(
                    old(self).fallback.free_list@,
                    BATCH_PAGE,
                    BATCH_PAGE,
                ) is Some ==> {
                    let i = find_first_fit(old(self).fallback.free_list@, BATCH_PAGE, BATCH_PAGE)->0;
                    let p = spec_align_up(old(self).fallback.free_list@[i].addr, BATCH_PAGE);
                    let k = if (BATCH_PAGE as int) / (bs as int) > BLOCKS_PER_BATCH {
                        BLOCKS_PER_BATCH as int
                    } else {
                        (BATCH_PAGE as int) / (bs as int)
                    };
                    &&& r == Ok::<u64, MemoryError>((p + (k - 1) * bs) as u64)
                    &&& final(self).list_heads@[c as int]@ == Seq::new(
                        (k - 1) as nat,
                        |j: int| (p + j * bs) as u64,
                    )
                    &&& final(self).bump_next == p + k * bs
                    &&& final(self).bump_end == p + BATCH_PAGE
                    &&& final(self).fallback.free_list@ == regions_after_alloc(
                        old(self).fallback.free_list@,
                        i,
                        BATCH_PAGE,
                        BATCH_PAGE,
                    )
                })
                &&& (forall|k2: int|
                    0 <= k2 < BLOCK_SIZES_COUNT && k2 != c && r is Ok ==> final(self).list_heads@[k2] == old(self).list_heads@[k2])
            }),
    {
        let bs = block_size(c);
        proof {
            lemma_block_size_facts(c as int);
            lemma_pow2_divides(align, bs);
            lemma_class_covers(size, align);
            lemma_class_bytes_nonneg(self.list_heads@, BLOCK_SIZES_COUNT as int);
            super::linked_list::lemma_region_sum_nonneg(self.fallback.free_list@);
        }
        let carve_start = align_up(self.bump_next, bs);
        proof {
            super::linked_list::lemma_spec_align_up(self.bump_next, bs);
            super::linked_list::lemma_align_up_unique(
                self.bump_next,
                bs,
                carve_start as int,
                spec_align_up(self.bump_next, bs),
            );
        }
        if carve_start <= self.bump_end && bs <= self.bump_end - carve_start {
            let avail = (self.bump_end - carve_start) / bs;
            let count = if avail > BLOCKS_PER_BATCH {
                BLOCKS_PER_BATCH
            } else {
                avail
            };
            proof {
                assert(count == old(self).bump_carve_count(bs));
                assert(count >= 1);
                assert(count * bs <= avail * bs && avail * bs <= self.bump_end - carve_start)
                    by (nonlinear_arith)
                    requires
                        1 <= count <= avail,
                        bs >= 1,
                        avail == ((self.bump_end - carve_start) as u64) / bs,
                        carve_start <= self.bump_end,
                ;
                lemma_divides_transitive((carve_start + (count - 1) * bs) as u64, bs, align);
                assert(old(self).bump_next <= carve_start);
                assert(old(self).bump_end - old(self).bump_next >= bs);
                assert(size <= bs);
                assert(size <= old(self).free_bytes_spec());
            }
            let b = self.carve_blocks(c, bs, carve_start, count);
            self.bump_next = carve_start + count * bs;
            proof {
                lemma_divides_transitive(b, bs, align);
            }
            Ok(b)
        } else {
            proof {
                assert(old(self).bump_carve_count(bs) == 0);
            }
            match self.fallback.allocate(BATCH_PAGE, BATCH_PAGE) {
                Err(e) => {
                    proof {
                        assert(*self == *old(self));
                    }
                    Err(MemoryError::AllocationFailed)
                },
                Ok(p) => {
                    proof {
                        super::linked_list::lemma_region_sum_nonneg(self.fallback.free_list@);
                        lemma_pow2_divides(bs, BATCH_PAGE);
                        lemma_divides_transitive(p, BATCH_PAGE, bs);
                        assert(old(self).fallback.free_bytes_spec() >= BATCH_PAGE);
                        assert(size <= old(self).free_bytes_spec());
                    }
                    let ghost lists_mid = self.list_heads@;
                    self.bump_next = p;
                    self.bump_end = p + BATCH_PAGE;
                    let count = {
                        let fit = BATCH_PAGE / bs;
                        if fit > BLOCKS_PER_BATCH {
                            BLOCKS_PER_BATCH
                        } else {
                            fit
                        }
                    };
                    proof {
                        assert(count >= 2);
                        assert(count * bs <= BATCH_PAGE) by (nonlinear_arith)
                            requires
                                bs >= 1,
                                1 <= count <= BATCH_PAGE / bs,
                        ;
                    }
                    let b = self.carve_blocks(c, bs, p, count);
                    self.bump_next = p + count * bs;
                    proof {
                        lemma_divides_transitive(b, bs, align);
                    }
                    Ok(b)
                },
            }
        }
    }
}

impl FixedSizeBlockAllocator {
    /// Return a block.  A size-classed block goes back onto its class free
    /// list in constant time and is never returned to the bump cursor or
    /// the fallback pool; any other block is reinserted into the
    /// address-ordered fallback list.  The `(size, align)` pair must
    /// exactly match the corresponding `allocate` call and the block must
    /// be one this allocator handed out — blocks carry no size header, so
    /// a mismatched free corrupts the lists.  That contract is stated here
    /// as the precondition, exactly as the design documents it.
    #[verifier::rlimit(100)]
    pub fn deallocate(&mut self, addr: u64, size: u64, align: u64)
        requires
            old(self).wf(),
            1 <= size,
            is_power_of_two(align),
            ({
                let cls = class_of(size, align);
                &&& (cls is Some ==> {
                    let bs = block_size_spec(cls->0);
                    &&& addr % bs == 0
                    &&& old(self).heap_start() <= addr
                    &&& addr + bs <= old(self).heap_end()
                })
                &&& (cls is None ==> {
                    &&& old(self).heap_start() <= addr
                    &&& addr + size <= old(self).heap_end()
                    &&& forall|j: int|
                        0 <= j < old(self).fallback.free_list@.len() ==> (addr + size <= (
                        #[trigger] old(self).fallback.free_list@[j]).addr || old(
                            self,
                        ).fallback.free_list@[j].addr + old(self).fallback.free_list@[j].size
                            <= addr)
                })
            }),
        ensures
            final(self).wf(),
            final(self).heap_start() == old(self).heap_start(),
            final(self).heap_end() == old(self).heap_end(),
            final(self).bump_next == old(self).bump_next,
            final(self).bump_end == old(self).bump_end,
            ({
                let cls = class_of(size, align);
                cls is Some ==> {
                    &&& final(self).list_heads@[cls->0]@ == old(self).list_heads@[cls->0]@.push(
                        addr,
                    )
                    &&& (forall|k: int|
                        0 <= k < BLOCK_SIZES_COUNT && k != cls->0 ==> final(self).list_heads@[k]
                            == old(self).list_heads@[k])
                    &&& final(self).fallback == old(self).fallback
                    &&& final(self).free_bytes_spec() == old(self).free_bytes_spec()
                        + block_size_spec(cls->0)
                }
            }),
            class_of(size, align) is None ==> final(self).fallback.free_list@ == regions_after_free(
                old(self).fallback.free_list@,
                addr,
                size,
            ) && final(self).list_heads@ == old(self).list_heads@ && final(self).free_bytes_spec()
                == old(self).free_bytes_spec() + size,
    {
        let ghost lists0 = self.list_heads@;
        match list_index(size, align) {
            Some(c) => {
                let bs = block_size(c);
                self.list_heads[c].push(addr);
                proof {
                    lemma_class_bytes_update(
                        lists0,
                        self.list_heads@,
                        c as int,
                        BLOCK_SIZES_COUNT as int,
                    );
                    let l0 = lists0[c as int]@.len() as int;
                    let l1 = self.list_heads@[c as int]@.len() as int;
                    assert((l1 - l0) * (block_size_spec(c as int) as int) == bs)
                        by (nonlinear_arith)
                        requires
                            l1 == l0 + 1,
                            bs == block_size_spec(c as int),
                    ;
                    assert forall|c2: int, k: int|
                        0 <= c2 < BLOCK_SIZES_COUNT && 0 <= k
                            < self.list_heads@[c2]@.len() implies {
                        let bb = #[trigger] self.list_heads@[c2]@[k];
                        &&& bb % block_size_spec(c2) == 0
                        &&& self.heap_start() <= bb
                        &&& bb + block_size_spec(c2) <= self.heap_end()
                    } by {
                        if c2 == c && k == self.list_heads@[c2]@.len() - 1 {
                            assert(self.list_heads@[c2]@[k] == addr);
                        } else {
                            assert(self.list_heads@[c2]@[k] == lists0[c2]@[k]);
                        }
                    }
                }
            },
            None => {
                self.fallback.deallocate(addr, size);
                proof {
                    lemma_class_bytes_same(lists0, self.list_heads@, BLOCK_SIZES_COUNT as int);
                }
            },
        }
    }
}

impl FixedSizeBlockAllocator {
    /// Report the free bytes over every component, the way the boot
    /// sequence checks the window arrived whole.  An impossibly large
    /// total saturates.
    pub fn free_bytes(&self) -> (r: u64)
        requires
            self.wf(),
        ensures
            self.free_bytes_spec() <= u64::MAX ==> r == self.free_bytes_spec(),
            self.free_bytes_spec() > u64::MAX ==> r == u64::MAX,
    {
        proof {
            super::linked_list::lemma_region_sum_nonneg(self.fallback.free_list@);
            super::linked_list::lemma_region_sum_bounded(
                self.fallback.free_list@,
                self.fallback.heap_start,
                self.fallback.heap_end,
            );
        }
        let fb = self.fallback.free_bytes();
        let base = (self.bump_end - self.bump_next) + fb;
        let ghost lists = self.list_heads@;
        let mut total: u64 = base;
        let mut c: usize = 0;
        while c < BLOCK_SIZES_COUNT
            invariant
                self.wf(),
                lists == self.list_heads@,
                c <= BLOCK_SIZES_COUNT,
                base == (self.bump_end - self.bump_next) + self.fallback.free_bytes_spec(),
                ({
                    let partial = class_bytes(lists, c as int) + base;
                    &&& (partial <= u64::MAX ==> total == partial)
                    &&& (partial > u64::MAX ==> total == u64::MAX)
                }),
            decreases BLOCK_SIZES_COUNT - c,
        {
            proof {
                lemma_class_bytes_nonneg(lists, c as int);
                assert(lists[c as int]@.len() * block_size_spec(c as int) >= 0)
                    by (nonlinear_arith);
            }
            let bs = block_size(c);
            let len64 = self.list_heads[c].len() as u64;
            proof {
                assert(len64 * bs == lists[c as int]@.len() * block_size_spec(c as int));
            }
            let contribution = match len64.checked_mul(bs) {
                Some(m) => m,
                None => {
                    proof {
                        lemma_class_bytes_nonneg(lists, BLOCK_SIZES_COUNT as int);
                        lemma_class_bytes_step_up(lists, c as int, BLOCK_SIZES_COUNT as int);
                    }
                    return u64::MAX;
                },
            };
            total = match total.checked_add(contribution) {
                Some(t) => t,
                None => {
                    proof {
                        lemma_class_bytes_step_up(lists, c as int, BLOCK_SIZES_COUNT as int);
                    }
                    return u64::MAX;
                },
            };
            c = c + 1;
        }
        total
    }
}

/// The class sums only grow with more classes, by each class's own bytes.
proof fn lemma_class_bytes_step_up(lists: Seq<Vec<u64>>, c: int, upto: int)
    requires
        0 <= c < upto,
        upto <= lists.len(),
    ensures
        class_bytes(lists, upto) >= class_bytes(lists, c) + lists[c]@.len() * block_size_spec(c),
    decreases upto,
{
    lemma_class_bytes_nonneg(lists, upto - 1);
    assert(lists[upto - 1]@.len() * block_size_spec(upto - 1) >= 0) by (nonlinear_arith);
    if c < upto - 1 {
        lemma_class_bytes_step_up(lists, c, upto - 1);
    }
}

/// Lists with equal views hold equal bytes.
proof fn lemma_class_bytes_congruent(l1: Seq<Vec<u64>>, l2: Seq<Vec<u64>>, upto: int)
    requires
        l1.len() == l2.len(),
        forall|k: int| 0 <= k < l1.len() ==> (#[trigger] l1[k])@ == l2[k]@,
        upto <= l1.len(),
    ensures
        class_bytes(l1, upto) == class_bytes(l2, upto),
    decreases upto,
{
    if upto > 0 {
        lemma_class_bytes_congruent(l1, l2, upto - 1);
    }
}

/// Size-class round trip: an allocation served from a non-empty class
/// list, immediately freed with the same size and alignment, restores the
/// allocator's observable state exactly — in particular the class
/// free-list length, so any number of such cycles leaves it at its
/// baseline.  `a1` is the state `allocate` leaves and `addr` its result;
/// `a2` is the state `deallocate` then leaves, both as those functions
/// ensure them.  (From an empty baseline list the first cycle first
/// carves a batch, which grows the list once; the law therefore speaks of
/// a non-empty list.)
pub proof fn lemma_size_class_round_trip(
    a0: FixedSizeBlockAllocator,
    a1: FixedSizeBlockAllocator,
    a2: FixedSizeBlockAllocator,
    size: u64,
    align: u64,
    addr: u64,
)
    requires
        a0.wf(),
        class_of(size, align) is Some,
        a0.list_heads@.len() == BLOCK_SIZES_COUNT,
        a1.list_heads@.len() == BLOCK_SIZES_COUNT,
        a2.list_heads@.len() == BLOCK_SIZES_COUNT,
        a0.list_heads@[class_of(size, align)->0]@.len() > 0,
        addr == a0.list_heads@[class_of(size, align)->0]@.last(),
        a1.list_heads@[class_of(size, align)->0]@ == a0.list_heads@[class_of(
            size,
            align,
        )->0]@.drop_last(),
        forall|k: int|
            0 <= k < BLOCK_SIZES_COUNT && k != class_of(size, align)->0 ==> a1.list_heads@[k]
                == a0.list_heads@[k],
        a1.bump_next == a0.bump_next && a1.bump_end == a0.bump_end && a1.fallback == a0.fallback,
        a2.list_heads@[class_of(size, align)->0]@ == a1.list_heads@[class_of(
            size,
            align,
        )->0]@.push(addr),
        forall|k: int|
            0 <= k < BLOCK_SIZES_COUNT && k != class_of(size, align)->0 ==> a2.list_heads@[k]
                == a1.list_heads@[k],
        a2.bump_next == a1.bump_next && a2.bump_end == a1.bump_end && a2.fallback == a1.fallback,
    ensures
        forall|k: int|
            0 <= k < BLOCK_SIZES_COUNT ==> (#[trigger] a2.list_heads@[k])@ == a0.list_heads@[k]@,
        a2.list_heads@[class_of(size, align)->0]@.len() == a0.list_heads@[class_of(
            size,
            align,
        )->0]@.len(),
        a2.bump_next == a0.bump_next && a2.bump_end == a0.bump_end && a2.fallback == a0.fallback,
        a2.free_bytes_spec() == a0.free_bytes_spec(),
{
    let c = class_of(size, align)->0;
    assert(a2.list_heads@[c]@ =~= a0.list_heads@[c]@);
    assert forall|k: int| 0 <= k < BLOCK_SIZES_COUNT implies (#[trigger] a2.list_heads@[k])@
        == a0.list_heads@[k]@ by {
        if k != c {
            assert(a2.list_heads@[k] == a0.list_heads@[k]);
        }
    }
    lemma_class_bytes_congruent(a2.list_heads@, a0.list_heads@, BLOCK_SIZES_COUNT as int);
}

/// The class lists hold at least class `c`'s bytes.
proof fn lemma_class_bytes_lower(lists: Seq<Vec<u64>>, c: int, upto: int)
    requires
        0 <= c < upto,
        upto <= lists.len(),
    ensures
        class_bytes(lists, upto) >= lists[c]@.len() * block_size_spec(c),
    decreases upto,
{
    lemma_class_bytes_nonneg(lists, upto - 1);
    assert(lists[upto - 1]@.len() * block_size_spec(upto - 1) >= 0) by (nonlinear_arith);
    if c < upto - 1 {
        lemma_class_bytes_lower(lists, c, upto - 1);
    }
}

/// The class lists hold a non-negative number of bytes.
proof fn lemma_class_bytes_nonneg(lists: Seq<Vec<u64>>, upto: int)
    ensures
        class_bytes(lists, upto) >= 0,
    decreases upto,
{
    if upto > 0 {
        lemma_class_bytes_nonneg(lists, upto - 1);
        assert(lists[upto - 1]@.len() * block_size_spec(upto - 1) >= 0) by (nonlinear_arith);
    }
}

/// A classed request fits in its class's block, and so does its alignment.
proof fn lemma_class_covers(size: u64, align: u64)
    requires
        class_of(size, align) is Some,
    ensures
        size <= block_size_spec(class_of(size, align)->0),
        align <= block_size_spec(class_of(size, align)->0),
{
}

/// Unchanged class lists contribute unchanged bytes.
proof fn lemma_class_bytes_same(lists: Seq<Vec<u64>>, lists2: Seq<Vec<u64>>, upto: int)
    requires
        lists2 == lists,
    ensures
        class_bytes(lists2, upto) == class_bytes(lists, upto),
{
}

/// The declared block sizes are powers of two between 8 and 2048 that
/// divide a page, which is itself a power of two.
proof fn lemma_block_size_facts(c: int)
    ensures
        8 <= block_size_spec(c) <= 2048,
        is_power_of_two(block_size_spec(c)),
        is_power_of_two(BATCH_PAGE),
        (BATCH_PAGE as int) % (block_size_spec(c) as int) == 0,
        2 <= (BATCH_PAGE as int) / (block_size_spec(c) as int),
{
    assert(8u64 & 7 == 0 && 16u64 & 15 == 0 && 32u64 & 31 == 0 && 64u64 & 63 == 0 && 128u64 & 127
        == 0 && 256u64 & 255 == 0 && 512u64 & 511 == 0 && 1024u64 & 1023 == 0 && 2048u64 & 2047
        == 0 && 4096u64 & 4095 == 0) by (bit_vector);
    assert(4096int % 8 == 0 && 4096int % 16 == 0 && 4096int % 32 == 0 && 4096int % 64 == 0
        && 4096int % 128 == 0 && 4096int % 256 == 0 && 4096int % 512 == 0 && 4096int % 1024 == 0
        && 4096int % 2048 == 0);
    assert(4096int / 2048 == 2 && 4096int / 1024 == 4 && 4096int / 512 == 8);
}

/// A power of two divides every larger power of two, up to a page.
proof fn lemma_pow2_divides(a: u64, b: u64)
    requires
        is_power_of_two(a),
        is_power_of_two(b),
        a <= b,
        b <= 4096,
    ensures
        b % a == 0,
{
    assert(a > 0 && (a & ((a - 1) as u64)) == 0 && a <= 4096 ==> (a == 1 || a == 2 || a == 4 || a
        == 8 || a == 16 || a == 32 || a == 64 || a == 128 || a == 256 || a == 512 || a == 1024 || a
        == 2048 || a == 4096)) by (bit_vector);
    assert(b > 0 && (b & ((b - 1) as u64)) == 0 && b <= 4096 ==> (b == 1 || b == 2 || b == 4 || b
        == 8 || b == 16 || b == 32 || b == 64 || b == 128 || b == 256 || b == 512 || b == 1024 || b
        == 2048 || b == 4096)) by (bit_vector);
}

/// Divisibility is transitive.
proof fn lemma_divides_transitive(a: u64, b: u64, m: u64)
    requires
        b >= 1,
        m >= 1,
        a % b == 0,
        b % m == 0,
    ensures
        a % m == 0,
{
    lemma_fundamental_div_mod(a as int, b as int);
    lemma_fundamental_div_mod(b as int, m as int);
    let qa = (a as int) / (b as int);
    let qb = (b as int) / (m as int);
    assert(a as int == (qb * qa) * (m as int)) by (nonlinear_arith)
        requires
            a as int == (b as int) * qa,
            b as int == (m as int) * qb,
    ;
    lemma_mod_multiples_basic(qb * qa, m as int);
}

/// Empty class lists hold no bytes.
proof fn lemma_class_bytes_empty(lists: Seq<Vec<u64>>, c: int)
    requires
        forall|k: int| 0 <= k < c ==> (#[trigger] lists[k]@).len() == 0,
    ensures
        class_bytes(lists, c) == 0,
    decreases c,
{
    if c > 0 {
        lemma_class_bytes_empty(lists, c - 1);
    }
}

/// Class lists other than `c` contribute the same bytes after list `c` is
/// replaced; the difference is exactly the length change of list `c`.
proof fn lemma_class_bytes_update(lists: Seq<Vec<u64>>, lists2: Seq<Vec<u64>>, c: int, upto: int)
    requires
        0 <= c,
        upto <= lists.len(),
        lists2.len() == lists.len(),
        forall|k: int| 0 <= k < lists.len() && k != c ==> lists2[k] == lists[k],
    ensures
        upto <= c ==> class_bytes(lists2, upto) == class_bytes(lists, upto),
        c < upto <= lists.len() ==> class_bytes(lists2, upto) == class_bytes(lists, upto) + (
        lists2[c]@.len() - lists[c]@.len()) * block_size_spec(c),
    decreases upto,
{
    if upto > 0 {
        lemma_class_bytes_update(lists, lists2, c, upto - 1);
        if upto - 1 != c {
            assert(lists2[upto - 1] == lists[upto - 1]);
        } else {
            assert((lists2[c]@.len() * block_size_spec(c)) - (lists[c]@.len() * block_size_spec(c))
                == (lists2[c]@.len() - lists[c]@.len()) * block_size_spec(c)) by (nonlinear_arith);
        }
    }
}

} // verus!
