//! Free-list heap allocator over a fixed virtual address range.
//!
//! The heap is one pre-declared range; once mapped, the whole range is a
//! single free block. `allocate` scans the free blocks in address order
//! and carves the first one that can satisfy the rounded-up request
//! (first-fit), leaving any excess before and after the carved region
//! free. `deallocate` returns a region and merges it with the
//! address-contiguous free neighbours, so the free list is always
//! maximally coalesced. Every byte of the range is at all times either in
//! exactly one free block or in exactly one allocated region:
//! `sum(free sizes) + sum(allocated sizes) == total heap size` after
//! every operation.
use vstd::prelude::*;

use crate::memory::BootInfoFrameAllocator;
use crate::paging::{lemma_page_base_range, MapError, Mapper, PageFlags};

verus! {

/// Heap setup is all-or-nothing: any failure while mapping the range is
/// fatal and the partially mapped heap is never used.
#[derive(Debug, Clone, Copy, PartialEq, Eq, Structural)]
pub enum HeapInitError {
    /// The frame allocator ran out while backing the heap range.
    OutOfFrames,
    /// A page of the heap range was already mapped.
    AlreadyMapped,
}

/// Start of the heap's fixed virtual address range.
pub const HEAP_START: u64 = 0x4444_4444_0000;

/// Byte size of the heap's fixed virtual address range.
pub const HEAP_SIZE: u64 = 102400;

/// A contiguous byte range within the heap.
#[derive(Debug, Clone, Copy, PartialEq, Eq, Structural)]
pub struct HeapBlock {
    pub start: u64,
    pub size: u64,
}

/// Steady-state allocation failure: no free block is large enough. The
/// caller decides whether it is fatal.
#[derive(Debug, Clone, Copy, PartialEq, Eq, Structural)]
pub enum AllocError {
    Exhausted,
}

pub open spec fn sum_sizes(s: Seq<HeapBlock>) -> int
    decreases s.len(),
{
    if s.len() == 0 {
        0
    } else {
        s[0].size + sum_sizes(s.skip(1))
    }
}

proof fn lemma_sum_append(s1: Seq<HeapBlock>, s2: Seq<HeapBlock>)
    ensures
        sum_sizes(s1 + s2) == sum_sizes(s1) + sum_sizes(s2),
    decreases s1.len(),
{
    if s1.len() == 0 {
        assert(s1 + s2 =~= s2);
    } else {
        assert((s1 + s2).skip(1) =~= s1.skip(1) + s2);
        lemma_sum_append(s1.skip(1), s2);
    }
}

proof fn lemma_sum_singleton(b: HeapBlock)
    ensures
        sum_sizes(seq![b]) == b.size,
{
    let s = seq![b];
    assert(s.len() == 1);
    assert(s[0] == b);
    assert(s.skip(1) =~= Seq::<HeapBlock>::empty());
    assert(sum_sizes(s.skip(1)) == 0);
}

/// Splitting a sequence at one element splits its size sum.
proof fn lemma_sum_decompose(s: Seq<HeapBlock>, i: int)
    requires
        0 <= i < s.len(),
    ensures
        sum_sizes(s) == sum_sizes(s.subrange(0, i)) + s[i].size + sum_sizes(s.skip(i + 1)),
{
    assert(s =~= s.subrange(0, i) + seq![s[i]] + s.skip(i + 1));
    lemma_sum_append(s.subrange(0, i) + seq![s[i]], s.skip(i + 1));
    lemma_sum_append(s.subrange(0, i), seq![s[i]]);
    lemma_sum_singleton(s[i]);
}

/// Two byte ranges do not overlap.
pub open spec fn blocks_disjoint(a: HeapBlock, b: HeapBlock) -> bool {
    a.start + a.size <= b.start || b.start + b.size <= a.start
}

/// `size` rounded up so a region starting there satisfies `align`.
pub open spec fn align_up_spec(a: u64, align: u64) -> int {
    if a % align == 0 {
        a as int
    } else {
        a + (align - a % align)
    }
}

/// The free block `b` can hold `size` bytes at alignment `align`.
pub open spec fn block_fits(b: HeapBlock, size: u64, align: u64) -> bool {
    align_up_spec(b.start, align) + size <= b.start + b.size
}

/// `i` is the first free block that can satisfy the request.
pub open spec fn fits_at(free: Seq<HeapBlock>, size: u64, align: u64, i: int) -> bool {
    &&& 0 <= i < free.len()
    &&& block_fits(free[i], size, align)
    &&& forall|k: int| 0 <= k < i ==> !block_fits(#[trigger] free[k], size, align)
}

/// The free remnants of block `b` after carving the aligned region out.
pub open spec fn split_block(b: HeapBlock, size: u64, align: u64) -> Seq<HeapBlock> {
    let a = align_up_spec(b.start, align);
    let front = HeapBlock { start: b.start, size: (a - b.start) as u64 };
    let back = HeapBlock { start: (a + size) as u64, size: (b.start + b.size - (a + size)) as u64 };
    if front.size > 0 && back.size > 0 {
        seq![front, back]
    } else if front.size > 0 {
        seq![front]
    } else if back.size > 0 {
        seq![back]
    } else {
        Seq::<HeapBlock>::empty()
    }
}

/// `k` is the rank of region `b` within the address-ordered free list.
pub open spec fn insert_at(free: Seq<HeapBlock>, b: HeapBlock, k: int) -> bool {
    &&& 0 <= k <= free.len()
    &&& forall|j: int| 0 <= j < k ==> (#[trigger] free[j]).start + free[j].size <= b.start
    &&& k < free.len() ==> b.start + b.size <= free[k].start
}

/// The free list after returning `b` at rank `k`, coalescing with the
/// address-contiguous neighbours.
pub open spec fn dealloc_result(free: Seq<HeapBlock>, b: HeapBlock, k: int) -> Seq<HeapBlock> {
    let left = k > 0 && free[k - 1].start + free[k - 1].size == b.start;
    let right = k < free.len() && b.start + b.size == free[k].start;
    if left && right {
        free.subrange(0, k - 1)
            + seq![HeapBlock { start: free[k - 1].start, size: (free[k - 1].size + b.size + free[k].size) as u64 }]
            + free.skip(k + 1)
    } else if left {
        free.subrange(0, k - 1)
            + seq![HeapBlock { start: free[k - 1].start, size: (free[k - 1].size + b.size) as u64 }]
            + free.skip(k)
    } else if right {
        free.subrange(0, k)
            + seq![HeapBlock { start: b.start, size: (b.size + free[k].size) as u64 }]
            + free.skip(k + 1)
    } else {
        free.subrange(0, k) + seq![b] + free.skip(k)
    }
}

/// The free blocks are nonempty, lie inside the heap range, ascend in
/// address order, and no two touch: the list is maximally coalesced.
pub open spec fn free_list_wf(free: Seq<HeapBlock>, start: u64, size: u64) -> bool {
    &&& forall|i: int| 0 <= i < free.len() ==> (#[trigger] free[i]).size > 0
    &&& forall|i: int| 0 <= i < free.len() ==> start <= (#[trigger] free[i]).start
            && free[i].start + free[i].size <= start + size
    &&& forall|i: int| 0 <= i < free.len() - 1 ==>
            (#[trigger] free[i]).start + free[i].size < free[i + 1].start
}

/// Manages the mapped heap range as dynamic memory: a free list plus the
/// live allocated regions.
pub struct HeapAllocator {
    start: u64,
    size: u64,
    free: Vec<HeapBlock>,
    allocated: Vec<HeapBlock>,
}

impl HeapAllocator {
    pub closed spec fn heap_start(self) -> u64 {
        self.start
    }

    pub closed spec fn heap_size(self) -> u64 {
        self.size
    }

    pub closed spec fn free_blocks(self) -> Seq<HeapBlock> {
        self.free@
    }

    pub closed spec fn allocated_blocks(self) -> Seq<HeapBlock> {
        self.allocated@
    }

    pub open spec fn wf(self) -> bool {
        &&& self.heap_start() + self.heap_size() <= u64::MAX
        &&& free_list_wf(self.free_blocks(), self.heap_start(), self.heap_size())
        &&& forall|i: int| 0 <= i < self.allocated_blocks().len() ==>
                (#[trigger] self.allocated_blocks()[i]).size > 0
        &&& forall|i: int| 0 <= i < self.allocated_blocks().len() ==>
                self.heap_start() <= (#[trigger] self.allocated_blocks()[i]).start
                    && self.allocated_blocks()[i].start + self.allocated_blocks()[i].size
                        <= self.heap_start() + self.heap_size()
        &&& forall|i: int, j: int| 0 <= i < j < self.allocated_blocks().len() ==>
                blocks_disjoint(#[trigger] self.allocated_blocks()[i], #[trigger] self.allocated_blocks()[j])
        &&& forall|i: int, j: int| 0 <= i < self.free_blocks().len()
                && 0 <= j < self.allocated_blocks().len() ==>
                blocks_disjoint(#[trigger] self.free_blocks()[i], #[trigger] self.allocated_blocks()[j])
        &&& sum_sizes(self.free_blocks()) + sum_sizes(self.allocated_blocks()) == self.heap_size()
    }

    /// A fresh allocator over one range handed over as a single free block.
    pub fn new(start: u64, size: u64) -> (h: Self)
        requires
            start + size <= u64::MAX,
        ensures
            h.wf(),
            h.heap_start() == start,
            h.heap_size() == size,
            h.allocated_blocks().len() == 0,
            size > 0 ==> h.free_blocks() == seq![HeapBlock { start, size }],
            size == 0 ==> h.free_blocks().len() == 0,
    {
        let mut free: Vec<HeapBlock> = Vec::new();
        if size > 0 {
            free.push(HeapBlock { start, size });
            proof {
                lemma_sum_singleton(HeapBlock { start, size });
                assert(free@ =~= seq![HeapBlock { start, size }]);
            }
        }
        let h = HeapAllocator { start, size, free, allocated: Vec::new() };
        h
    }

    /// The current free blocks, in address order.
    pub fn free_list(&self) -> (v: Vec<HeapBlock>)
        ensures
            v@ == self.free_blocks(),
    {
        let mut v: Vec<HeapBlock> = Vec::new();
        let mut i: usize = 0;
        while i < self.free.len()
            invariant
                i <= self.free@.len(),
                v@ == self.free@.subrange(0, i as int),
            decreases self.free@.len() - i,
        {
            v.push(self.free[i]);
            proof {
                assert(v@ =~= self.free@.subrange(0, i + 1));
            }
            i = i + 1;
        }
        proof {
            assert(v@ =~= self.free@);
        }
        v
    }

    /// The currently live allocated regions, oldest first.
    pub fn allocated_list(&self) -> (v: Vec<HeapBlock>)
        ensures
            v@ == self.allocated_blocks(),
    {
        let mut v: Vec<HeapBlock> = Vec::new();
        let mut i: usize = 0;
        while i < self.allocated.len()
            invariant
                i <= self.allocated@.len(),
                v@ == self.allocated@.subrange(0, i as int),
            decreases self.allocated@.len() - i,
        {
            v.push(self.allocated[i]);
            proof {
                assert(v@ =~= self.allocated@.subrange(0, i + 1));
            }
            i = i + 1;
        }
        proof {
            assert(v@ =~= self.allocated@);
        }
        v
    }

    /// Scans the free blocks in address order for the first able to hold
    /// `size` bytes at alignment `align`, carves the region out, keeps
    /// any excess before and after it free, and records the region
    /// allocated. Fails with `Exhausted` exactly when no free block fits.
    #[verifier::rlimit(100)]
    pub fn allocate(&mut self, size: u64, align: u64) -> (r: Result<u64, AllocError>)
        requires
            old(self).wf(),
            size > 0,
            align > 0,
        ensures
            final(self).wf(),
            final(self).heap_start() == old(self).heap_start(),
            final(self).heap_size() == old(self).heap_size(),
            match r {
                Ok(p) => {
                    &&& p % align == 0
                    &&& old(self).heap_start() <= p
                    &&& p + size <= old(self).heap_start() + old(self).heap_size()
                    &&& exists|i: int| fits_at(old(self).free_blocks(), size, align, i)
                    &&& forall|i: int| fits_at(old(self).free_blocks(), size, align, i) ==> {
                            &&& p == align_up_spec(old(self).free_blocks()[i].start, align)
                            &&& final(self).free_blocks() ==
                                old(self).free_blocks().subrange(0, i)
                                    + split_block(old(self).free_blocks()[i], size, align)
                                    + old(self).free_blocks().skip(i + 1)
                        }
                    &&& final(self).allocated_blocks() ==
                            old(self).allocated_blocks().push(HeapBlock { start: p, size })
                },
                Err(AllocError::Exhausted) => {
                    &&& *final(self) == *old(self)
                    &&& forall|i: int| 0 <= i < old(self).free_blocks().len() ==>
                            !block_fits(#[trigger] old(self).free_blocks()[i], size, align)
                },
            },
    {
        let n = self.free.len();
        let mut i: usize = 0;
        while i < n
            invariant
                self == old(self),
                self.wf(),
                size > 0,
                align > 0,
                n == self.free@.len(),
                i <= n,
                forall|k: int| 0 <= k < i ==>
                    !block_fits(#[trigger] self.free_blocks()[k], size, align),
            decreases n - i,
        {
            let b = self.free[i];
            let end = b.start + b.size;
            let rem = b.start % align;
            let pad: u64 = if rem == 0 { 0 } else { align - rem };
            match b.start.checked_add(pad) {
                None => {
                    proof {
                        assert(!block_fits(b, size, align));
                    }
                },
                Some(aligned) => {
                    if size <= end && aligned <= end - size {
                        // first fit found: carve [aligned, aligned + size)
                        proof {
                            assert(block_fits(b, size, align));
                            assert(fits_at(self.free_blocks(), size, align, i as int));
                        }
                        let ghost f0 = self.free@;
                        let ghost a0 = self.allocated@;
                        let front_size = aligned - b.start;
                        let back_size = end - (aligned + size);
                        if front_size > 0 && back_size > 0 {
                            self.free[i] = HeapBlock { start: b.start, size: front_size };
                            self.free.insert(i + 1, HeapBlock { start: aligned + size, size: back_size });
                        } else if front_size > 0 {
                            self.free[i] = HeapBlock { start: b.start, size: front_size };
                        } else if back_size > 0 {
                            self.free[i] = HeapBlock { start: aligned + size, size: back_size };
                        } else {
                            self.free.remove(i);
                        }
                        self.allocated.push(HeapBlock { start: aligned, size });
                        proof {
                            let ii = i as int;
                            assert(self.free@ =~= f0.subrange(0, ii)
                                + split_block(f0[ii], size, align) + f0.skip(ii + 1));
                            lemma_alloc_preserves_wf(*old(self), *self, size, align, ii, aligned);
                            assert(aligned % align == 0) by {
                                lemma_align_up_mod(b.start, align);
                            }
                        }
                        return Ok(aligned);
                    } else {
                        proof {
                            assert(!block_fits(b, size, align));
                        }
                    }
                },
            }
            i = i + 1;
        }
        Err(AllocError::Exhausted)
    }

    /// Marks a live region free again and merges it with the
    /// address-contiguous free neighbours, bounding long-run
    /// fragmentation.
    #[verifier::rlimit(100)]
    pub fn deallocate(&mut self, block: HeapBlock)
        requires
            old(self).wf(),
            old(self).allocated_blocks().contains(block),
        ensures
            final(self).wf(),
            final(self).heap_start() == old(self).heap_start(),
            final(self).heap_size() == old(self).heap_size(),
            exists|k: int| insert_at(old(self).free_blocks(), block, k),
            forall|k: int| insert_at(old(self).free_blocks(), block, k) ==>
                final(self).free_blocks() == dealloc_result(old(self).free_blocks(), block, k),
            forall|j: int| 0 <= j < old(self).allocated_blocks().len()
                && old(self).allocated_blocks()[j] == block ==>
                final(self).allocated_blocks() == old(self).allocated_blocks().remove(j),
    {
        let ghost f0 = self.free@;
        let ghost a0 = self.allocated@;
        // locate the live record of the region
        let mut j: usize = 0;
        while j < self.allocated.len() && !(self.allocated[j] == block)
            invariant
                *self == *old(self),
                j <= self.allocated@.len(),
                forall|l: int| 0 <= l < j ==> #[trigger] self.allocated@[l] != block,
            decreases self.allocated@.len() - j,
        {
            j = j + 1;
        }
        proof {
            let w = choose|l: int| 0 <= l < a0.len() && a0[l] == block;
            assert(j < a0.len());
            assert(a0[j as int] == block);
            // the record is unique: live regions are pairwise disjoint
            assert forall|l: int| 0 <= l < a0.len() && #[trigger] a0[l] == block
                implies l == j by {
                if l < j {
                    assert(blocks_disjoint(a0[l], a0[j as int]));
                } else if l > j {
                    assert(blocks_disjoint(a0[j as int], a0[l]));
                }
            }
        }
        self.allocated.remove(j);
        // the region's rank in the address-ordered free list
        let mut k: usize = 0;
        while k < self.free.len() && self.free[k].start < block.start
            invariant
                self.free@ == f0,
                k <= f0.len(),
                forall|l: int| 0 <= l < k ==> (#[trigger] f0[l]).start < block.start,
            decreases f0.len() - k,
        {
            k = k + 1;
        }
        proof {
            assert(insert_at(f0, block, k as int)) by {
                assert forall|l: int| 0 <= l < k
                    implies (#[trigger] f0[l]).start + f0[l].size <= block.start by {
                    assert(blocks_disjoint(f0[l], a0[j as int]));
                }
                if (k as int) < f0.len() {
                    assert(blocks_disjoint(f0[k as int], a0[j as int]));
                }
            }
        }
        self.insert_free_block(block, k);
        proof {
            lemma_dealloc_preserves_wf(*old(self), *self, block, j as int, k as int);
            assert forall|k2: int| insert_at(f0, block, k2)
                implies self.free@ == dealloc_result(f0, block, k2) by {
                lemma_insert_at_unique(f0, block, k as int, k2);
            }
        }
    }

    /// Splices a returned region into the free list at its rank,
    /// coalescing with the address-contiguous neighbours.
    #[verifier::rlimit(100)]
    fn insert_free_block(&mut self, block: HeapBlock, k: usize)
        requires
            old(self).heap_start() + old(self).heap_size() <= u64::MAX,
            free_list_wf(old(self).free_blocks(), old(self).heap_start(), old(self).heap_size()),
            old(self).heap_start() <= block.start,
            block.start + block.size <= old(self).heap_start() + old(self).heap_size(),
            block.size > 0,
            insert_at(old(self).free_blocks(), block, k as int),
        ensures
            final(self).free_blocks() == dealloc_result(old(self).free_blocks(), block, k as int),
            final(self).allocated_blocks() == old(self).allocated_blocks(),
            final(self).heap_start() == old(self).heap_start(),
            final(self).heap_size() == old(self).heap_size(),
    {
        let ghost f0 = self.free@;
        let flen = self.free.len();
        let left = k > 0 && self.free[k - 1].start + self.free[k - 1].size == block.start;
        let right = k < flen && block.start + block.size == self.free[k].start;
        if left && right {
            let merged = HeapBlock {
                start: self.free[k - 1].start,
                size: self.free[k - 1].size + block.size + self.free[k].size,
            };
            self.free[k - 1] = merged;
            self.free.remove(k);
            proof {
                assert(self.free@ =~= dealloc_result(f0, block, k as int));
            }
        } else if left {
            let merged = HeapBlock {
                start: self.free[k - 1].start,
                size: self.free[k - 1].size + block.size,
            };
            self.free[k - 1] = merged;
            proof {
                assert(self.free@ =~= dealloc_result(f0, block, k as int));
            }
        } else if right {
            let merged = HeapBlock {
                start: block.start,
                size: block.size + self.free[k].size,
            };
            self.free[k] = merged;
            proof {
                assert(self.free@ =~= dealloc_result(f0, block, k as int));
            }
        } else {
            self.free.insert(k, block);
            proof {
                assert(self.free@ =~= dealloc_result(f0, block, k as int));
            }
        }
    }
}

/// There is exactly one rank at which a region disjoint from every free
/// block can be inserted.
proof fn lemma_insert_at_unique(free: Seq<HeapBlock>, b: HeapBlock, k1: int, k2: int)
    requires
        forall|i: int| 0 <= i < free.len() ==> (#[trigger] free[i]).size > 0,
        b.size > 0,
        insert_at(free, b, k1),
        insert_at(free, b, k2),
    ensures
        k1 == k2,
{
    if k1 < k2 {
        assert(free[k1].start + free[k1].size <= b.start);
        assert(b.start + b.size <= free[k1].start);
    }
    if k2 < k1 {
        assert(free[k2].start + free[k2].size <= b.start);
        assert(b.start + b.size <= free[k2].start);
    }
}

/// Returning a region at its rank and coalescing keeps the allocator
/// well-formed; the returned bytes move back to the free side.
#[verifier::rlimit(100)]
proof fn lemma_dealloc_preserves_wf(h0: HeapAllocator, h1: HeapAllocator, b: HeapBlock, j: int, k: int)
    requires
        h0.wf(),
        0 <= j < h0.allocated_blocks().len(),
        h0.allocated_blocks()[j] == b,
        insert_at(h0.free_blocks(), b, k),
        h1.heap_start() == h0.heap_start(),
        h1.heap_size() == h0.heap_size(),
        h1.free_blocks() == dealloc_result(h0.free_blocks(), b, k),
        h1.allocated_blocks() == h0.allocated_blocks().remove(j),
    ensures
        h1.wf(),
{
    let f0 = h0.free_blocks();
    let f1 = h1.free_blocks();
    let a0 = h0.allocated_blocks();
    let a1 = h1.allocated_blocks();
    let hstart = h0.heap_start();
    let hsize = h0.heap_size();
    let left = k > 0 && f0[k - 1].start + f0[k - 1].size == b.start;
    let right = k < f0.len() && b.start + b.size == f0[k].start;
    let c: int = if left { k - 1 } else { k };
    let d: int = if right { k + 1 } else { k };
    let m = HeapBlock {
        start: if left { f0[k - 1].start } else { b.start },
        size: ((if right { f0[k].start + f0[k].size } else { b.start + b.size })
            - (if left { f0[k - 1].start } else { b.start })) as u64,
    };
    assert(f1 =~= f0.subrange(0, c) + seq![m] + f0.skip(d));
    lemma_splice_pointwise2(f0, seq![m], f1, c, d);
    // the region lies inside the heap and clear of every free block
    assert(hstart <= b.start && b.start + b.size <= hstart + hsize);
    // sums: the returned bytes move back to the free side
    lemma_sum_append(f0.subrange(0, c) + seq![m], f0.skip(d));
    lemma_sum_append(f0.subrange(0, c), seq![m]);
    lemma_sum_singleton(m);
    assert(sum_sizes(f0) == sum_sizes(f0.subrange(0, c)) + sum_sizes(f0.subrange(c, d)) + sum_sizes(f0.skip(d))) by {
        assert(f0 =~= f0.subrange(0, c) + f0.subrange(c, d) + f0.skip(d));
        lemma_sum_append(f0.subrange(0, c) + f0.subrange(c, d), f0.skip(d));
        lemma_sum_append(f0.subrange(0, c), f0.subrange(c, d));
    }
    assert(sum_sizes(f0.subrange(c, d)) == m.size - b.size) by {
        if left && right {
            let s2 = f0.subrange(c, d);
            assert(s2.len() == 2);
            assert(s2[0] == f0[k - 1] && s2[1] == f0[k]);
            assert(s2.skip(1) =~= seq![f0[k]]);
            lemma_sum_singleton(f0[k]);
        } else if left {
            assert(f0.subrange(c, d) =~= seq![f0[k - 1]]);
            lemma_sum_singleton(f0[k - 1]);
        } else if right {
            assert(f0.subrange(c, d) =~= seq![f0[k]]);
            lemma_sum_singleton(f0[k]);
        } else {
            assert(f0.subrange(c, d) =~= Seq::<HeapBlock>::empty());
        }
    }
    assert(sum_sizes(a0) == sum_sizes(a1) + b.size) by {
        assert(a1 =~= a0.subrange(0, j) + a0.skip(j + 1));
        lemma_sum_decompose(a0, j);
        lemma_sum_append(a0.subrange(0, j), a0.skip(j + 1));
    }
    assert(sum_sizes(f1) + sum_sizes(a1) == hsize);
    // gaps towards the untouched neighbours stay strict
    assert(c > 0 ==> f0[c - 1].start + f0[c - 1].size < m.start) by {
        if c > 0 && !left {
            assert(f0[k - 1].start + f0[k - 1].size <= b.start);
            assert(f0[k - 1].start + f0[k - 1].size != b.start);
        }
    }
    assert(d < f0.len() ==> m.start + m.size < f0[d].start) by {
        if d < f0.len() {
            if right {
                assert(f0[k].start + f0[k].size < f0[k + 1].start);
            } else {
                assert(b.start + b.size <= f0[k].start);
                assert(b.start + b.size != f0[k].start);
            }
        }
    }
    assert(m.size > 0 && hstart <= m.start && m.start + m.size <= hstart + hsize);
    lemma_dealloc_sorted(f0, f1, c, d, m, hstart, hsize);
    // the block removed from the live side is clear of the rest
    assert(a1 =~= a0.subrange(0, j) + a0.skip(j + 1));
    assert forall|y: int| 0 <= y < a1.len()
        implies #[trigger] a1[y] == (if y < j { a0[y] } else { a0[y + 1] }) by {}
    assert forall|y: int| 0 <= y < a1.len()
        implies blocks_disjoint(m, #[trigger] a1[y]) by {
        let o = a1[y];
        let yo: int = if y < j { y } else { y + 1 };
        assert(o == a0[yo]);
        assert(blocks_disjoint(b, o)) by {
            if yo < j {
                assert(blocks_disjoint(a0[yo], a0[j]));
            } else {
                assert(blocks_disjoint(a0[j], a0[yo]));
            }
        }
        if left {
            assert(blocks_disjoint(f0[k - 1], o));
        }
        if right {
            assert(blocks_disjoint(f0[k], o));
        }
    }
    lemma_dealloc_disjoint(f0, f1, a0, a1, j, c, d, m);
}

/// Sortedness and range of the free list after the splice.
#[verifier::rlimit(60)]
proof fn lemma_dealloc_sorted(f0: Seq<HeapBlock>, f1: Seq<HeapBlock>, c: int, d: int, m: HeapBlock, hstart: u64, hsize: u64)
    requires
        free_list_wf(f0, hstart, hsize),
        0 <= c <= d <= f0.len(),
        f1.len() == c + 1 + f0.len() - d,
        forall|x: int| 0 <= x < c ==> #[trigger] f1[x] == f0[x],
        f1[c] == m,
        forall|x: int| c + 1 <= x < f1.len() ==> #[trigger] f1[x] == f0[x - 1 - c + d],
        m.size > 0,
        hstart <= m.start,
        m.start + m.size <= hstart + hsize,
        c > 0 ==> f0[c - 1].start + f0[c - 1].size < m.start,
        d < f0.len() ==> m.start + m.size < f0[d].start,
    ensures
        free_list_wf(f1, hstart, hsize),
{
    assert forall|x: int| 0 <= x < f1.len()
        implies (#[trigger] f1[x]).size > 0
            && hstart <= f1[x].start
            && f1[x].start + f1[x].size <= hstart + hsize by {
        if x < c {
            assert(f1[x] == f0[x]);
        } else if x > c {
            assert(f1[x] == f0[x + (d - c) - 1]);
        }
    }
    assert forall|x: int| 0 <= x < f1.len() - 1
        implies (#[trigger] f1[x]).start + f1[x].size < f1[x + 1].start by {
        if x + 1 < c {
            assert(f1[x] == f0[x] && f1[x + 1] == f0[x + 1]);
        } else if x + 1 == c {
            assert(f1[x] == f0[x] && f1[x + 1] == m);
        } else if x == c {
            assert(f1[x + 1] == f0[d]);
        } else {
            assert(f1[x] == f0[x + (d - c) - 1] && f1[x + 1] == f0[x + (d - c)]);
        }
    }
}

/// Disjointness of the spliced free list from the shrunken live list.
#[verifier::rlimit(60)]
proof fn lemma_dealloc_disjoint(f0: Seq<HeapBlock>, f1: Seq<HeapBlock>, a0: Seq<HeapBlock>, a1: Seq<HeapBlock>, j: int, c: int, d: int, m: HeapBlock)
    requires
        0 <= c <= d <= f0.len(),
        0 <= j < a0.len(),
        f1.len() == c + 1 + f0.len() - d,
        forall|x: int| 0 <= x < c ==> #[trigger] f1[x] == f0[x],
        f1[c] == m,
        forall|x: int| c + 1 <= x < f1.len() ==> #[trigger] f1[x] == f0[x - 1 - c + d],
        a1.len() == a0.len() - 1,
        forall|y: int| 0 <= y < a1.len() ==>
            #[trigger] a1[y] == (if y < j { a0[y] } else { a0[y + 1] }),
        forall|x: int, y: int| 0 <= x < y < a0.len() ==>
            blocks_disjoint(#[trigger] a0[x], #[trigger] a0[y]),
        forall|x: int, y: int| 0 <= x < f0.len() && 0 <= y < a0.len() ==>
            blocks_disjoint(#[trigger] f0[x], #[trigger] a0[y]),
        forall|y: int| 0 <= y < a1.len() ==> blocks_disjoint(m, #[trigger] a1[y]),
    ensures
        forall|x: int, y: int| 0 <= x < y < a1.len() ==>
            blocks_disjoint(#[trigger] a1[x], #[trigger] a1[y]),
        forall|x: int, y: int| 0 <= x < f1.len() && 0 <= y < a1.len() ==>
            blocks_disjoint(#[trigger] f1[x], #[trigger] a1[y]),
{
    assert forall|x: int, y: int| 0 <= x < y < a1.len()
        implies blocks_disjoint(#[trigger] a1[x], #[trigger] a1[y]) by {
        let xo: int = if x < j { x } else { x + 1 };
        let yo: int = if y < j { y } else { y + 1 };
        assert(a1[x] == a0[xo] && a1[y] == a0[yo]);
        assert(blocks_disjoint(a0[xo], a0[yo]));
    }
    assert forall|x: int, y: int| 0 <= x < f1.len() && 0 <= y < a1.len()
        implies blocks_disjoint(#[trigger] f1[x], #[trigger] a1[y]) by {
        let yo: int = if y < j { y } else { y + 1 };
        assert(a1[y] == a0[yo]);
        if x < c {
            assert(f1[x] == f0[x]);
        } else if x > c {
            assert(f1[x] == f0[x + (d - c) - 1]);
        }
    }
}

/// Pointwise reading of replacing the segment `[c, d)` by `mids`.
proof fn lemma_splice_pointwise2(f0: Seq<HeapBlock>, mids: Seq<HeapBlock>, f1: Seq<HeapBlock>, c: int, d: int)
    requires
        0 <= c <= d <= f0.len(),
        f1 == f0.subrange(0, c) + mids + f0.skip(d),
    ensures
        f1.len() == c + mids.len() + f0.len() - d,
        forall|x: int| 0 <= x < c ==> #[trigger] f1[x] == f0[x],
        forall|x: int| c <= x < c + mids.len() ==> #[trigger] f1[x] == mids[x - c],
        forall|x: int| c + mids.len() <= x < f1.len() ==> #[trigger] f1[x] == f0[x - mids.len() - c + d],
{
}

/// The permission flags with which every heap page is mapped.
pub open spec fn heap_page_flags() -> PageFlags {
    PageFlags { writable: true, user: false, no_exec: false }
}

/// For every page of the fixed heap range, obtains one frame from the
/// frame allocator and maps it writable through the page mapper; on any
/// failure the heap is abandoned (all-or-nothing). Once every page is
/// mapped, the full range is handed to the allocator as one free block.
/// Success is owed whenever the heap range is untouched and the frame
/// allocator holds at least four frames per heap page.
#[verifier::rlimit(100)]
pub fn init_heap(mapper: &mut Mapper, frame_allocator: &mut BootInfoFrameAllocator)
    -> (r: Result<HeapAllocator, HeapInitError>)
    requires
        old(mapper).wf(),
        old(frame_allocator).wf(),
        old(mapper).frames_from(*old(frame_allocator)),
    ensures
        final(mapper).wf(),
        final(frame_allocator).wf(),
        final(mapper).frames_from(*final(frame_allocator)),
        final(mapper).offset_spec() == old(mapper).offset_spec(),
        final(frame_allocator).frames_seq() == old(frame_allocator).frames_seq(),
        match r {
            Ok(h) => {
                &&& h.wf()
                &&& h.heap_start() == HEAP_START
                &&& h.heap_size() == HEAP_SIZE
                &&& h.free_blocks() == seq![HeapBlock { start: HEAP_START, size: HEAP_SIZE }]
                &&& h.allocated_blocks().len() == 0
                &&& forall|vb: u64| HEAP_START <= vb < HEAP_START + HEAP_SIZE ==>
                        (#[trigger] final(mapper).resolve(vb)) is Some
                            && (final(mapper).resolve(vb)->0).1 == heap_page_flags()
            },
            Err(_) => true,
        },
        (old(frame_allocator).remaining() >= 4 * ((HEAP_SIZE / 4096) as int)
            && (forall|vb: u64| HEAP_START <= vb < HEAP_START + HEAP_SIZE ==>
                    (#[trigger] old(mapper).resolve(vb)) is None))
            ==> r is Ok,
{
    let pages: usize = (HEAP_SIZE / 4096) as usize;
    let ghost m0 = *mapper;
    let ghost fa0 = *frame_allocator;
    let ghost owed = fa0.remaining() >= 4 * ((HEAP_SIZE / 4096) as int)
        && (forall|vb: u64| HEAP_START <= vb < HEAP_START + HEAP_SIZE ==>
                (#[trigger] m0.resolve(vb)) is None);
    let mut p: usize = 0;
    while p < pages
        invariant
            mapper.wf(),
            frame_allocator.wf(),
            mapper.frames_from(*frame_allocator),
            mapper.offset_spec() == m0.offset_spec(),
            frame_allocator.frames_seq() == fa0.frames_seq(),
            pages == 25,
            p <= pages,
            m0 == *old(mapper),
            fa0 == *old(frame_allocator),
            owed == (fa0.remaining() >= 4 * ((HEAP_SIZE / 4096) as int)
                && (forall|vb: u64| HEAP_START <= vb < HEAP_START + HEAP_SIZE ==>
                        (#[trigger] m0.resolve(vb)) is None)),
            forall|vb: u64| HEAP_START <= vb < HEAP_START + (p as u64) * 4096 ==>
                (#[trigger] mapper.resolve(vb)) is Some
                    && (mapper.resolve(vb)->0).1 == heap_page_flags(),
            owed ==> forall|vb: u64|
                HEAP_START + (p as u64) * 4096 <= vb < HEAP_START + HEAP_SIZE ==>
                    (#[trigger] mapper.resolve(vb)) is None,
            owed ==> frame_allocator.remaining() >= 4 * ((pages - p) as int),
        decreases pages - p,
    {
        let page: u64 = HEAP_START + (p as u64) * 4096;
        let ghost m_before = *mapper;
        let frame: u64 = match frame_allocator.allocate() {
            Some(f) => f,
            None => {
                return Err(HeapInitError::OutOfFrames);
            },
        };
        match mapper.map(page, frame, PageFlags { writable: true, user: false, no_exec: false }, frame_allocator) {
            Ok(()) => {},
            Err(MapError::AlreadyMapped) => {
                proof {
                    if owed {
                        assert(m_before.resolve(page) is None);
                    }
                }
                return Err(HeapInitError::AlreadyMapped);
            },
            Err(MapError::OutOfFrames) => {
                proof {
                    if owed {
                        assert(m_before.missing_tables(page) <= 3);
                    }
                }
                return Err(HeapInitError::OutOfFrames);
            },
        }
        proof {
            assert forall|vb: u64| HEAP_START <= vb < HEAP_START + ((p + 1) as u64) * 4096
                implies (#[trigger] mapper.resolve(vb)) is Some
                    && (mapper.resolve(vb)->0).1 == heap_page_flags() by {
                lemma_page_base_range(page, vb);
            }
            if owed {
                assert forall|vb: u64|
                    HEAP_START + ((p + 1) as u64) * 4096 <= vb < HEAP_START + HEAP_SIZE
                    implies (#[trigger] mapper.resolve(vb)) is None by {
                    lemma_page_base_range(page, vb);
                    assert(m_before.resolve(vb) is None);
                }
            }
        }
        p = p + 1;
    }
    Ok(HeapAllocator::new(HEAP_START, HEAP_SIZE))
}

/// Law: after every operation, the bytes of the heap are split exactly
/// between the free blocks and the live allocated regions:
/// `sum(free sizes) + sum(allocated sizes) == total heap size`.
pub proof fn lemma_heap_conservation(h: HeapAllocator)
    requires
        h.wf(),
    ensures
        sum_sizes(h.free_blocks()) + sum_sizes(h.allocated_blocks()) == h.heap_size(),
{
}

/// Law: allocating a region and immediately freeing it restores the free
/// list exactly — coalescing re-absorbs both remnants of the carved
/// block — so repeating one fixed-size request forever never exhausts
/// the heap.
#[verifier::rlimit(100)]
pub proof fn lemma_alloc_free_round_trip(free: Seq<HeapBlock>, size: u64, align: u64, i: int, hstart: u64, hsize: u64)
    requires
        free_list_wf(free, hstart, hsize),
        hstart + hsize <= u64::MAX,
        size > 0,
        align > 0,
        fits_at(free, size, align, i),
    ensures
        ({
            let p = align_up_spec(free[i].start, align) as u64;
            let mid = HeapBlock { start: p, size };
            let f1 = free.subrange(0, i) + split_block(free[i], size, align) + free.skip(i + 1);
            forall|k: int| insert_at(f1, mid, k) ==> dealloc_result(f1, mid, k) == free
        }),
{
    let b = free[i];
    let p = align_up_spec(b.start, align) as u64;
    let mid = HeapBlock { start: p, size };
    let sp = split_block(b, size, align);
    let f1 = free.subrange(0, i) + sp + free.skip(i + 1);
    let kk: int = if align_up_spec(b.start, align) > b.start { i + 1 } else { i };
    lemma_split_facts(b, size, align);
    lemma_splice_pointwise(free, sp, f1, i);
    lemma_alloc_sorted(free, sp, f1, i, hstart, hsize);
    lemma_round_trip_rank(free, size, align, i, hstart, hsize);
    lemma_round_trip_result(free, size, align, i, hstart, hsize);
    assert forall|k: int| insert_at(f1, mid, k)
        implies dealloc_result(f1, mid, k) == free by {
        lemma_insert_at_unique(f1, mid, kk, k);
    }
}

/// The rank of the carved region within the remaining free list.
#[verifier::rlimit(60)]
proof fn lemma_round_trip_rank(free: Seq<HeapBlock>, size: u64, align: u64, i: int, hstart: u64, hsize: u64)
    requires
        free_list_wf(free, hstart, hsize),
        hstart + hsize <= u64::MAX,
        size > 0,
        align > 0,
        fits_at(free, size, align, i),
    ensures
        ({
            let b = free[i];
            let p = align_up_spec(b.start, align) as u64;
            let mid = HeapBlock { start: p, size };
            let f1 = free.subrange(0, i) + split_block(b, size, align) + free.skip(i + 1);
            let kk: int = if align_up_spec(b.start, align) > b.start { i + 1 } else { i };
            insert_at(f1, mid, kk)
        }),
{
    let b = free[i];
    let p = align_up_spec(b.start, align) as u64;
    let mid = HeapBlock { start: p, size };
    let sp = split_block(b, size, align);
    let f1 = free.subrange(0, i) + sp + free.skip(i + 1);
    let sl = sp.len() as int;
    lemma_split_facts(b, size, align);
    lemma_splice_pointwise(free, sp, f1, i);
    let front = HeapBlock { start: b.start, size: (p - b.start) as u64 };
    let back = HeapBlock { start: (p + size) as u64, size: (b.start + b.size - (p + size)) as u64 };
    let kk: int = if front.size > 0 { i + 1 } else { i };
    assert forall|l: int| 0 <= l < kk
        implies (#[trigger] f1[l]).start + f1[l].size <= mid.start by {
        if l < i {
            assert(f1[l] == free[l]);
            lemma_free_list_ordered(free, hstart, hsize, l + 1, i);
            assert(free[l].start + free[l].size < free[l + 1].start);
        } else {
            assert(f1[l] == sp[0] && sp[0] == front);
        }
    }
    if kk < f1.len() {
        if back.size > 0 {
            assert(f1[kk] == sp[sl - 1] && sp[sl - 1] == back);
        } else {
            assert(f1[kk] == free[i + 1]);
        }
    }
    assert(insert_at(f1, mid, kk));
}

/// Freeing the carved region at its rank restores the original list.
#[verifier::rlimit(100)]
proof fn lemma_round_trip_result(free: Seq<HeapBlock>, size: u64, align: u64, i: int, hstart: u64, hsize: u64)
    requires
        free_list_wf(free, hstart, hsize),
        hstart + hsize <= u64::MAX,
        size > 0,
        align > 0,
        fits_at(free, size, align, i),
    ensures
        ({
            let b = free[i];
            let p = align_up_spec(b.start, align) as u64;
            let mid = HeapBlock { start: p, size };
            let f1 = free.subrange(0, i) + split_block(b, size, align) + free.skip(i + 1);
            let kk: int = if align_up_spec(b.start, align) > b.start { i + 1 } else { i };
            dealloc_result(f1, mid, kk) == free
        }),
{
    let b = free[i];
    let p = align_up_spec(b.start, align) as u64;
    let mid = HeapBlock { start: p, size };
    let sp = split_block(b, size, align);
    let f1 = free.subrange(0, i) + sp + free.skip(i + 1);
    let sl = sp.len() as int;
    lemma_split_facts(b, size, align);
    lemma_splice_pointwise(free, sp, f1, i);
    let front = HeapBlock { start: b.start, size: (p - b.start) as u64 };
    let back = HeapBlock { start: (p + size) as u64, size: (b.start + b.size - (p + size)) as u64 };
    let kk: int = if front.size > 0 { i + 1 } else { i };
    let left = kk > 0 && f1[kk - 1].start + f1[kk - 1].size == mid.start;
    let right = kk < f1.len() && mid.start + mid.size == f1[kk].start;
    assert(left <==> front.size > 0) by {
        if front.size > 0 {
            assert(f1[kk - 1] == sp[0] && sp[0] == front);
        } else if kk > 0 {
            assert(f1[kk - 1] == free[i - 1]);
            assert(free[i - 1].start + free[i - 1].size < b.start);
        }
    }
    assert(right <==> back.size > 0) by {
        if back.size > 0 {
            assert(f1[kk] == sp[sl - 1] && sp[sl - 1] == back);
        } else if kk < f1.len() {
            assert(f1[kk] == free[i + 1]);
            assert(b.start + b.size < free[i + 1].start);
        }
    }
    let r = dealloc_result(f1, mid, kk);
    let c: int = if left { kk - 1 } else { kk };
    let d: int = if right { kk + 1 } else { kk };
    let m = HeapBlock {
        start: if left { f1[kk - 1].start } else { mid.start },
        size: ((if right { f1[kk].start + f1[kk].size } else { mid.start + mid.size })
            - (if left { f1[kk - 1].start } else { mid.start })) as u64,
    };
    assert(c == i && m == b) by {
        if left {
            assert(f1[kk - 1] == front);
        }
        if right {
            assert(f1[kk] == back);
        }
    }
    assert(r == f1.subrange(0, c) + seq![m] + f1.skip(d)) by {
        if left && right {
            assert(r =~= f1.subrange(0, c) + seq![m] + f1.skip(d));
        } else if left {
            assert(r =~= f1.subrange(0, c) + seq![m] + f1.skip(d));
        } else if right {
            assert(r =~= f1.subrange(0, c) + seq![m] + f1.skip(d));
        } else {
            assert(r =~= f1.subrange(0, c) + seq![m] + f1.skip(d));
        }
    }
    lemma_splice_pointwise2(f1, seq![m], r, c, d);
    assert(d == i + sl);
    assert(r.len() == free.len());
    assert forall|x: int| 0 <= x < free.len() implies #[trigger] r[x] == free[x] by {
        if x < i {
            assert(r[x] == f1[x] && f1[x] == free[x]);
        } else if x == i {
            assert(r[x] == m);
        } else {
            assert(r[x] == f1[x - 1 + sl]);
            assert(f1[x - 1 + sl] == free[x]);
        }
    }
    assert(r =~= free);
}

/// Rounding up to an alignment yields an aligned address.
proof fn lemma_align_up_mod(a: u64, align: u64)
    requires
        align > 0,
    ensures
        align_up_spec(a, align) % (align as int) == 0,
{
    if a % align != 0 {
        assert((a + (align - a % align)) % (align as int) == 0) by (nonlinear_arith)
            requires
                align > 0,
                a % align != 0;
    }
}

/// Pointwise reading of the spliced free list.
proof fn lemma_splice_pointwise(f0: Seq<HeapBlock>, sp: Seq<HeapBlock>, f1: Seq<HeapBlock>, i: int)
    requires
        0 <= i < f0.len(),
        f1 == f0.subrange(0, i) + sp + f0.skip(i + 1),
    ensures
        f1.len() == f0.len() + sp.len() - 1,
        forall|k: int| 0 <= k < i ==> #[trigger] f1[k] == f0[k],
        forall|k: int| i <= k < i + sp.len() ==> #[trigger] f1[k] == sp[k - i],
        forall|k: int| i + sp.len() <= k < f1.len() ==> #[trigger] f1[k] == f0[k - sp.len() + 1],
{
}

/// What remains of a carved block: sizes, extent, and the carved region.
proof fn lemma_split_facts(b: HeapBlock, size: u64, align: u64)
    requires
        size > 0,
        align > 0,
        b.start + b.size <= u64::MAX,
        block_fits(b, size, align),
    ensures
        ({
            let p = align_up_spec(b.start, align);
            let sp = split_block(b, size, align);
            &&& b.start <= p
            &&& p + size <= b.start + b.size
            &&& sum_sizes(sp) == b.size - size
            &&& forall|k: int| 0 <= k < sp.len() ==> (#[trigger] sp[k]).size > 0
                    && b.start <= sp[k].start
                    && sp[k].start + sp[k].size <= b.start + b.size
                    && blocks_disjoint(sp[k], HeapBlock { start: p as u64, size })
            &&& forall|k: int| 0 <= k < sp.len() - 1 ==>
                    (#[trigger] sp[k]).start + sp[k].size < sp[k + 1].start
        }),
{
    let p = align_up_spec(b.start, align);
    let sp = split_block(b, size, align);
    let front = HeapBlock { start: b.start, size: (p - b.start) as u64 };
    let back = HeapBlock { start: (p + size) as u64, size: (b.start + b.size - (p + size)) as u64 };
    assert(sum_sizes(sp) == b.size - size) by {
        if front.size > 0 && back.size > 0 {
            assert(sp =~= seq![front, back]);
            assert(sp.skip(1) =~= seq![back]);
            lemma_sum_singleton(back);
        } else if front.size > 0 {
            lemma_sum_singleton(front);
        } else if back.size > 0 {
            lemma_sum_singleton(back);
        }
    }
}

/// Sortedness of the spliced free list.
#[verifier::rlimit(60)]
proof fn lemma_alloc_sorted(f0: Seq<HeapBlock>, sp: Seq<HeapBlock>, f1: Seq<HeapBlock>, i: int, hstart: u64, hsize: u64)
    requires
        free_list_wf(f0, hstart, hsize),
        0 <= i < f0.len(),
        f1.len() == f0.len() + sp.len() - 1,
        forall|k: int| 0 <= k < i ==> #[trigger] f1[k] == f0[k],
        forall|k: int| i <= k < i + sp.len() ==> #[trigger] f1[k] == sp[k - i],
        forall|k: int| i + sp.len() <= k < f1.len() ==> #[trigger] f1[k] == f0[k - sp.len() + 1],
        forall|k: int| 0 <= k < sp.len() ==> (#[trigger] sp[k]).size > 0
            && f0[i].start <= sp[k].start
            && sp[k].start + sp[k].size <= f0[i].start + f0[i].size,
        forall|k: int| 0 <= k < sp.len() - 1 ==>
            (#[trigger] sp[k]).start + sp[k].size < sp[k + 1].start,
    ensures
        free_list_wf(f1, hstart, hsize),
{
    let b = f0[i];
    assert forall|k: int| 0 <= k < f1.len() - 1
        implies (#[trigger] f1[k]).start + f1[k].size < f1[k + 1].start by {
        let sl = sp.len() as int;
        if k + 1 < i {
            assert(f1[k] == f0[k] && f1[k + 1] == f0[k + 1]);
        } else if k + 1 == i {
            assert(f1[k] == f0[k]);
            assert(f0[k].start + f0[k].size < b.start);
            if sl > 0 {
                assert(f1[k + 1] == sp[0]);
            } else {
                assert(f1[k + 1] == f0[i + 1]);
                assert(b.start <= b.start + b.size);
                assert(b.start + b.size < f0[i + 1].start);
            }
        } else if k + 1 < i + sl {
            assert(f1[k] == sp[k - i] && f1[k + 1] == sp[k + 1 - i]);
        } else if k + 1 == i + sl && sl > 0 {
            assert(f1[k] == sp[sl - 1]);
            assert(f1[k + 1] == f0[i + 1]);
            assert(f0[i].start + f0[i].size < f0[i + 1].start);
        } else {
            assert(f1[k] == f0[k - sl + 1] && f1[k + 1] == f0[k - sl + 2]);
        }
    }
    assert forall|k: int| 0 <= k < f1.len()
        implies (#[trigger] f1[k]).size > 0
            && hstart <= f1[k].start
            && f1[k].start + f1[k].size <= hstart + hsize by {
        let sl = sp.len() as int;
        if k < i {
            assert(f1[k] == f0[k]);
        } else if k < i + sl {
            assert(f1[k] == sp[k - i]);
        } else {
            assert(f1[k] == f0[k - sl + 1]);
        }
    }
}

/// Disjointness of the spliced free list from the grown allocated list.
#[verifier::rlimit(60)]
proof fn lemma_alloc_disjoint(f0: Seq<HeapBlock>, sp: Seq<HeapBlock>, f1: Seq<HeapBlock>, a0: Seq<HeapBlock>, a1: Seq<HeapBlock>, i: int, mid: HeapBlock, hstart: u64, hsize: u64)
    requires
        free_list_wf(f0, hstart, hsize),
        0 <= i < f0.len(),
        f1.len() == f0.len() + sp.len() - 1,
        forall|k: int| 0 <= k < i ==> #[trigger] f1[k] == f0[k],
        forall|k: int| i <= k < i + sp.len() ==> #[trigger] f1[k] == sp[k - i],
        forall|k: int| i + sp.len() <= k < f1.len() ==> #[trigger] f1[k] == f0[k - sp.len() + 1],
        forall|k: int| 0 <= k < sp.len() ==> f0[i].start <= (#[trigger] sp[k]).start
            && sp[k].start + sp[k].size <= f0[i].start + f0[i].size
            && blocks_disjoint(sp[k], mid),
        f0[i].start <= mid.start,
        mid.start + mid.size <= f0[i].start + f0[i].size,
        a1 == a0.push(mid),
        forall|x: int, y: int| 0 <= x < y < a0.len() ==>
            blocks_disjoint(#[trigger] a0[x], #[trigger] a0[y]),
        forall|x: int, y: int| 0 <= x < f0.len() && 0 <= y < a0.len() ==>
            blocks_disjoint(#[trigger] f0[x], #[trigger] a0[y]),
    ensures
        forall|x: int, y: int| 0 <= x < y < a1.len() ==>
            blocks_disjoint(#[trigger] a1[x], #[trigger] a1[y]),
        forall|x: int, y: int| 0 <= x < f1.len() && 0 <= y < a1.len() ==>
            blocks_disjoint(#[trigger] f1[x], #[trigger] a1[y]),
{
    let b = f0[i];
    assert forall|x: int, y: int| 0 <= x < y < a1.len()
        implies blocks_disjoint(#[trigger] a1[x], #[trigger] a1[y]) by {
        if y == a0.len() {
            assert(a1[x] == a0[x]);
            assert(blocks_disjoint(f0[i], a0[x]));
        }
    }
    assert forall|x: int, y: int| 0 <= x < f1.len() && 0 <= y < a1.len()
        implies blocks_disjoint(#[trigger] f1[x], #[trigger] a1[y]) by {
        let sl = sp.len() as int;
        if y < a0.len() {
            if x < i {
                assert(f1[x] == f0[x]);
            } else if x < i + sl {
                assert(f1[x] == sp[x - i]);
                assert(blocks_disjoint(b, a0[y]));
            } else {
                assert(f1[x] == f0[x - sl + 1]);
            }
        } else {
            assert(a1[y] == mid);
            if x < i {
                assert(f1[x] == f0[x]);
                assert(f0[x].start + f0[x].size < f0[x + 1].start);
                lemma_free_list_ordered(f0, hstart, hsize, x + 1, i);
                assert(f0[x].start + f0[x].size < b.start);
            } else if x < i + sl {
                assert(f1[x] == sp[x - i]);
            } else {
                assert(f1[x] == f0[x - sl + 1]);
                if x - sl + 1 > i {
                    assert(b.start + b.size < f0[x - sl + 1].start) by {
                        if x - sl + 1 == i + 1 {
                        } else {
                            assert(f0[i].start + f0[i].size < f0[i + 1].start);
                            assert(f0[i + 1].start <= f0[x - sl + 1].start) by {
                                lemma_free_list_ordered(f0, hstart, hsize, i + 1, x - sl + 1);
                            }
                        }
                    }
                }
            }
        }
    }
}

/// Earlier free blocks start no later than later ones.
proof fn lemma_free_list_ordered(f: Seq<HeapBlock>, hstart: u64, hsize: u64, x: int, y: int)
    requires
        free_list_wf(f, hstart, hsize),
        0 <= x <= y < f.len(),
    ensures
        f[x].start <= f[y].start,
    decreases y - x,
{
    if x < y {
        lemma_free_list_ordered(f, hstart, hsize, x + 1, y);
        assert(f[x].start + f[x].size < f[x + 1].start);
    }
}

/// Carving the first fitting block keeps the allocator well-formed.
#[verifier::rlimit(100)]
proof fn lemma_alloc_preserves_wf(h0: HeapAllocator, h1: HeapAllocator, size: u64, align: u64, i: int, p: u64)
    requires
        h0.wf(),
        size > 0,
        align > 0,
        fits_at(h0.free_blocks(), size, align, i),
        p == align_up_spec(h0.free_blocks()[i].start, align),
        h1.heap_start() == h0.heap_start(),
        h1.heap_size() == h0.heap_size(),
        h1.free_blocks() == h0.free_blocks().subrange(0, i)
            + split_block(h0.free_blocks()[i], size, align) + h0.free_blocks().skip(i + 1),
        h1.allocated_blocks() == h0.allocated_blocks().push(HeapBlock { start: p, size }),
    ensures
        h1.wf(),
        h0.heap_start() <= p,
        p + size <= h0.heap_start() + h0.heap_size(),
{
    let f0 = h0.free_blocks();
    let f1 = h1.free_blocks();
    let b = f0[i];
    let sp = split_block(b, size, align);
    let mid = HeapBlock { start: p, size };
    let a0 = h0.allocated_blocks();
    let a1 = h1.allocated_blocks();
    lemma_split_facts(b, size, align);
    lemma_splice_pointwise(f0, sp, f1, i);
    // sums: the carved bytes move from the free side to the allocated side
    lemma_sum_decompose(f0, i);
    lemma_sum_append(f0.subrange(0, i) + sp, f0.skip(i + 1));
    lemma_sum_append(f0.subrange(0, i), sp);
    lemma_sum_append(a0, seq![mid]);
    assert(a1 =~= a0 + seq![mid]);
    lemma_sum_singleton(mid);
    assert(sum_sizes(f1) + sum_sizes(a1) == h1.heap_size());
    lemma_alloc_sorted(f0, sp, f1, i, h0.heap_start(), h0.heap_size());
    lemma_alloc_disjoint(f0, sp, f1, a0, a1, i, mid, h0.heap_start(), h0.heap_size());
}

} // verus!
