//! Boot-provided memory map and the physical frame allocator.
//!
//! The boot protocol hands the kernel an ordered sequence of memory
//! regions. The allocator turns the usable regions into the ascending
//! sequence of all frame-aligned, frame-sized sub-ranges and serves them
//! one at a time. Policy: frames are never reclaimed once handed out —
//! every frame this design consumes backs a translation table or the heap
//! for the lifetime of the kernel, so no release path is provided.
use vstd::prelude::*;

verus! {

/// Size in bytes of one physical frame (and of one virtual page).
pub const FRAME_SIZE: u64 = 4096;

/// Classification of a boot-provided memory region. The allocator only
/// ever reads `Usable` regions.
#[derive(Debug, Clone, Copy, PartialEq, Eq, Structural)]
pub enum RegionKind {
    Usable,
    Reserved,
}

/// One region of the boot-provided physical memory map.
#[derive(Debug, Clone, Copy, PartialEq, Eq, Structural)]
pub struct MemoryRegion {
    pub start: u64,
    pub len: u64,
    pub kind: RegionKind,
}

/// A frame base address `f` names a full frame inside region `r`.
pub open spec fn frame_in_region(f: u64, r: MemoryRegion) -> bool {
    &&& r.kind is Usable
    &&& f % 4096 == 0
    &&& r.start <= f
    &&& f + 4096 <= r.start + r.len
}

/// The memory map is an ordered sequence of non-overlapping regions whose
/// ends fit in the address space.
pub open spec fn memory_map_wf(regions: Seq<MemoryRegion>) -> bool {
    &&& forall|i: int| 0 <= i < regions.len() ==>
            (#[trigger] regions[i]).start + regions[i].len <= u64::MAX
    &&& forall|i: int, j: int| 0 <= i < j < regions.len() ==>
            (#[trigger] regions[i]).start + regions[i].len <= (#[trigger] regions[j]).start
}

proof fn lemma_align_step(a: u64, b: u64)
    requires
        a % 4096 == 0,
        b % 4096 == 0,
        a <= b,
        b < a + 4096,
    ensures
        a == b,
{
    assert(a == b) by (nonlinear_arith)
        requires
            a % 4096 == 0,
            b % 4096 == 0,
            a <= b,
            b < a + 4096;
}

proof fn lemma_align_up(start: u64, fs: u64, f: u64)
    requires
        start % 4096 == 0 ==> fs == start,
        start % 4096 != 0 ==> fs == start + (4096 - start % 4096),
        f % 4096 == 0,
        f >= start,
    ensures
        f >= fs,
{
    assert(f >= fs) by (nonlinear_arith)
        requires
            start % 4096 == 0 ==> fs == start,
            start % 4096 != 0 ==> fs == start + (4096 - start % 4096),
            f % 4096 == 0,
            f >= start;
}

proof fn lemma_align_up_aligned(start: u64, fs: u64)
    requires
        start % 4096 == 0 ==> fs == start,
        start % 4096 != 0 ==> fs == start + (4096 - start % 4096),
    ensures
        fs % 4096 == 0,
{
    assert(fs % 4096 == 0) by (nonlinear_arith)
        requires
            start % 4096 == 0 ==> fs == start,
            start % 4096 != 0 ==> fs == start + (4096 - start % 4096);
}

/// Serves the usable physical frames of the boot memory map in ascending
/// address order, each at most once.
pub struct BootInfoFrameAllocator {
    frames: Vec<u64>,
    next: usize,
}

impl BootInfoFrameAllocator {
    /// All frames this allocator will ever serve, ascending.
    pub closed spec fn frames_seq(self) -> Seq<u64> {
        self.frames@
    }

    /// How many frames have been served so far.
    pub closed spec fn cursor(self) -> int {
        self.next as int
    }

    /// The frames served so far, in the order they were returned.
    pub open spec fn served(self) -> Seq<u64> {
        self.frames_seq().subrange(0, self.cursor())
    }

    /// How many frames are still available.
    pub open spec fn remaining(self) -> int {
        self.frames_seq().len() - self.cursor()
    }

    pub open spec fn wf(self) -> bool {
        &&& 0 <= self.cursor() <= self.frames_seq().len()
        &&& forall|i: int, j: int| 0 <= i < j < self.frames_seq().len() ==>
                self.frames_seq()[i] < self.frames_seq()[j]
        &&& forall|i: int| 0 <= i < self.frames_seq().len() ==>
                #[trigger] self.frames_seq()[i] % 4096 == 0
    }

    /// Consumes the ordered region sequence and produces the cursor over
    /// all frame-aligned, frame-sized sub-ranges of usable regions,
    /// skipping any region or partial frame too small to hold one frame.
    pub fn init(memory_map: &Vec<MemoryRegion>) -> (a: Self)
        requires
            memory_map_wf(memory_map@),
        ensures
            a.wf(),
            a.cursor() == 0,
            forall|f: u64| #[trigger] a.frames_seq().contains(f)
                <==> exists|i: int| 0 <= i < memory_map@.len()
                    && frame_in_region(f, #[trigger] memory_map@[i]),
    {
        let mut frames: Vec<u64> = Vec::new();
        let mut r: usize = 0;
        while r < memory_map.len()
            invariant
                memory_map_wf(memory_map@),
                r <= memory_map@.len(),
                forall|i: int, j: int| 0 <= i < j < frames@.len() ==> frames@[i] < frames@[j],
                forall|i: int| 0 <= i < frames@.len() ==> #[trigger] frames@[i] % 4096 == 0,
                forall|f: u64| #[trigger] frames@.contains(f)
                    <==> exists|i: int| 0 <= i < r
                        && frame_in_region(f, #[trigger] memory_map@[i]),
            decreases memory_map@.len() - r,
        {
            let region = memory_map[r];
            if matches!(region.kind, RegionKind::Usable)
                && region.start <= u64::MAX - 4096
                && region.start + region.len >= 4096
            {
                let end: u64 = region.start + region.len;
                let limit: u64 = end - 4096;
                let rem: u64 = region.start % 4096;
                let mut fs: u64 = if rem == 0 {
                    region.start
                } else {
                    region.start + (4096 - rem)
                };
                proof {
                    lemma_align_up_aligned(region.start, fs);
                    assert forall|f: u64| frame_in_region(f, region) implies f >= fs by {
                        lemma_align_up(region.start, fs, f);
                    }
                }
                while fs <= limit
                    invariant
                        memory_map_wf(memory_map@),
                        r < memory_map@.len(),
                        memory_map@[r as int] == region,
                        region.kind is Usable,
                        region.start + region.len <= u64::MAX,
                        end == region.start + region.len,
                        end >= 4096,
                        limit == end - 4096,
                        fs % 4096 == 0,
                        fs >= region.start,
                        forall|i: int, j: int| 0 <= i < j < frames@.len() ==> frames@[i] < frames@[j],
                        forall|i: int| 0 <= i < frames@.len() ==> #[trigger] frames@[i] % 4096 == 0,
                        forall|f: u64| #[trigger] frames@.contains(f)
                            <==> (exists|i: int| 0 <= i < r
                                    && frame_in_region(f, #[trigger] memory_map@[i]))
                                || (frame_in_region(f, region) && f < fs),
                    decreases limit + 4096 - fs,
                {
                    let ghost prev = frames@;
                    let ghost fs0 = fs;
                    proof {
                        assert(frame_in_region(fs, region));
                        // every frame recorded so far lies below fs
                        assert forall|k: int| 0 <= k < prev.len() implies prev[k] < fs0 by {
                            let f = prev[k];
                            assert(prev.contains(f));
                            if exists|i: int| 0 <= i < r && frame_in_region(f, #[trigger] memory_map@[i]) {
                                let i = choose|i: int| 0 <= i < r && frame_in_region(f, #[trigger] memory_map@[i]);
                                assert(memory_map@[i].start + memory_map@[i].len
                                    <= memory_map@[r as int].start);
                                assert(f < region.start);
                            } else {
                                assert(frame_in_region(f, region) && f < fs0);
                            }
                        }
                    }
                    frames.push(fs);
                    fs = fs + 4096;
                    proof {
                        assert(frames@ == prev.push(fs0));
                        assert(frames@[frames@.len() - 1] == fs0);
                        assert forall|f: u64| #[trigger] frames@.contains(f)
                            implies (exists|i: int| 0 <= i < r
                                    && frame_in_region(f, #[trigger] memory_map@[i]))
                                || (frame_in_region(f, region) && f < fs) by {
                            let k = choose|k: int| 0 <= k < frames@.len() && frames@[k] == f;
                            if k < prev.len() {
                                assert(prev[k] == f);
                                assert(prev.contains(f));
                            } else {
                                assert(f == fs0);
                            }
                        }
                        assert forall|f: u64| ((exists|i: int| 0 <= i < r
                                    && frame_in_region(f, #[trigger] memory_map@[i]))
                                || (frame_in_region(f, region) && f < fs))
                            implies #[trigger] frames@.contains(f) by {
                            if frame_in_region(f, region) && f < fs && !(f < fs0) {
                                // fs0 is the only aligned address in [fs0, fs0 + 4096)
                                lemma_align_step(fs0, f);
                                assert(frames@[frames@.len() - 1] == f);
                            } else {
                                assert(prev.contains(f));
                                let k = choose|k: int| 0 <= k < prev.len() && prev[k] == f;
                                assert(frames@[k] == f);
                            }
                        }
                    }
                }
                proof {
                    assert forall|f: u64| #[trigger] frames@.contains(f)
                        <==> exists|i: int| 0 <= i < r + 1
                            && frame_in_region(f, #[trigger] memory_map@[i]) by {
                        if frames@.contains(f) {
                            if !(exists|i: int| 0 <= i < r
                                    && frame_in_region(f, #[trigger] memory_map@[i])) {
                                assert(frame_in_region(f, memory_map@[r as int]));
                            }
                        }
                        if exists|i: int| 0 <= i < r + 1
                                && frame_in_region(f, #[trigger] memory_map@[i]) {
                            let i = choose|i: int| 0 <= i < r + 1
                                && frame_in_region(f, #[trigger] memory_map@[i]);
                            if i == r {
                                // the loop above ran past the last full frame
                                assert(f + 4096 <= end);
                                assert(f < fs);
                            }
                        }
                    }
                }
            } else {
                proof {
                    assert forall|f: u64| !frame_in_region(f, region) by {
                        if frame_in_region(f, region) {
                            assert(region.kind is Usable);
                        }
                    }
                    assert forall|f: u64| #[trigger] frames@.contains(f)
                        <==> exists|i: int| 0 <= i < r + 1
                            && frame_in_region(f, #[trigger] memory_map@[i]) by {
                        if exists|i: int| 0 <= i < r + 1
                                && frame_in_region(f, #[trigger] memory_map@[i]) {
                            let i = choose|i: int| 0 <= i < r + 1
                                && frame_in_region(f, #[trigger] memory_map@[i]);
                            assert(i < r);
                        }
                    }
                }
            }
            r = r + 1;
        }
        BootInfoFrameAllocator { frames, next: 0 }
    }

    /// Returns the next unused frame in ascending address order and marks
    /// it served; reports exhaustion when no usable frame remains. A frame
    /// already handed out is never returned again.
    pub fn allocate(&mut self) -> (r: Option<u64>)
        requires
            old(self).wf(),
        ensures
            final(self).wf(),
            final(self).frames_seq() == old(self).frames_seq(),
            match r {
                Some(f) => {
                    &&& old(self).remaining() > 0
                    &&& f == old(self).frames_seq()[old(self).cursor()]
                    &&& final(self).cursor() == old(self).cursor() + 1
                    &&& final(self).served() == old(self).served().push(f)
                    &&& !old(self).served().contains(f)
                    &&& f % 4096 == 0
                },
                None => {
                    &&& old(self).remaining() == 0
                    &&& *final(self) == *old(self)
                },
            },
    {
        if self.next < self.frames.len() {
            let f = self.frames[self.next];
            self.next = self.next + 1;
            proof {
                assert(final(self).served() =~= old(self).served().push(f));
                assert(!old(self).served().contains(f)) by {
                    assert(forall|i: int| 0 <= i < old(self).cursor() ==>
                        #[trigger] old(self).frames_seq()[i]
                            < old(self).frames_seq()[old(self).cursor()]);
                }
            }
            Some(f)
        } else {
            None
        }
    }
}

/// Law: for any sequence of `allocate` calls with no interleaved free,
/// the returned frames are pairwise distinct.
pub proof fn lemma_served_frames_distinct(a: BootInfoFrameAllocator)
    requires
        a.wf(),
    ensures
        forall|i: int, j: int| 0 <= i < j < a.served().len() ==> a.served()[i] != a.served()[j],
{
}

} // verus!
