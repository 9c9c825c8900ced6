//! Hierarchical virtual-to-physical page mapper.
//!
//! The translation structure is an arena of fixed-size tables, one per
//! backing frame, from the root (level 4) down to the leaves (level 1).
//! An entry of an inner table names the arena slot of its child table;
//! the child's backing frame is recorded on the child itself. An entry of
//! a leaf table holds the mapped physical frame and its permission flags.
//! Every level on the path to a mapped leaf is a present table backed by
//! an allocated frame: dangling paths cannot be expressed.
use vstd::prelude::*;

use crate::memory::BootInfoFrameAllocator;

verus! {

/// Permission flags of a mapping. Presence is expressed by the entry
/// existing at all.
#[derive(Debug, Clone, Copy, PartialEq, Eq, Structural)]
pub struct PageFlags {
    pub writable: bool,
    pub user: bool,
    pub no_exec: bool,
}

/// One present translation-table entry: the target is a child table's
/// arena slot on inner levels, a mapped physical frame on the leaf level.
#[derive(Debug, Clone, Copy, PartialEq, Eq, Structural)]
pub struct Entry {
    pub target: u64,
    pub flags: PageFlags,
}

/// Errors of `Mapper::map`.
#[derive(Debug, Clone, Copy, PartialEq, Eq, Structural)]
pub enum MapError {
    /// The leaf entry for the requested page is already present.
    AlreadyMapped,
    /// The frame allocator was exhausted while creating an intermediate table.
    OutOfFrames,
}

/// One translation table: 512 entries backed by one physical frame.
pub struct PageTable {
    pub frame: u64,
    pub level: u64,
    pub entries: Vec<Option<Entry>>,
}

/// The four address-derived table indices and the page offset.
pub open spec fn l4_index(va: u64) -> u64 {
    (va >> 39) & 0x1ff
}

pub open spec fn l3_index(va: u64) -> u64 {
    (va >> 30) & 0x1ff
}

pub open spec fn l2_index(va: u64) -> u64 {
    (va >> 21) & 0x1ff
}

pub open spec fn l1_index(va: u64) -> u64 {
    (va >> 12) & 0x1ff
}

/// Base address of the page containing `va`.
pub open spec fn page_base(va: u64) -> u64 {
    va & 0xffff_ffff_ffff_f000
}

/// Highest virtual address reachable by a four-level walk, plus one.
pub const ADDRESS_SPACE_END: u64 = 0x1_0000_0000_0000;

proof fn lemma_indices_bounded(va: u64)
    ensures
        l4_index(va) < 512,
        l3_index(va) < 512,
        l2_index(va) < 512,
        l1_index(va) < 512,
        va & 0xfff < 4096,
{
    assert((va >> 39) & 0x1ff < 512) by (bit_vector);
    assert((va >> 30) & 0x1ff < 512) by (bit_vector);
    assert((va >> 21) & 0x1ff < 512) by (bit_vector);
    assert((va >> 12) & 0x1ff < 512) by (bit_vector);
    assert(va & 0xfff < 4096) by (bit_vector);
}

/// Two addresses lie on the same page exactly when all four table
/// indices agree.
proof fn lemma_page_base_indices(a: u64, b: u64)
    requires
        a < 0x1_0000_0000_0000,
        b < 0x1_0000_0000_0000,
    ensures
        (page_base(a) == page_base(b)) <==>
            (l4_index(a) == l4_index(b) && l3_index(a) == l3_index(b)
                && l2_index(a) == l2_index(b) && l1_index(a) == l1_index(b)),
{
    assert(((a & 0xffff_ffff_ffff_f000) == (b & 0xffff_ffff_ffff_f000)) <==>
        ((a >> 39) & 0x1ff == (b >> 39) & 0x1ff && (a >> 30) & 0x1ff == (b >> 30) & 0x1ff
            && (a >> 21) & 0x1ff == (b >> 21) & 0x1ff && (a >> 12) & 0x1ff == (b >> 12) & 0x1ff))
        by (bit_vector)
        requires
            a < 0x1_0000_0000_0000,
            b < 0x1_0000_0000_0000;
}

/// The addresses of one page are exactly those within one page size of
/// its aligned base.
pub proof fn lemma_page_base_range(pg: u64, vb: u64)
    requires
        pg % 4096 == 0,
        pg < 0x1_0000_0000_0000,
        vb < 0x1_0000_0000_0000,
    ensures
        (page_base(vb) == pg) <==> (pg <= vb && vb < pg + 4096),
{
    assert(((vb & 0xffff_ffff_ffff_f000) == pg) <==> (pg <= vb && vb < pg + 4096))
        by (bit_vector)
        requires
            pg % 4096 == 0,
            pg < 0x1_0000_0000_0000,
            vb < 0x1_0000_0000_0000;
}

proof fn lemma_page_base_of_aligned(va: u64)
    requires
        va % 4096 == 0,
    ensures
        page_base(va) == va,
{
    assert(va % 4096 == 0 ==> (va & 0xffff_ffff_ffff_f000) == va) by (bit_vector);
}

proof fn lemma_aligned_add_offset(a: u64, o: u64)
    requires
        a % 4096 == 0,
        o < 4096,
    ensures
        a <= u64::MAX - 4095,
        a + o <= u64::MAX,
{
    assert(a % 4096 == 0 ==> a <= u64::MAX - 4095) by (bit_vector);
}

fn index4(va: u64) -> (i: usize)
    ensures
        i as u64 == l4_index(va),
        i < 512,
{
    let x: u64 = (va >> 39) & 0x1ff;
    proof {
        assert((va >> 39) & 0x1ff < 512) by (bit_vector);
    }
    x as usize
}

fn index3(va: u64) -> (i: usize)
    ensures
        i as u64 == l3_index(va),
        i < 512,
{
    let x: u64 = (va >> 30) & 0x1ff;
    proof {
        assert((va >> 30) & 0x1ff < 512) by (bit_vector);
    }
    x as usize
}

fn index2(va: u64) -> (i: usize)
    ensures
        i as u64 == l2_index(va),
        i < 512,
{
    let x: u64 = (va >> 21) & 0x1ff;
    proof {
        assert((va >> 21) & 0x1ff < 512) by (bit_vector);
    }
    x as usize
}

fn index1(va: u64) -> (i: usize)
    ensures
        i as u64 == l1_index(va),
        i < 512,
{
    let x: u64 = (va >> 12) & 0x1ff;
    proof {
        assert((va >> 12) & 0x1ff < 512) by (bit_vector);
    }
    x as usize
}

/// Writing one absent leaf entry changes the hardware walk for the
/// addresses of that one page and of no other: the pointer-uniqueness
/// invariant makes the path to a leaf table unique, so every address that
/// reaches the written entry shares all four indices with `va`.
proof fn lemma_leaf_write(m1: Mapper, m2: Mapper, t1: int, va: u64, frame: u64, flags: PageFlags)
    requires
        m1.wf(),
        va < 0x1_0000_0000_0000,
        va % 4096 == 0,
        frame % 4096 == 0,
        m1.l1_table_of(va) == Some(t1),
        0 <= t1 < m1.arena().len(),
        m1.arena()[t1].level == 1,
        m1.entry_at(t1, l1_index(va) as int) is None,
        m2.arena().len() == m1.arena().len(),
        forall|u: int| 0 <= u < m1.arena().len() && u != t1 ==>
            #[trigger] m2.arena()[u] == m1.arena()[u],
        m2.arena()[t1].frame == m1.arena()[t1].frame,
        m2.arena()[t1].level == m1.arena()[t1].level,
        m2.arena()[t1].entries@ == m1.arena()[t1].entries@.update(
            l1_index(va) as int,
            Some(Entry { target: frame, flags }),
        ),
    ensures
        m2.wf(),
        forall|vb: u64| vb < 0x1_0000_0000_0000 ==> #[trigger] m2.resolve(vb) ==
            (if page_base(vb) == va {
                Some::<(u64, PageFlags)>((((frame + (vb & 0xfff)) as u64), flags))
            } else {
                m1.resolve(vb)
            }),
{
    lemma_indices_bounded(va);
    lemma_page_base_of_aligned(va);
    let k4 = l4_index(va) as int;
    let k3 = l3_index(va) as int;
    let k2 = l2_index(va) as int;
    let k1 = l1_index(va) as int;
    let a3 = m1.subtable(0, k4).unwrap();
    let a2 = m1.subtable(a3, k3).unwrap();
    assert(m1.inner_points(0, k4, a3));
    assert(m1.inner_points(a3, k3, a2));
    assert(m1.inner_points(a2, k2, t1));
    // entry reads agree everywhere but at the written slot
    assert forall|u: int, j: int| 0 <= u < m1.arena().len() && 0 <= j < 512
        && !(u == t1 && j == k1)
        implies #[trigger] m2.entry_at(u, j) == m1.entry_at(u, j) by {
        if u == t1 {
            assert(m2.arena()[u].entries@[j] == m1.arena()[u].entries@[j]);
        }
    }
    assert(m2.entry_at(t1, k1) == Some(Entry { target: frame, flags }));
    assert forall|u: int, j: int, d: int| #[trigger] m2.inner_points(u, j, d)
        <==> #[trigger] m1.inner_points(u, j, d) by {
        if 0 <= u < m1.arena().len() && 0 <= j < 512 && m1.arena()[u].level >= 2 {
            assert(u != t1);
            assert(m2.entry_at(u, j) == m1.entry_at(u, j));
        }
    }
    assert(m2.wf()) by {
        assert forall|u: int| 0 <= u < m2.arena().len()
            implies (#[trigger] m2.arena()[u]).entries@.len() == 512
                && m2.arena()[u].frame % 4096 == 0
                && m2.arena()[u].level == m1.arena()[u].level by {
            if u != t1 {
                assert(m2.arena()[u] == m1.arena()[u]);
            }
        }
        assert forall|u: int, j: int, d: int| #[trigger] m2.inner_points(u, j, d)
            implies 0 <= d < m2.arena().len()
                && m2.arena()[d].level == m2.arena()[u].level - 1 by {
            assert(m1.inner_points(u, j, d));
        }
        assert forall|u1: int, u2: int| 0 <= u1 < u2 < m2.arena().len()
            implies (#[trigger] m2.arena()[u1]).frame != (#[trigger] m2.arena()[u2]).frame by {
            if u1 != t1 {
                assert(m2.arena()[u1] == m1.arena()[u1]);
            }
            if u2 != t1 {
                assert(m2.arena()[u2] == m1.arena()[u2]);
            }
        }
        assert forall|u: int, j: int| 0 <= u < m2.arena().len() && 0 <= j < 512
            && m2.arena()[u].level == 1
            implies match #[trigger] m2.entry_at(u, j) {
                Some(e) => e.target % 4096 == 0,
                None => true,
            } by {
            if !(u == t1 && j == k1) {
                assert(m2.entry_at(u, j) == m1.entry_at(u, j));
            }
        }
        assert forall|ua: int, ja: int, ub: int, jb: int, d: int|
            #[trigger] m2.inner_points(ua, ja, d) && #[trigger] m2.inner_points(ub, jb, d)
                implies ua == ub && ja == jb by {
            assert(m1.inner_points(ua, ja, d));
            assert(m1.inner_points(ub, jb, d));
        }
    }
    assert forall|vb: u64| vb < 0x1_0000_0000_0000 implies #[trigger] m2.resolve(vb) ==
        (if page_base(vb) == va {
            Some::<(u64, PageFlags)>((((frame + (vb & 0xfff)) as u64), flags))
        } else {
            m1.resolve(vb)
        }) by {
        lemma_indices_bounded(vb);
        lemma_page_base_indices(vb, va);
        let j4 = l4_index(vb) as int;
        let j3 = l3_index(vb) as int;
        let j2 = l2_index(vb) as int;
        let j1 = l1_index(vb) as int;
        // the inner walk reads only level >= 2 tables, never t1
        assert(m2.entry_at(0, j4) == m1.entry_at(0, j4));
        if page_base(vb) == va {
            assert(j4 == k4 && j3 == k3 && j2 == k2 && j1 == k1);
            assert(m2.l1_table_of(vb) == Some(t1));
            assert(m2.resolve(vb) == Some::<(u64, PageFlags)>((((frame + (vb & 0xfff)) as u64), flags)));
        } else {
            match m1.entry_at(0, j4) {
                None => {},
                Some(e4) => {
                    let u3 = e4.target as int;
                    assert(m1.inner_points(0, j4, u3));
                    assert(m1.arena()[u3].level == 3);
                    assert(u3 != t1);
                    assert(m2.entry_at(u3, j3) == m1.entry_at(u3, j3));
                    match m1.entry_at(u3, j3) {
                        None => {},
                        Some(e3) => {
                            let u2 = e3.target as int;
                            assert(m1.inner_points(u3, j3, u2));
                            assert(m1.arena()[u2].level == 2);
                            assert(u2 != t1);
                            assert(m2.entry_at(u2, j2) == m1.entry_at(u2, j2));
                            match m1.entry_at(u2, j2) {
                                None => {},
                                Some(e2) => {
                                    let u1 = e2.target as int;
                                    assert(m1.inner_points(u2, j2, u1));
                                    if u1 == t1 && j1 == k1 {
                                        // climb the unique pointers: the walk of vb
                                        // coincides with the walk of va at every level
                                        assert(m1.inner_points(a2, k2, t1));
                                        assert(u2 == a2 && j2 == k2);
                                        assert(m1.inner_points(u3, j3, a2));
                                        assert(m1.inner_points(a3, k3, a2));
                                        assert(u3 == a3 && j3 == k3);
                                        assert(m1.inner_points(0, j4, a3));
                                        assert(m1.inner_points(0, k4, a3));
                                        assert(j4 == k4);
                                        assert(page_base(vb) == page_base(va));
                                        assert(false);
                                    } else {
                                        assert(m2.entry_at(u1, j1) == m1.entry_at(u1, j1));
                                    }
                                },
                            }
                        },
                    }
                },
            }
        }
    }
}

/// Law: after `map(va, frame, flags)` succeeds, resolving any address of
/// that page yields exactly the frame's physical address plus the page
/// offset, with the same flags that were requested. The quantified
/// premise is precisely what a successful `map` ensures about the two
/// states.
pub proof fn lemma_map_then_translate(m0: Mapper, m1: Mapper, va: u64, frame: u64, flags: PageFlags, vb: u64)
    requires
        va % 4096 == 0,
        va < ADDRESS_SPACE_END,
        frame % 4096 == 0,
        va <= vb < va + 4096,
        vb < ADDRESS_SPACE_END,
        forall|vc: u64| vc < ADDRESS_SPACE_END ==> #[trigger] m1.resolve(vc) ==
            (if page_base(vc) == va {
                Some::<(u64, PageFlags)>((((frame + (vc & 0xfff)) as u64), flags))
            } else {
                m0.resolve(vc)
            }),
    ensures
        m1.resolve(vb) == Some::<(u64, PageFlags)>((((frame + (vb - va)) as u64), flags)),
{
    lemma_page_base_range(va, vb);
    assert(va % 4096 == 0 && va <= vb < va + 4096 ==> (vb & 0xfff) == vb - va) by (bit_vector);
}

/// Growing the served prefix of the frame allocator keeps every
/// previously served frame served.
proof fn lemma_frames_from_push(m: Mapper, fa1: BootInfoFrameAllocator, fa2: BootInfoFrameAllocator, f: u64)
    requires
        m.frames_from(fa1),
        fa2.served() == fa1.served().push(f),
    ensures
        m.frames_from(fa2),
{
    assert forall|t: int| 0 <= t < m.arena().len()
        implies fa2.served().contains((#[trigger] m.arena()[t]).frame) by {
        let g = m.arena()[t].frame;
        assert(fa1.served().contains(g));
        let k = choose|k: int| 0 <= k < fa1.served().len() && fa1.served()[k] == g;
        assert(fa2.served()[k] == g);
    }
}

/// The page mapper: owns the translation-table arena and the linear
/// physical-memory offset captured at initialization.
pub struct Mapper {
    phys_offset: u64,
    tables: Vec<PageTable>,
}

impl Mapper {
    /// The table arena; slot 0 is the root.
    pub closed spec fn arena(self) -> Seq<PageTable> {
        self.tables@
    }

    /// The linear offset at which physical memory is visible.
    pub closed spec fn offset_spec(self) -> u64 {
        self.phys_offset
    }

    pub open spec fn entry_at(self, t: int, i: int) -> Option<Entry> {
        self.arena()[t].entries@[i]
    }

    /// The inner entry `(t, i)` is present and names arena slot `c`.
    pub open spec fn inner_points(self, t: int, i: int, c: int) -> bool {
        &&& 0 <= t < self.arena().len()
        &&& 0 <= i < 512
        &&& self.arena()[t].level >= 2
        &&& match self.entry_at(t, i) {
                Some(e) => e.target == c,
                None => false,
            }
    }

    pub open spec fn wf(self) -> bool {
        &&& 1 <= self.arena().len()
        &&& self.arena()[0].level == 4
        &&& forall|t: int| 0 <= t < self.arena().len() ==>
                (#[trigger] self.arena()[t]).entries@.len() == 512
        &&& forall|t: int| 1 <= t < self.arena().len() ==>
                1 <= (#[trigger] self.arena()[t]).level <= 3
        &&& forall|t: int| 0 <= t < self.arena().len() ==>
                (#[trigger] self.arena()[t]).frame % 4096 == 0
        &&& forall|t1: int, t2: int| 0 <= t1 < t2 < self.arena().len() ==>
                (#[trigger] self.arena()[t1]).frame != (#[trigger] self.arena()[t2]).frame
        &&& forall|t: int, i: int, c: int| #[trigger] self.inner_points(t, i, c) ==>
                0 <= c < self.arena().len()
                    && self.arena()[c].level == self.arena()[t].level - 1
        &&& forall|t1: int, i1: int, t2: int, i2: int, c: int|
                #[trigger] self.inner_points(t1, i1, c) && #[trigger] self.inner_points(t2, i2, c)
                    ==> t1 == t2 && i1 == i2
        &&& forall|t: int, i: int| 0 <= t < self.arena().len() && 0 <= i < 512
                && self.arena()[t].level == 1 ==>
                match #[trigger] self.entry_at(t, i) {
                    Some(e) => e.target % 4096 == 0,
                    None => true,
                }
    }

    /// Every table frame was obtained from this allocator.
    pub open spec fn frames_from(self, fa: BootInfoFrameAllocator) -> bool {
        forall|t: int| 0 <= t < self.arena().len() ==>
            fa.served().contains((#[trigger] self.arena()[t]).frame)
    }

    /// The child slot named by entry `(t, i)`, if present.
    pub open spec fn subtable(self, t: int, i: int) -> Option<int> {
        match self.entry_at(t, i) {
            Some(e) => Some(e.target as int),
            None => None,
        }
    }

    /// The leaf table on the walk for `va`, if every inner level is present.
    pub open spec fn l1_table_of(self, va: u64) -> Option<int> {
        match self.subtable(0, l4_index(va) as int) {
            None => None,
            Some(t3) => match self.subtable(t3, l3_index(va) as int) {
                None => None,
                Some(t2) => self.subtable(t2, l2_index(va) as int),
            },
        }
    }

    /// The physical address and flags that a hardware walk would yield
    /// for `va`: `None` exactly when some level on the path is absent.
    pub open spec fn resolve(self, va: u64) -> Option<(u64, PageFlags)> {
        match self.l1_table_of(va) {
            None => None,
            Some(t1) => match self.entry_at(t1, l1_index(va) as int) {
                None => None,
                Some(e) => Some(((e.target + (va & 0xfff)) as u64, e.flags)),
            },
        }
    }

    /// How many intermediate tables a `map` of `va` would have to create.
    pub open spec fn missing_tables(self, va: u64) -> int {
        match self.subtable(0, l4_index(va) as int) {
            None => 3,
            Some(t3) => match self.subtable(t3, l3_index(va) as int) {
                None => 2,
                Some(t2) => match self.subtable(t2, l2_index(va) as int) {
                    None => 1,
                    Some(_) => 0,
                },
            },
        }
    }

    pub fn phys_offset(&self) -> (o: u64)
        ensures
            o == self.offset_spec(),
    {
        self.phys_offset
    }

    /// Virtual address at which the kernel can edit the given table
    /// through the linear physical-memory mapping.
    pub fn table_edit_address(&self, t: usize) -> (va: Option<u64>)
        requires
            self.wf(),
            t < self.arena().len(),
        ensures
            match va {
                Some(v) => v == self.arena()[t as int].frame + self.offset_spec(),
                None => self.arena()[t as int].frame + self.offset_spec() > u64::MAX,
            },
    {
        self.tables[t].frame.checked_add(self.phys_offset)
    }

    fn empty_table(level: u64, frame: u64) -> (t: PageTable)
        ensures
            t.level == level,
            t.frame == frame,
            t.entries@.len() == 512,
            forall|i: int| 0 <= i < 512 ==> #[trigger] t.entries@[i] is None,
    {
        let mut entries: Vec<Option<Entry>> = Vec::new();
        let mut k: usize = 0;
        while k < 512
            invariant
                k <= 512,
                entries@.len() == k,
                forall|i: int| 0 <= i < k ==> #[trigger] entries@[i] is None,
            decreases 512 - k,
        {
            entries.push(None);
            k = k + 1;
        }
        PageTable { frame, level, entries }
    }

    /// Captures the linear physical-memory offset and builds an empty
    /// root table on a fresh frame. Fails only when no frame is left.
    pub fn init(phys_offset: u64, fa: &mut BootInfoFrameAllocator) -> (r: Result<Mapper, MapError>)
        requires
            old(fa).wf(),
        ensures
            final(fa).wf(),
            final(fa).frames_seq() == old(fa).frames_seq(),
            match r {
                Ok(m) => {
                    &&& m.wf()
                    &&& m.offset_spec() == phys_offset
                    &&& m.frames_from(*final(fa))
                    &&& old(fa).remaining() > 0
                    &&& final(fa).cursor() == old(fa).cursor() + 1
                    &&& forall|va: u64| #[trigger] m.resolve(va) is None
                    &&& forall|va: u64| #[trigger] m.missing_tables(va) == 3
                },
                Err(e) => {
                    &&& e is OutOfFrames
                    &&& old(fa).remaining() == 0
                    &&& *final(fa) == *old(fa)
                },
            },
    {
        match fa.allocate() {
            None => Err(MapError::OutOfFrames),
            Some(f) => {
                let root = Self::empty_table(4, f);
                let mut tables: Vec<PageTable> = Vec::new();
                tables.push(root);
                let m = Mapper { phys_offset, tables };
                proof {
                    assert forall|t: int, i: int, c: int| #[trigger] m.inner_points(t, i, c)
                        implies false by {
                        assert(m.entry_at(t, i) is None);
                    }
                    assert forall|va: u64| #[trigger] m.resolve(va) is None by {
                        lemma_indices_bounded(va);
                        assert(m.entry_at(0, l4_index(va) as int) is None);
                    }
                    assert forall|va: u64| #[trigger] m.missing_tables(va) == 3 by {
                        lemma_indices_bounded(va);
                        assert(m.entry_at(0, l4_index(va) as int) is None);
                    }
                    assert(fa.served().last() == f);
                    assert(fa.served().contains(f));
                }
                Ok(m)
            },
        }
    }

    /// Walks the structure from the root with the address-derived indices
    /// and stops at the first absent entry: that query is a normal,
    /// non-fatal `None`.
    pub fn translate(&self, va: u64) -> (r: Option<(u64, PageFlags)>)
        requires
            self.wf(),
            va < ADDRESS_SPACE_END,
        ensures
            r == self.resolve(va),
    {
        proof {
            lemma_indices_bounded(va);
        }
        let tlen = self.tables.len();
        let i4 = index4(va);
        let e4 = self.tables[0].entries[i4];
        match e4 {
            None => None,
            Some(e) => {
                proof {
                    assert(self.inner_points(0, i4 as int, e.target as int));
                    assert(e.target < tlen as u64);
                }
                let t3 = e.target as usize;
                let i3 = index3(va);
                let e3 = self.tables[t3].entries[i3];
                match e3 {
                    None => None,
                    Some(e) => {
                        proof {
                            assert(self.inner_points(t3 as int, i3 as int, e.target as int));
                            assert(e.target < tlen as u64);
                        }
                        let t2 = e.target as usize;
                        let i2 = index2(va);
                        let e2 = self.tables[t2].entries[i2];
                        match e2 {
                            None => None,
                            Some(e) => {
                                proof {
                                    assert(self.inner_points(t2 as int, i2 as int, e.target as int));
                                    assert(e.target < tlen as u64);
                                }
                                let t1 = e.target as usize;
                                let i1 = index1(va);
                                let e1 = self.tables[t1].entries[i1];
                                match e1 {
                                    None => None,
                                    Some(e) => {
                                        proof {
                                            lemma_aligned_add_offset(e.target, va & 0xfff);
                                        }
                                        Some((e.target + (va & 0xfff), e.flags))
                                    },
                                }
                            },
                        }
                    },
                }
            },
        }
    }

    /// Creates an empty child table on the fresh frame and makes the
    /// absent inner entry `(t, i)` point at it. No resolution changes:
    /// the walk that reaches the new table finds only absent entries.
    fn link(&mut self, t: usize, i: usize, frame: u64, cflags: PageFlags) -> (c: usize)
        requires
            old(self).wf(),
            t < old(self).arena().len(),
            i < 512,
            old(self).arena()[t as int].level >= 2,
            old(self).entry_at(t as int, i as int) is None,
            frame % 4096 == 0,
            forall|u: int| 0 <= u < old(self).arena().len() ==>
                (#[trigger] old(self).arena()[u]).frame != frame,
        ensures
            final(self).wf(),
            final(self).offset_spec() == old(self).offset_spec(),
            c == old(self).arena().len(),
            final(self).arena().len() == old(self).arena().len() + 1,
            final(self).arena()[c as int].frame == frame,
            final(self).arena()[c as int].level == old(self).arena()[t as int].level - 1,
            forall|u: int| 0 <= u < old(self).arena().len() ==>
                (#[trigger] final(self).arena()[u]).frame == old(self).arena()[u].frame
                    && final(self).arena()[u].level == old(self).arena()[u].level,
            final(self).subtable(t as int, i as int) == Some(c as int),
            forall|j: int| 0 <= j < 512 ==> #[trigger] final(self).entry_at(c as int, j) is None,
            forall|u: int, j: int| 0 <= u < old(self).arena().len() && 0 <= j < 512
                && !(u == t as int && j == i as int) ==>
                #[trigger] final(self).entry_at(u, j) == old(self).entry_at(u, j),
            forall|vb: u64| #[trigger] final(self).resolve(vb) == old(self).resolve(vb),
            forall|vb: u64| old(self).missing_tables(vb) == 0 ==>
                #[trigger] final(self).missing_tables(vb) == 0,
    {
        let ghost m1 = *self;
        let c = self.tables.len();
        let level = self.tables[t].level;
        let child = Self::empty_table(level - 1, frame);
        self.tables.push(child);
        self.tables[t].entries[i] = Some(Entry { target: c as u64, flags: cflags });
        proof {
            let m2 = *self;
            let ti = t as int;
            let ii = i as int;
            let ci = c as int;
            assert(m2.arena()[ci].level == m1.arena()[ti].level - 1);
            assert(m2.entry_at(ti, ii) == Some(Entry { target: c as u64, flags: cflags }));
            assert forall|u: int, j: int| 0 <= u < m1.arena().len() && 0 <= j < 512
                && !(u == ti && j == ii)
                implies #[trigger] m2.entry_at(u, j) == m1.entry_at(u, j) by {
                assert(m2.arena()[u].entries@ =~= m1.arena()[u].entries@ || u == ti);
            }
            // old pointer facts carry over, and the new entry is the only
            // one that names the fresh slot
            assert forall|u: int, j: int, d: int| #[trigger] m2.inner_points(u, j, d)
                implies (m1.inner_points(u, j, d) || (u == ti && j == ii && d == ci)) by {
                if u < m1.arena().len() {
                    if !(u == ti && j == ii) {
                        assert(m2.entry_at(u, j) == m1.entry_at(u, j));
                    }
                } else {
                    assert(m2.entry_at(u, j) is None);
                }
            }
            assert forall|u: int, j: int, d: int| #[trigger] m1.inner_points(u, j, d)
                implies m2.inner_points(u, j, d) by {
                assert(!(u == ti && j == ii));
                assert(m2.entry_at(u, j) == m1.entry_at(u, j));
            }
            assert(m2.wf()) by {
                assert forall|u1: int, j1: int, u2: int, j2: int, d: int|
                    #[trigger] m2.inner_points(u1, j1, d) && #[trigger] m2.inner_points(u2, j2, d)
                        implies u1 == u2 && j1 == j2 by {
                    if m1.inner_points(u1, j1, d) && m1.inner_points(u2, j2, d) {
                    } else if !m1.inner_points(u1, j1, d) && !m1.inner_points(u2, j2, d) {
                    } else if m1.inner_points(u1, j1, d) {
                        // d == ci is out of range for m1
                        assert(d < m1.arena().len());
                        assert(false);
                    } else {
                        assert(d < m1.arena().len());
                        assert(false);
                    }
                }
            }
            assert forall|vb: u64| #[trigger] m2.resolve(vb) == m1.resolve(vb) by {
                lemma_indices_bounded(vb);
                let j4 = l4_index(vb) as int;
                let j3 = l3_index(vb) as int;
                let j2 = l2_index(vb) as int;
                let j1 = l1_index(vb) as int;
                if ti == 0 && ii == j4 {
                    // the new path ends in an empty table
                    assert(m1.subtable(0, j4) is None);
                    assert(m2.subtable(0, j4) == Some(ci));
                    assert(m2.entry_at(ci, j3) is None);
                    assert(m2.resolve(vb) is None);
                } else {
                    assert(m2.entry_at(0, j4) == m1.entry_at(0, j4));
                    match m1.entry_at(0, j4) {
                        None => {},
                        Some(e4) => {
                            let u3 = e4.target as int;
                            assert(m1.inner_points(0, j4, u3));
                            assert(0 <= u3 < m1.arena().len());
                            if ti == u3 && ii == j3 {
                                assert(m1.subtable(u3, j3) is None);
                                assert(m2.subtable(u3, j3) == Some(ci));
                                assert(m2.entry_at(ci, j2) is None);
                                assert(m2.resolve(vb) is None);
                            } else {
                                assert(m2.entry_at(u3, j3) == m1.entry_at(u3, j3));
                                match m1.entry_at(u3, j3) {
                                    None => {},
                                    Some(e3) => {
                                        let u2 = e3.target as int;
                                        assert(m1.inner_points(u3, j3, u2));
                                        assert(0 <= u2 < m1.arena().len());
                                        if ti == u2 && ii == j2 {
                                            assert(m1.subtable(u2, j2) is None);
                                            assert(m2.subtable(u2, j2) == Some(ci));
                                            assert(m2.entry_at(ci, j1) is None);
                                            assert(m2.resolve(vb) is None);
                                        } else {
                                            assert(m2.entry_at(u2, j2) == m1.entry_at(u2, j2));
                                            match m1.entry_at(u2, j2) {
                                                None => {},
                                                Some(e2) => {
                                                    let u1 = e2.target as int;
                                                    assert(m1.inner_points(u2, j2, u1));
                                                    assert(0 <= u1 < m1.arena().len());
                                                    // a leaf table has level 1, the linked
                                                    // entry sits on level >= 2
                                                    assert(m1.arena()[u1].level == 1);
                                                    assert(u1 != ti);
                                                    assert(m2.entry_at(u1, j1) == m1.entry_at(u1, j1));
                                                },
                                            }
                                        }
                                    },
                                }
                            }
                        },
                    }
                }
            }
            assert forall|vb: u64| m1.missing_tables(vb) == 0
                implies #[trigger] m2.missing_tables(vb) == 0 by {
                lemma_indices_bounded(vb);
                let j4 = l4_index(vb) as int;
                let j3 = l3_index(vb) as int;
                let j2 = l2_index(vb) as int;
                let u3 = m1.subtable(0, j4).unwrap();
                assert(m1.inner_points(0, j4, u3));
                let u2 = m1.subtable(u3, j3).unwrap();
                assert(m1.inner_points(u3, j3, u2));
                assert(m2.entry_at(0, j4) == m1.entry_at(0, j4));
                assert(m2.entry_at(u3, j3) == m1.entry_at(u3, j3));
                assert(m2.entry_at(u2, j2) == m1.entry_at(u2, j2));
            }
        }
        c
    }

    /// Walks and creates each intermediate level as needed — allocating a
    /// fresh frame and a zero-initialized table whenever an inner entry is
    /// absent — then writes the leaf entry with `frame` and `flags`. Every
    /// intermediate frame becomes permanently owned by the translation
    /// structure. Fails with `AlreadyMapped` when the leaf entry is
    /// already present (nothing is changed then), or with `OutOfFrames`
    /// when table allocation fails (tables created up to that point stay,
    /// but no resolution changes).
    #[verifier::rlimit(100)]
    pub fn map(&mut self, va: u64, frame: u64, flags: PageFlags, fa: &mut BootInfoFrameAllocator)
        -> (r: Result<(), MapError>)
        requires
            old(self).wf(),
            old(fa).wf(),
            old(self).frames_from(*old(fa)),
            va < ADDRESS_SPACE_END,
            va % 4096 == 0,
            frame % 4096 == 0,
        ensures
            final(self).wf(),
            final(fa).wf(),
            final(self).frames_from(*final(fa)),
            final(self).offset_spec() == old(self).offset_spec(),
            final(fa).frames_seq() == old(fa).frames_seq(),
            match r {
                Ok(_) => {
                    &&& old(self).resolve(va) is None
                    &&& old(fa).remaining() >= old(self).missing_tables(va)
                    &&& final(fa).cursor() == old(fa).cursor() + old(self).missing_tables(va)
                    &&& forall|vb: u64| vb < ADDRESS_SPACE_END ==>
                            #[trigger] final(self).resolve(vb) ==
                                (if page_base(vb) == va {
                                    Some::<(u64, PageFlags)>((((frame + (vb & 0xfff)) as u64), flags))
                                } else {
                                    old(self).resolve(vb)
                                })
                },
                Err(MapError::AlreadyMapped) => {
                    &&& old(self).resolve(va) is Some
                    &&& *final(self) == *old(self)
                    &&& *final(fa) == *old(fa)
                },
                Err(MapError::OutOfFrames) => {
                    &&& old(self).resolve(va) is None
                    &&& old(fa).remaining() < old(self).missing_tables(va)
                    &&& final(fa).remaining() == 0
                    &&& forall|vb: u64| #[trigger] final(self).resolve(vb) == old(self).resolve(vb)
                },
            },
    {
        proof {
            lemma_indices_bounded(va);
        }
        let ghost m0 = *self;
        let ghost fa0 = *fa;
        let i4 = index4(va);
        let i3 = index3(va);
        let i2 = index2(va);
        let i1 = index1(va);
        let inner_flags = PageFlags { writable: true, user: false, no_exec: false };

        // level 4 -> level 3
        let tlen4 = self.tables.len();
        let t3: usize = match self.tables[0].entries[i4] {
            Some(e) => {
                proof {
                    assert(self.inner_points(0, i4 as int, e.target as int));
                    assert(e.target < tlen4 as u64);
                }
                e.target as usize
            },
            None => {
                proof {
                    assert(m0.resolve(va) is None);
                    assert(m0.missing_tables(va) == 3);
                }
                match fa.allocate() {
                    None => {
                        return Err(MapError::OutOfFrames);
                    },
                    Some(f) => {
                        proof {
                            lemma_frames_from_push(*self, fa0, *fa, f);
                            assert forall|u: int| 0 <= u < self.arena().len()
                                implies (#[trigger] self.arena()[u]).frame != f by {
                                assert(fa0.served().contains(self.arena()[u].frame));
                            }
                        }
                        let c = self.link(0, i4, f, inner_flags);
                        proof {
                            assert(fa.served()[fa.served().len() - 1] == f);
                            assert(fa.served().contains(f));
                            assert forall|u: int| 0 <= u < self.arena().len()
                                implies fa.served().contains((#[trigger] self.arena()[u]).frame) by {
                                if u < self.arena().len() - 1 {
                                    assert(self.arena()[u].frame == m0.arena()[u].frame);
                                }
                            }
                        }
                        c
                    },
                }
            },
        };
        let ghost ma = *self;
        let ghost faa = *fa;

        // level 3 -> level 2
        let tlen3 = self.tables.len();
        let t2: usize = match self.tables[t3].entries[i3] {
            Some(e) => {
                proof {
                    assert(self.inner_points(t3 as int, i3 as int, e.target as int));
                    assert(e.target < tlen3 as u64);
                }
                e.target as usize
            },
            None => {
                proof {
                    if ma == m0 {
                        assert(m0.subtable(0, i4 as int) == Some(t3 as int));
                        assert(m0.resolve(va) is None);
                        assert(m0.missing_tables(va) == 2);
                    }
                }
                match fa.allocate() {
                    None => {
                        return Err(MapError::OutOfFrames);
                    },
                    Some(f) => {
                        proof {
                            lemma_frames_from_push(*self, faa, *fa, f);
                            assert forall|u: int| 0 <= u < self.arena().len()
                                implies (#[trigger] self.arena()[u]).frame != f by {
                                assert(faa.served().contains(self.arena()[u].frame));
                            }
                        }
                        let c = self.link(t3, i3, f, inner_flags);
                        proof {
                            assert(fa.served()[fa.served().len() - 1] == f);
                            assert forall|u: int| 0 <= u < self.arena().len()
                                implies fa.served().contains((#[trigger] self.arena()[u]).frame) by {
                                if u < self.arena().len() - 1 {
                                    assert(self.arena()[u].frame == ma.arena()[u].frame);
                                }
                            }
                        }
                        c
                    },
                }
            },
        };
        let ghost mb = *self;
        let ghost fab = *fa;

        // level 2 -> level 1
        let tlen2 = self.tables.len();
        let t1: usize = match self.tables[t2].entries[i2] {
            Some(e) => {
                proof {
                    assert(self.inner_points(t2 as int, i2 as int, e.target as int));
                    assert(e.target < tlen2 as u64);
                }
                e.target as usize
            },
            None => {
                proof {
                    if mb == m0 {
                        assert(m0.subtable(0, i4 as int) == Some(t3 as int));
                        assert(m0.subtable(t3 as int, i3 as int) == Some(t2 as int));
                        assert(m0.resolve(va) is None);
                        assert(m0.missing_tables(va) == 1);
                    }
                }
                match fa.allocate() {
                    None => {
                        return Err(MapError::OutOfFrames);
                    },
                    Some(f) => {
                        proof {
                            lemma_frames_from_push(*self, fab, *fa, f);
                            assert forall|u: int| 0 <= u < self.arena().len()
                                implies (#[trigger] self.arena()[u]).frame != f by {
                                assert(fab.served().contains(self.arena()[u].frame));
                            }
                        }
                        let c = self.link(t2, i2, f, inner_flags);
                        proof {
                            assert(fa.served()[fa.served().len() - 1] == f);
                            assert forall|u: int| 0 <= u < self.arena().len()
                                implies fa.served().contains((#[trigger] self.arena()[u]).frame) by {
                                if u < self.arena().len() - 1 {
                                    assert(self.arena()[u].frame == mb.arena()[u].frame);
                                }
                            }
                        }
                        c
                    },
                }
            },
        };
        let ghost mc = *self;

        proof {
            // the full inner path is present in the current state
            assert(mc.subtable(0, i4 as int) == Some(t3 as int));
            assert(mc.subtable(t3 as int, i3 as int) == Some(t2 as int));
            assert(mc.subtable(t2 as int, i2 as int) == Some(t1 as int));
            assert(mc.inner_points(t2 as int, i2 as int, t1 as int));
            assert(mc.l1_table_of(va) == Some(t1 as int));
            assert(mc.arena()[t1 as int].level == 1);
            if mc == m0 {
                assert(m0.missing_tables(va) == 0);
            }
        }

        // leaf entry
        match self.tables[t1].entries[i1] {
            Some(_) => {
                proof {
                    assert(mc == m0);
                    assert(m0.resolve(va) is Some);
                }
                Err(MapError::AlreadyMapped)
            },
            None => {
                proof {
                    assert(mc.resolve(va) is None);
                    if mc == m0 {
                        assert(m0.resolve(va) is None);
                    }
                }
                self.tables[t1].entries[i1] = Some(Entry { target: frame, flags });
                proof {
                    assert(self.arena()[t1 as int].entries@ =~=
                        mc.arena()[t1 as int].entries@.update(
                            l1_index(va) as int,
                            Some(Entry { target: frame, flags }),
                        ));
                    lemma_leaf_write(mc, *self, t1 as int, va, frame, flags);
                    assert forall|vb: u64| vb < ADDRESS_SPACE_END implies
                        #[trigger] self.resolve(vb) ==
                            (if page_base(vb) == va {
                                Some::<(u64, PageFlags)>((((frame + (vb & 0xfff)) as u64), flags))
                            } else {
                                m0.resolve(vb)
                            }) by {
                        assert(ma.resolve(vb) == m0.resolve(vb));
                        assert(mb.resolve(vb) == ma.resolve(vb));
                        assert(mc.resolve(vb) == mb.resolve(vb));
                    }
                }
                Ok(())
            },
        }
    }
}

} // verus!
