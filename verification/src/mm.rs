//! Per-task address space: the set of mapped virtual pages, each with its
//! permission bits and its contents, plus the heap bounds `sbrk` moves.
//!
//! The page table is modelled as a list of mapped pages with pairwise
//! distinct page numbers; the contracts speak of it through the spec
//! functions `is_mapped`, `perm_at`, `byte_at` and the map view `mem_map`.

use vstd::arithmetic::div_mod::lemma_div_is_ordered;
use vstd::arithmetic::div_mod::lemma_fundamental_div_mod;
use vstd::prelude::*;

use crate::MAX_VA;
use crate::MAX_VPN;
use crate::PAGE_SIZE;

verus! {

/// Two addresses on the same page at the same offset are the same address.
pub proof fn lemma_same_page_same_offset(a: int, b: int)
    requires
        a / (PAGE_SIZE as int) == b / (PAGE_SIZE as int),
        a % (PAGE_SIZE as int) == b % (PAGE_SIZE as int),
    ensures
        a == b,
{
    lemma_fundamental_div_mod(a, PAGE_SIZE as int);
    lemma_fundamental_div_mod(b, PAGE_SIZE as int);
}


/// Page number containing address `a`.
pub open spec fn vpn_floor(a: int) -> int {
    a / (PAGE_SIZE as int)
}

/// First page number at or above address `a`.
pub open spec fn vpn_ceil(a: int) -> int {
    (a + PAGE_SIZE - 1) / (PAGE_SIZE as int)
}

/// One mapped virtual page: its page number, its permission bits and its
/// contents.
pub struct Frame {
    pub vpn: usize,
    pub perm: u8,
    pub bytes: Vec<u8>,
}

/// What the contracts record of one mapped page.
pub struct PageInfo {
    pub perm: u8,
    pub bytes: Seq<u8>,
}

impl Frame {
    pub open spec fn wf(self) -> bool {
        self.vpn < MAX_VPN && self.bytes@.len() == PAGE_SIZE
    }

    pub open spec fn info(self) -> PageInfo {
        PageInfo { perm: self.perm, bytes: self.bytes@ }
    }
}

/// Whether some frame of `s` maps virtual page `vpn`.
pub open spec fn seq_is_mapped(s: Seq<Frame>, vpn: int) -> bool {
    exists|i: int| 0 <= i < s.len() && s[i].vpn == vpn
}

/// Index of the frame of `s` mapping `vpn` (well defined under `seq_unique`).
pub open spec fn seq_index_of(s: Seq<Frame>, vpn: int) -> int {
    choose|i: int| 0 <= i < s.len() && s[i].vpn == vpn
}

pub open spec fn seq_frame_at(s: Seq<Frame>, vpn: int) -> Frame {
    s[seq_index_of(s, vpn)]
}

/// No two frames of `s` map the same virtual page.
pub open spec fn seq_unique(s: Seq<Frame>) -> bool {
    forall|i: int, j: int| 0 <= i < j < s.len() ==> s[i].vpn != s[j].vpn
}

/// Replacing the frame at `i` by `f` (same page number) through
/// `swap_remove(i)` followed by `push(f)` keeps every other mapping.
proof fn lemma_swap_remove_push(s: Seq<Frame>, i: int, f: Frame)
    requires
        seq_unique(s),
        0 <= i < s.len(),
        f.vpn == s[i].vpn,
        f.wf(),
        forall|k: int| 0 <= k < s.len() ==> (#[trigger] s[k]).wf(),
    ensures
        ({
            let s2 = s.update(i, s.last()).drop_last().push(f);
            &&& s2.len() == s.len()
            &&& seq_unique(s2)
            &&& forall|k: int| 0 <= k < s2.len() ==> (#[trigger] s2[k]).wf()
            &&& seq_is_mapped(s2, f.vpn as int)
            &&& seq_frame_at(s2, f.vpn as int) == f
            &&& forall|w: int| w != f.vpn ==> (seq_is_mapped(s2, w) <==> seq_is_mapped(s, w))
            &&& forall|w: int|
                w != f.vpn && seq_is_mapped(s, w) ==> seq_frame_at(s2, w) == seq_frame_at(s, w)
        }),
{
    let s2 = s.update(i, s.last()).drop_last().push(f);
    let n = s.len();
    assert forall|j: int| 0 <= j < s2.len() implies (#[trigger] s2[j] == f || (exists|k: int|
        0 <= k < s.len() && k != i && s2[j] == s[k])) by {
        if j == n - 1 {
            assert(s2[j] == f);
        } else if j == i {
            assert(s2[j] == s[n - 1] && i != n - 1);
        } else {
            assert(s2[j] == s[j]);
        }
    }
    assert forall|k: int| 0 <= k < s2.len() implies (#[trigger] s2[k]).wf() by {
        if s2[k] == f {
        } else {
            let k2 = choose|k2: int| 0 <= k2 < s.len() && k2 != i && s2[k] == s[k2];
            assert(s[k2].wf());
        }
    }
    assert(seq_unique(s2)) by {
        assert forall|a: int, b: int| 0 <= a < b < s2.len() implies s2[a].vpn != s2[b].vpn by {
            if b == s2.len() - 1 {
                if a == i {
                    assert(s2[a] == s[n - 1] && i != n - 1);
                } else {
                    assert(s2[a] == s[a]);
                }
            } else {
                if a == i {
                    assert(s2[a] == s[n - 1] && s2[b] == s[b] && b != n - 1);
                } else if b == i {
                    assert(s2[b] == s[n - 1] && s2[a] == s[a] && a != n - 1);
                } else {
                    assert(s2[a] == s[a] && s2[b] == s[b]);
                }
            }
        }
    }
    assert(s2[s2.len() - 1] == f);
    assert(seq_is_mapped(s2, f.vpn as int));
    let fi = seq_index_of(s2, f.vpn as int);
    assert(0 <= fi < s2.len() && s2[fi].vpn == f.vpn);
    assert(fi == s2.len() - 1);
    assert forall|w: int| w != f.vpn && seq_is_mapped(s, w) implies seq_is_mapped(s2, w)
        && seq_frame_at(s2, w) == seq_frame_at(s, w) by {
        let k = seq_index_of(s, w);
        assert(0 <= k < n && s[k].vpn == w);
        assert(k != i);
        let j: int = if k == n - 1 { i } else { k };
        assert(s2[j] == s[k]);
        assert(s2[j].vpn == w);
        assert(seq_is_mapped(s2, w));
        let j2 = seq_index_of(s2, w);
        assert(0 <= j2 < s2.len() && s2[j2].vpn == w);
        assert(j2 == j);
    }
    assert forall|w: int| w != f.vpn && seq_is_mapped(s2, w) implies seq_is_mapped(s, w) by {
        let j = seq_index_of(s2, w);
        assert(0 <= j < s2.len() && s2[j].vpn == w);
        assert(s2[j] != f);
        let k = choose|k: int| 0 <= k < s.len() && k != i && s2[j] == s[k];
        assert(s[k].vpn == w);
    }
}

/// Removing the frame at `i` through `swap_remove(i)` unmaps exactly its
/// page and keeps every other mapping.
proof fn lemma_swap_remove(s: Seq<Frame>, i: int)
    requires
        seq_unique(s),
        0 <= i < s.len(),
        forall|k: int| 0 <= k < s.len() ==> (#[trigger] s[k]).wf(),
    ensures
        ({
            let s2 = s.update(i, s.last()).drop_last();
            &&& s2.len() == s.len() - 1
            &&& seq_unique(s2)
            &&& forall|k: int| 0 <= k < s2.len() ==> (#[trigger] s2[k]).wf()
            &&& !seq_is_mapped(s2, s[i].vpn as int)
            &&& forall|w: int|
                w != s[i].vpn ==> (seq_is_mapped(s2, w) <==> seq_is_mapped(s, w))
            &&& forall|w: int|
                w != s[i].vpn && seq_is_mapped(s, w) ==> seq_frame_at(s2, w) == seq_frame_at(
                    s,
                    w,
                )
        }),
{
    let s2 = s.update(i, s.last()).drop_last();
    let n = s.len();
    assert forall|j: int| 0 <= j < s2.len() implies (exists|k: int|
        0 <= k < s.len() && k != i && #[trigger] s2[j] == s[k]) by {
        if j == i {
            assert(s2[j] == s[n - 1] && i != n - 1);
        } else {
            assert(s2[j] == s[j]);
        }
    }
    assert forall|k: int| 0 <= k < s2.len() implies (#[trigger] s2[k]).wf() by {
        let k2 = choose|k2: int| 0 <= k2 < s.len() && k2 != i && s2[k] == s[k2];
        assert(s[k2].wf());
    }
    assert(seq_unique(s2)) by {
        assert forall|a: int, b: int| 0 <= a < b < s2.len() implies s2[a].vpn != s2[b].vpn by {
            if a == i {
                assert(s2[a] == s[n - 1] && s2[b] == s[b] && b != n - 1);
            } else if b == i {
                assert(s2[b] == s[n - 1] && s2[a] == s[a] && a != n - 1);
            } else {
                assert(s2[a] == s[a] && s2[b] == s[b]);
            }
        }
    }
    assert(!seq_is_mapped(s2, s[i].vpn as int)) by {
        if seq_is_mapped(s2, s[i].vpn as int) {
            let j = seq_index_of(s2, s[i].vpn as int);
            assert(0 <= j < s2.len() && s2[j].vpn == s[i].vpn);
            let k = choose|k: int| 0 <= k < s.len() && k != i && s2[j] == s[k];
            assert(s[k].vpn == s[i].vpn);
            assert(false);
        }
    }
    assert forall|w: int| w != s[i].vpn && seq_is_mapped(s, w) implies seq_is_mapped(s2, w)
        && seq_frame_at(s2, w) == seq_frame_at(s, w) by {
        let k = seq_index_of(s, w);
        assert(0 <= k < n && s[k].vpn == w);
        assert(k != i);
        let j: int = if k == n - 1 { i } else { k };
        assert(s2[j] == s[k]);
        assert(s2[j].vpn == w);
        assert(seq_is_mapped(s2, w));
        let j2 = seq_index_of(s2, w);
        assert(0 <= j2 < s2.len() && s2[j2].vpn == w);
        assert(j2 == j);
    }
    assert forall|w: int| w != s[i].vpn && seq_is_mapped(s2, w) implies seq_is_mapped(s, w) by {
        let j = seq_index_of(s2, w);
        assert(0 <= j < s2.len() && s2[j].vpn == w);
        let k = choose|k: int| 0 <= k < s.len() && k != i && s2[j] == s[k];
        assert(s[k].vpn == w);
    }
}

/// Appending a frame for a fresh page keeps every existing mapping.
proof fn lemma_push_frame(s: Seq<Frame>, f: Frame)
    requires
        seq_unique(s),
        !seq_is_mapped(s, f.vpn as int),
    ensures
        ({
            let s2 = s.push(f);
            &&& seq_unique(s2)
            &&& seq_is_mapped(s2, f.vpn as int)
            &&& seq_frame_at(s2, f.vpn as int) == f
            &&& forall|w: int| w != f.vpn ==> (seq_is_mapped(s2, w) <==> seq_is_mapped(s, w))
            &&& forall|w: int|
                w != f.vpn && seq_is_mapped(s, w) ==> seq_frame_at(s2, w) == seq_frame_at(s, w)
        }),
{
    let s2 = s.push(f);
    let n = s.len();
    assert(seq_unique(s2)) by {
        assert forall|a: int, b: int| 0 <= a < b < s2.len() implies s2[a].vpn != s2[b].vpn by {
            if b == n {
                assert(s2[a] == s[a] && s2[b] == f);
                if s[a].vpn == f.vpn {
                    assert(seq_is_mapped(s, f.vpn as int));
                }
            } else {
                assert(s2[a] == s[a] && s2[b] == s[b]);
            }
        }
    }
    assert(s2[n as int] == f);
    assert(seq_is_mapped(s2, f.vpn as int));
    let fi = seq_index_of(s2, f.vpn as int);
    assert(0 <= fi < s2.len() && s2[fi].vpn == f.vpn);
    assert(fi == n) by {
        if fi < n {
            assert(s2[fi] == s[fi]);
            assert(seq_is_mapped(s, f.vpn as int));
        }
    }
    assert forall|w: int| w != f.vpn && seq_is_mapped(s, w) implies seq_is_mapped(s2, w)
        && seq_frame_at(s2, w) == seq_frame_at(s, w) by {
        let k = seq_index_of(s, w);
        assert(0 <= k < n && s[k].vpn == w);
        assert(s2[k] == s[k]);
        assert(seq_is_mapped(s2, w));
        let j2 = seq_index_of(s2, w);
        assert(0 <= j2 < s2.len() && s2[j2].vpn == w);
        assert(j2 != n);
        assert(s2[j2] == s[j2]);
        assert(j2 == k);
    }
    assert forall|w: int| w != f.vpn && seq_is_mapped(s2, w) implies seq_is_mapped(s, w) by {
        let j = seq_index_of(s2, w);
        assert(0 <= j < s2.len() && s2[j].vpn == w);
        assert(j != n);
        assert(s2[j] == s[j]);
    }
}

/// A page's worth of zero bytes.
pub open spec fn is_zero_page(bs: Seq<u8>) -> bool {
    bs.len() == PAGE_SIZE && forall|i: int| 0 <= i < bs.len() ==> bs[i] == 0
}

/// A fresh zero-filled page content.
fn zero_page() -> (r: Vec<u8>)
    ensures
        is_zero_page(r@),
{
    let mut v: Vec<u8> = Vec::new();
    let mut i: usize = 0;
    while i < PAGE_SIZE
        invariant
            i <= PAGE_SIZE,
            v@.len() == i,
            forall|j: int| 0 <= j < i ==> v@[j] == 0,
        decreases PAGE_SIZE - i,
    {
        v.push(0);
        i += 1;
    }
    v
}

/// The address space of one task: its mapped pages and its heap bounds.
pub struct MemorySet {
    pub frames: Vec<Frame>,
    pub heap_bottom: usize,
    pub program_brk: usize,
}

impl MemorySet {
    /// Whether virtual page `vpn` has a mapping.
    pub open spec fn is_mapped(self, vpn: int) -> bool {
        seq_is_mapped(self.frames@, vpn)
    }

    /// Index in `frames` of the mapping of `vpn` (well defined under `wf`).
    pub open spec fn index_of(self, vpn: int) -> int {
        seq_index_of(self.frames@, vpn)
    }

    pub open spec fn frame_at(self, vpn: int) -> Frame {
        seq_frame_at(self.frames@, vpn)
    }

    /// Permission bits of the mapping of `vpn`.
    pub open spec fn perm_at(self, vpn: int) -> u8 {
        self.frame_at(vpn).perm
    }

    /// The byte stored at virtual address `va`.
    pub open spec fn byte_at(self, va: int) -> u8 {
        self.frame_at(va / (PAGE_SIZE as int)).bytes@[va % (PAGE_SIZE as int)]
    }

    pub open spec fn frames_unique(self) -> bool {
        seq_unique(self.frames@)
    }

    pub open spec fn wf(self) -> bool {
        &&& forall|i: int| 0 <= i < self.frames@.len() ==> self.frames@[i].wf()
        &&& self.frames_unique()
        &&& self.heap_bottom % PAGE_SIZE == 0
        &&& self.heap_bottom <= self.program_brk
        &&& self.program_brk <= crate::MAX_VA
    }

    /// The whole address space as a map from page number to page.
    pub open spec fn mem_map(self) -> Map<int, PageInfo> {
        Map::new(|vpn: int| self.is_mapped(vpn), |vpn: int| self.frame_at(vpn).info())
    }

    /// No page of `[start_vpn, end_vpn)` is mapped.
    pub open spec fn range_free(self, start_vpn: int, end_vpn: int) -> bool {
        forall|v: int| start_vpn <= v < end_vpn ==> !self.is_mapped(v)
    }

    /// Every page of `[start_vpn, end_vpn)` is mapped.
    pub open spec fn range_mapped(self, start_vpn: int, end_vpn: int) -> bool {
        forall|v: int| start_vpn <= v < end_vpn ==> self.is_mapped(v)
    }

    /// Every byte of `[va, va + n)` lies on a mapped page.
    pub open spec fn va_range_mapped(self, va: int, n: int) -> bool {
        forall|a: int| va <= a < va + n ==> self.is_mapped(#[trigger] (a / (PAGE_SIZE as int)))
    }

    /// Same pages mapped with the same permissions and the same heap
    /// bounds; contents may differ.
    pub open spec fn same_footprint(self, other: MemorySet) -> bool {
        &&& self.heap_bottom == other.heap_bottom
        &&& self.program_brk == other.program_brk
        &&& forall|vpn: int| self.is_mapped(vpn) <==> other.is_mapped(vpn)
        &&& forall|vpn: int| self.is_mapped(vpn) ==> self.perm_at(vpn) == other.perm_at(vpn)
    }

    /// The bytes of every mapped address outside `[va, va + n)` agree.
    pub open spec fn bytes_unchanged_outside(self, other: MemorySet, va: int, n: int) -> bool {
        forall|a: int|
            (self.is_mapped(#[trigger] (a / (PAGE_SIZE as int))) && !(va <= a < va + n))
                ==> self.byte_at(a) == other.byte_at(a)
    }

    /// An empty address space.
    pub fn new() -> (r: MemorySet)
        ensures
            r.wf(),
            forall|vpn: int| !r.is_mapped(vpn),
            r.heap_bottom == 0,
            r.program_brk == 0,
    {
        MemorySet { frames: Vec::new(), heap_bottom: 0, program_brk: 0 }
    }

    /// Position of the mapping of `vpn` in `frames`, if any.
    fn find_index(&self, vpn: usize) -> (r: Option<usize>)
        ensures
            match r {
                Some(i) => {
                    &&& i < self.frames@.len()
                    &&& self.frames@[i as int].vpn == vpn
                    &&& self.is_mapped(vpn as int)
                    &&& self.frames_unique() ==> self.index_of(vpn as int) == i
                },
                None => !self.is_mapped(vpn as int),
            },
    {
        let n = self.frames.len();
        let mut i: usize = 0;
        while i < n
            invariant
                n == self.frames@.len(),
                i <= n,
                forall|j: int| 0 <= j < i ==> self.frames@[j].vpn != vpn,
            decreases n - i,
        {
            if self.frames[i].vpn == vpn {
                proof {
                    assert(self.is_mapped(vpn as int));
                    if self.frames_unique() {
                        let k = self.index_of(vpn as int);
                        assert(0 <= k < self.frames@.len() && self.frames@[k].vpn == vpn);
                        assert(k == i);
                    }
                }
                return Some(i);
            }
            i += 1;
        }
        None
    }

    /// Page-table lookup: the permission bits of `vpn`'s mapping, if any.
    pub fn translate(&self, vpn: usize) -> (r: Option<u8>)
        requires
            self.wf(),
        ensures
            r is Some <==> self.is_mapped(vpn as int),
            r is Some ==> r == Some(self.perm_at(vpn as int)),
    {
        match self.find_index(vpn) {
            Some(i) => Some(self.frames[i].perm),
            None => None,
        }
    }

    /// The byte stored at virtual address `va`.
    pub fn read_byte(&self, va: usize) -> (r: u8)
        requires
            self.wf(),
            self.is_mapped(va as int / (PAGE_SIZE as int)),
        ensures
            r == self.byte_at(va as int),
    {
        let vpn = va / PAGE_SIZE;
        let i = self.find_index(vpn).unwrap();
        let off = va % PAGE_SIZE;
        self.frames[i].bytes[off]
    }

    /// Store `b` at virtual address `va` of a mapped page.
    pub fn write_byte(&mut self, va: usize, b: u8)
        requires
            old(self).wf(),
            old(self).is_mapped(va as int / (PAGE_SIZE as int)),
        ensures
            final(self).wf(),
            final(self).same_footprint(*old(self)),
            final(self).byte_at(va as int) == b,
            final(self).bytes_unchanged_outside(*old(self), va as int, 1),
    {
        let ghost pre = *self;
        let vpn = va / PAGE_SIZE;
        let off = va % PAGE_SIZE;
        let i = self.find_index(vpn).unwrap();
        let mut f = self.frames.swap_remove(i);
        proof {
            assert(f == pre.frames@[i as int]);
            assert(f.wf());
        }
        f.bytes.set(off, b);
        let ghost fg = f;
        proof {
            lemma_swap_remove_push(pre.frames@, i as int, fg);
        }
        self.frames.push(f);
        proof {
            assert(self.frames@ == pre.frames@.update(i as int, pre.frames@.last()).drop_last()
                .push(fg));
            assert(self.frame_at(vpn as int) == fg);
            assert(fg.bytes@ == pre.frames@[i as int].bytes@.update(off as int, b));
            assert(self.byte_at(va as int) == b);
            assert forall|a: int|
                self.is_mapped(#[trigger] (a / (PAGE_SIZE as int))) && !(va as int <= a < va as int
                    + 1) implies self.byte_at(a) == pre.byte_at(a) by {
                let w = a / (PAGE_SIZE as int);
                if w == vpn as int {
                    assert(self.frame_at(w) == fg);
                    assert(pre.index_of(w) == i as int);
                    assert(pre.frame_at(w) == pre.frames@[i as int]);
                    if a % (PAGE_SIZE as int) == off as int {
                        lemma_same_page_same_offset(a, va as int);
                        assert(false);
                    }
                } else {
                    assert(self.frame_at(w) == pre.frame_at(w));
                }
            }
        }
    }

    /// Map every page of `[start_vpn, end_vpn)`, zero-filled, with
    /// permission bits `perm`.
    pub fn insert_range(&mut self, start_vpn: usize, end_vpn: usize, perm: u8)
        requires
            old(self).wf(),
            start_vpn <= end_vpn <= MAX_VPN,
            old(self).range_free(start_vpn as int, end_vpn as int),
        ensures
            final(self).wf(),
            final(self).heap_bottom == old(self).heap_bottom,
            final(self).program_brk == old(self).program_brk,
            forall|v: int|
                start_vpn as int <= v < end_vpn as int ==> final(self).is_mapped(v) && final(self).perm_at(v) == perm && is_zero_page(final(self).frame_at(v).bytes@),
            forall|v: int|
                !(start_vpn as int <= v < end_vpn as int) ==> (final(self).is_mapped(v) <==> old(self).is_mapped(v)),
            forall|v: int|
                !(start_vpn as int <= v < end_vpn as int) && old(self).is_mapped(v) ==> final(self).frame_at(v) == old(self).frame_at(v),
    {
        let ghost pre = *self;
        let mut v = start_vpn;
        while v < end_vpn
            invariant
                pre.wf(),
                start_vpn <= v <= end_vpn <= MAX_VPN,
                pre.range_free(start_vpn as int, end_vpn as int),
                self.frames_unique(),
                forall|j: int| 0 <= j < self.frames@.len() ==> (#[trigger] self.frames@[j]).wf(),
                self.heap_bottom == pre.heap_bottom,
                self.program_brk == pre.program_brk,
                forall|w: int|
                    start_vpn as int <= w < v as int ==> self.is_mapped(w) && self.perm_at(w)
                        == perm && is_zero_page(self.frame_at(w).bytes@),
                forall|w: int|
                    !(start_vpn as int <= w < v as int) ==> (self.is_mapped(w) <==> pre.is_mapped(
                        w,
                    )),
                forall|w: int|
                    !(start_vpn as int <= w < v as int) && pre.is_mapped(w) ==> self.frame_at(w)
                        == pre.frame_at(w),
            decreases end_vpn - v,
        {
            let ghost mid = *self;
            let f = Frame { vpn: v, perm, bytes: zero_page() };
            let ghost fg = f;
            proof {
                assert(!pre.is_mapped(v as int));
                assert(!mid.is_mapped(v as int));
                lemma_push_frame(mid.frames@, fg);
            }
            self.frames.push(f);
            proof {
                assert(self.frames@ == mid.frames@.push(fg));
                assert(self.frame_at(v as int) == fg);
                assert forall|j: int| 0 <= j < self.frames@.len() implies (
                #[trigger] self.frames@[j]).wf() by {
                    if j < mid.frames@.len() {
                        assert(self.frames@[j] == mid.frames@[j]);
                    } else {
                        assert(self.frames@[j] == fg);
                    }
                }
                assert forall|w: int| start_vpn as int <= w < v as int + 1 implies self.is_mapped(
                    w,
                ) && self.perm_at(w) == perm && is_zero_page(self.frame_at(w).bytes@) by {
                    if w == v as int {
                        assert(self.frame_at(w) == fg);
                    } else {
                        assert(mid.is_mapped(w));
                        assert(self.frame_at(w) == mid.frame_at(w));
                    }
                }
                assert forall|w: int| !(start_vpn as int <= w < v as int + 1) implies (
                self.is_mapped(w) <==> pre.is_mapped(w)) by {
                    assert(self.is_mapped(w) <==> mid.is_mapped(w));
                }
                assert forall|w: int|
                    !(start_vpn as int <= w < v as int + 1) && pre.is_mapped(w) implies
                    self.frame_at(w) == pre.frame_at(w) by {
                    assert(mid.is_mapped(w));
                    assert(self.frame_at(w) == mid.frame_at(w));
                }
            }
            v += 1;
        }
        proof {
            assert(self.wf());
        }
    }

    /// Unmap every page of `[start_vpn, end_vpn)`; each must be mapped.
    pub fn remove_range(&mut self, start_vpn: usize, end_vpn: usize)
        requires
            old(self).wf(),
            start_vpn <= end_vpn,
            old(self).range_mapped(start_vpn as int, end_vpn as int),
        ensures
            final(self).wf(),
            final(self).heap_bottom == old(self).heap_bottom,
            final(self).program_brk == old(self).program_brk,
            forall|v: int| start_vpn as int <= v < end_vpn as int ==> !final(self).is_mapped(v),
            forall|v: int|
                !(start_vpn as int <= v < end_vpn as int) ==> (final(self).is_mapped(v) <==> old(self).is_mapped(v)),
            forall|v: int|
                !(start_vpn as int <= v < end_vpn as int) && old(self).is_mapped(v) ==> final(self).frame_at(v) == old(self).frame_at(v),
    {
        let ghost pre = *self;
        let mut v = start_vpn;
        while v < end_vpn
            invariant
                pre.wf(),
                start_vpn <= v <= end_vpn,
                pre.range_mapped(start_vpn as int, end_vpn as int),
                self.frames_unique(),
                forall|j: int| 0 <= j < self.frames@.len() ==> (#[trigger] self.frames@[j]).wf(),
                self.heap_bottom == pre.heap_bottom,
                self.program_brk == pre.program_brk,
                forall|w: int| start_vpn as int <= w < v as int ==> !self.is_mapped(w),
                forall|w: int|
                    !(start_vpn as int <= w < v as int) ==> (self.is_mapped(w) <==> pre.is_mapped(
                        w,
                    )),
                forall|w: int|
                    !(start_vpn as int <= w < v as int) && pre.is_mapped(w) ==> self.frame_at(w)
                        == pre.frame_at(w),
            decreases end_vpn - v,
        {
            let ghost mid = *self;
            proof {
                assert(pre.is_mapped(v as int));
                assert(mid.is_mapped(v as int));
            }
            let i = self.find_index(v).unwrap();
            proof {
                lemma_swap_remove(mid.frames@, i as int);
            }
            let _ = self.frames.swap_remove(i);
            proof {
                assert(self.frames@ == mid.frames@.update(i as int, mid.frames@.last())
                    .drop_last());
                assert(mid.frames@[i as int].vpn == v);
                assert forall|w: int| start_vpn as int <= w < v as int + 1 implies !self.is_mapped(
                    w,
                ) by {
                    if w == v as int {
                        assert(!self.is_mapped(w));
                    } else {
                        assert(!mid.is_mapped(w));
                        assert(self.is_mapped(w) <==> mid.is_mapped(w));
                    }
                }
                assert forall|w: int| !(start_vpn as int <= w < v as int + 1) implies (
                self.is_mapped(w) <==> pre.is_mapped(w)) by {
                    assert(self.is_mapped(w) <==> mid.is_mapped(w));
                }
                assert forall|w: int|
                    !(start_vpn as int <= w < v as int + 1) && pre.is_mapped(w) implies
                    self.frame_at(w) == pre.frame_at(w) by {
                    assert(mid.is_mapped(w));
                    assert(self.frame_at(w) == mid.frame_at(w));
                }
            }
            v += 1;
        }
    }



    /// Whether the bytes of `s`, followed by one zero byte, stand at
    /// `va` on mapped pages, with no zero byte among them.
    pub open spec fn is_cstr_at(self, va: int, s: Seq<u8>) -> bool {
        &&& va >= 0
        &&& va + s.len() < MAX_VA
        &&& forall|k: int|
            0 <= k < s.len() ==> self.is_mapped(#[trigger] ((va + k) / (PAGE_SIZE as int)))
                && self.byte_at(va + k) == s[k] && s[k] != 0
        &&& self.is_mapped((va + s.len()) / (PAGE_SIZE as int))
        &&& self.byte_at(va + s.len()) == 0
    }

    /// Whether a zero-terminated byte string stands at `va`.
    pub open spec fn has_cstr_at(self, va: int) -> bool {
        exists|s: Seq<u8>| self.is_cstr_at(va, s)
    }

    /// The zero-terminated byte string at `va` (well defined when one is
    /// there: the first zero byte ends it).
    pub open spec fn cstr_at(self, va: int) -> Seq<u8> {
        choose|s: Seq<u8>| self.is_cstr_at(va, s)
    }

    /// Two byte strings satisfying `is_cstr_at` at one address agree.
    pub proof fn lemma_cstr_unique(self, va: int, s1: Seq<u8>, s2: Seq<u8>)
        requires
            self.is_cstr_at(va, s1),
            self.is_cstr_at(va, s2),
        ensures
            s1 == s2,
    {
        if s1.len() < s2.len() {
            assert(self.byte_at(va + s1.len()) == 0);
            assert(s2[s1.len() as int] != 0);
            assert(self.byte_at(va + s1.len()) == s2[s1.len() as int]);
            assert(false);
        }
        if s2.len() < s1.len() {
            assert(self.byte_at(va + s2.len()) == 0);
            assert(s1[s2.len() as int] != 0);
            assert(self.byte_at(va + s2.len()) == s1[s2.len() as int]);
            assert(false);
        }
        assert forall|k: int| 0 <= k < s1.len() implies s1[k] == s2[k] by {
            assert(self.byte_at(va + k) == s1[k]);
            assert(self.byte_at(va + k) == s2[k]);
        }
        assert(s1 =~= s2);
    }

    /// Read the zero-terminated byte string at `va`, walking the page
    /// mapping byte by byte; nothing when an unmapped page comes before
    /// the terminator.
    pub fn read_cstr(&self, va: usize) -> (r: Option<Vec<u8>>)
        requires
            self.wf(),
        ensures
            r is Some <==> self.has_cstr_at(va as int),
            r matches Some(v) ==> self.is_cstr_at(va as int, v@),
    {
        if va >= MAX_VA {
            proof {
                if self.has_cstr_at(va as int) {
                    let s = self.cstr_at(va as int);
                    assert(self.is_cstr_at(va as int, s));
                    assert(va + s.len() < MAX_VA);
                    assert(false);
                }
            }
            return None;
        }
        let mut acc: Vec<u8> = Vec::new();
        let mut a: usize = va;
        while a < MAX_VA
            invariant
                self.wf(),
                va <= a <= MAX_VA,
                acc@.len() == a - va,
                forall|k: int|
                    0 <= k < acc@.len() ==> self.is_mapped(
                        #[trigger] ((va + k) / (PAGE_SIZE as int)),
                    ) && self.byte_at(va as int + k) == acc@[k] && acc@[k] != 0,
            decreases MAX_VA - a,
        {
            if self.translate(a / PAGE_SIZE).is_none() {
                proof {
                    if self.has_cstr_at(va as int) {
                        let s = self.cstr_at(va as int);
                        assert(self.is_cstr_at(va as int, s));
                        if s.len() < acc@.len() {
                            assert(self.byte_at(va + s.len()) == acc@[s.len() as int]);
                            assert(acc@[s.len() as int] != 0);
                            assert(false);
                        } else if s.len() == acc@.len() {
                            assert(self.is_mapped((va + s.len()) / (PAGE_SIZE as int)));
                            assert(va + s.len() == a);
                            assert(false);
                        } else {
                            assert(self.is_mapped(
                                (va as int + acc@.len()) / (PAGE_SIZE as int),
                            ));
                            assert(false);
                        }
                    }
                }
                return None;
            }
            let b = self.read_byte(a);
            if b == 0 {
                proof {
                    assert(self.is_cstr_at(va as int, acc@)) by {
                        assert(va as int + acc@.len() == a);
                        assert(self.byte_at(a as int) == 0);
                    }
                }
                return Some(acc);
            }
            acc.push(b);
            a += 1;
        }
        proof {
            if self.has_cstr_at(va as int) {
                let s = self.cstr_at(va as int);
                assert(self.is_cstr_at(va as int, s));
                assert(va + s.len() < MAX_VA);
                assert(s.len() < acc@.len());
                assert(self.byte_at(va + s.len()) == acc@[s.len() as int]);
                assert(acc@[s.len() as int] != 0);
                assert(false);
            }
        }
        None
    }

    /// Any address on a mapped page lies below `MAX_VA`.
    pub proof fn lemma_mapped_addr_bound(self, a: int)
        requires
            self.wf(),
            a >= 0,
            self.is_mapped(a / (PAGE_SIZE as int)),
        ensures
            a < MAX_VA,
    {
        let vp = a / (PAGE_SIZE as int);
        let i = self.index_of(vp);
        assert(0 <= i < self.frames@.len() && self.frames@[i].vpn == vp);
        assert(self.frames@[i].wf());
        assert(vp < MAX_VPN);
        lemma_fundamental_div_mod(a, PAGE_SIZE as int);
        vstd::arithmetic::div_mod::lemma_remainder_upper(a, PAGE_SIZE as int);
        assert(a == (PAGE_SIZE as int) * vp + a % (PAGE_SIZE as int));
        vstd::arithmetic::mul::lemma_mul_inequality(vp, MAX_VPN as int - 1, PAGE_SIZE as int);
        assert((MAX_VPN as int - 1) * (PAGE_SIZE as int) == MAX_VA as int - PAGE_SIZE as int)
            by (nonlinear_arith)
            requires
                (MAX_VPN as int) * (PAGE_SIZE as int) == MAX_VA as int,
        ;
        assert(vp * (PAGE_SIZE as int) == (PAGE_SIZE as int) * vp) by (nonlinear_arith);
        assert((MAX_VPN as int) * (PAGE_SIZE as int) == MAX_VA as int);
    }

    /// A page of number at least `MAX_VPN` is never mapped.
    pub proof fn lemma_high_page_unmapped(self, vpn: int)
        requires
            self.wf(),
            vpn >= MAX_VPN,
        ensures
            !self.is_mapped(vpn),
    {
        if self.is_mapped(vpn) {
            let i = self.index_of(vpn);
            assert(0 <= i < self.frames@.len() && self.frames@[i].vpn == vpn);
            assert(self.frames@[i].wf());
            assert(false);
        }
    }

    /// An exact copy of this address space, as `fork` needs it.
    pub fn duplicate(&self) -> (r: MemorySet)
        requires
            self.wf(),
        ensures
            r.wf(),
            r.heap_bottom == self.heap_bottom,
            r.program_brk == self.program_brk,
            forall|vpn: int| r.is_mapped(vpn) <==> self.is_mapped(vpn),
            forall|vpn: int|
                self.is_mapped(vpn) ==> r.frame_at(vpn).info() == self.frame_at(vpn).info(),
    {
        let n = self.frames.len();
        let mut frames: Vec<Frame> = Vec::new();
        let mut i: usize = 0;
        while i < n
            invariant
                self.wf(),
                n == self.frames@.len(),
                i <= n,
                frames@.len() == i,
                forall|j: int|
                    0 <= j < i ==> (#[trigger] frames@[j]).vpn == self.frames@[j].vpn
                        && frames@[j].info() == self.frames@[j].info(),
            decreases n - i,
        {
            let src = &self.frames[i];
            let bytes = copy_bytes(&src.bytes);
            frames.push(Frame { vpn: src.vpn, perm: src.perm, bytes });
            i += 1;
        }
        let r = MemorySet { frames, heap_bottom: self.heap_bottom, program_brk: self.program_brk };
        proof {
            assert forall|j: int| 0 <= j < r.frames@.len() implies (#[trigger] r.frames@[j]).wf()
                by {
                assert(self.frames@[j].wf());
                assert(r.frames@[j].info() == self.frames@[j].info());
            }
            assert(seq_unique(r.frames@)) by {
                assert forall|a: int, b: int| 0 <= a < b < r.frames@.len() implies r.frames@[a].vpn
                    != r.frames@[b].vpn by {
                    assert(self.frames@[a].vpn != self.frames@[b].vpn);
                }
            }
            assert forall|vpn: int| r.is_mapped(vpn) <==> self.is_mapped(vpn) by {
                if r.is_mapped(vpn) {
                    let j = seq_index_of(r.frames@, vpn);
                    assert(0 <= j < r.frames@.len() && r.frames@[j].vpn == vpn);
                    assert(self.frames@[j].vpn == vpn);
                }
                if self.is_mapped(vpn) {
                    let j = self.index_of(vpn);
                    assert(0 <= j < self.frames@.len() && self.frames@[j].vpn == vpn);
                    assert(r.frames@[j].vpn == vpn);
                }
            }
            assert forall|vpn: int| self.is_mapped(vpn) implies r.frame_at(vpn).info()
                == self.frame_at(vpn).info() by {
                let j = self.index_of(vpn);
                assert(0 <= j < self.frames@.len() && self.frames@[j].vpn == vpn);
                assert(r.frames@[j].vpn == vpn);
                let j2 = seq_index_of(r.frames@, vpn);
                assert(0 <= j2 < r.frames@.len() && r.frames@[j2].vpn == vpn);
                assert(self.frames@[j2].vpn == vpn);
                assert(j2 == j);
            }
        }
        r
    }

    /// Whether every byte of `[va, va + n)` lies on a mapped page.
    pub fn is_va_range_mapped(&self, va: usize, n: usize) -> (r: bool)
        requires
            self.wf(),
        ensures
            r == self.va_range_mapped(va as int, n as int),
    {
        if n == 0 {
            return true;
        }
        if va >= MAX_VA || n > MAX_VA - va {
            proof {
                let a: int = if va as int >= MAX_VA as int { va as int } else { MAX_VA as int };
                assert(va as int <= a < va as int + n as int);
                lemma_div_is_ordered(MAX_VA as int, a, PAGE_SIZE as int);
                assert(a / (PAGE_SIZE as int) >= MAX_VPN);
                self.lemma_high_page_unmapped(a / (PAGE_SIZE as int));
            }
            return false;
        }
        let mut k: usize = 0;
        while k < n
            invariant
                self.wf(),
                k <= n,
                va + n <= MAX_VA,
                forall|a: int|
                    va as int <= a < va as int + k as int ==> self.is_mapped(
                        #[trigger] (a / (PAGE_SIZE as int)),
                    ),
            decreases n - k,
        {
            if self.translate((va + k) / PAGE_SIZE).is_none() {
                return false;
            }
            k += 1;
        }
        true
    }

    /// Whether every page of `[start_vpn, end_vpn)` is mapped.
    pub fn is_range_mapped(&self, start_vpn: usize, end_vpn: usize) -> (r: bool)
        requires
            self.wf(),
            start_vpn <= end_vpn,
        ensures
            r == self.range_mapped(start_vpn as int, end_vpn as int),
    {
        let mut v = start_vpn;
        while v < end_vpn
            invariant
                self.wf(),
                start_vpn <= v <= end_vpn,
                forall|w: int| start_vpn as int <= w < v as int ==> self.is_mapped(w),
            decreases end_vpn - v,
        {
            if self.translate(v).is_none() {
                return false;
            }
            v += 1;
        }
        true
    }

    /// Whether no page of `[start_vpn, end_vpn)` is mapped.
    pub fn is_range_free(&self, start_vpn: usize, end_vpn: usize) -> (r: bool)
        requires
            self.wf(),
            start_vpn <= end_vpn,
        ensures
            r == self.range_free(start_vpn as int, end_vpn as int),
    {
        let mut v = start_vpn;
        while v < end_vpn
            invariant
                self.wf(),
                start_vpn <= v <= end_vpn,
                forall|w: int| start_vpn as int <= w < v as int ==> !self.is_mapped(w),
            decreases end_vpn - v,
        {
            if self.translate(v).is_some() {
                return false;
            }
            v += 1;
        }
        true
    }

    /// Store `data` at `[va, va + data.len())`, byte by byte through the
    /// page mapping, as a destination straddling a page boundary requires.
    pub fn write_bytes(&mut self, va: usize, data: &Vec<u8>)
        requires
            old(self).wf(),
            old(self).va_range_mapped(va as int, data@.len() as int),
            va + data@.len() <= MAX_VA,
        ensures
            final(self).wf(),
            final(self).same_footprint(*old(self)),
            forall|k: int|
                0 <= k < data@.len() ==> final(self).byte_at(va + k) == data@[k],
            final(self).bytes_unchanged_outside(*old(self), va as int, data@.len() as int),
    {
        let ghost pre = *self;
        let n = data.len();
        let mut k: usize = 0;
        while k < n
            invariant
                pre.wf(),
                pre.va_range_mapped(va as int, n as int),
                va + n <= MAX_VA,
                n == data@.len(),
                k <= n,
                self.wf(),
                self.same_footprint(pre),
                forall|j: int| 0 <= j < k ==> self.byte_at(va + j) == data@[j],
                self.bytes_unchanged_outside(pre, va as int, k as int),
            decreases n - k,
        {
            let ghost mid = *self;
            proof {
                assert(pre.is_mapped((va + k) as int / (PAGE_SIZE as int)));
                assert(self.is_mapped((va + k) as int / (PAGE_SIZE as int)));
            }
            self.write_byte(va + k, data[k]);
            proof {
                assert forall|j: int| 0 <= j < k as int + 1 implies self.byte_at(va + j)
                    == data@[j] by {
                    if j < k as int {
                        assert(self.is_mapped((va + j) / (PAGE_SIZE as int)));
                        assert(self.byte_at(va + j) == mid.byte_at(va + j));
                    }
                }
                assert forall|a: int|
                    self.is_mapped(#[trigger] (a / (PAGE_SIZE as int))) && !(va as int <= a
                        < va as int + k as int + 1) implies self.byte_at(a) == pre.byte_at(a) by {
                    assert(self.byte_at(a) == mid.byte_at(a));
                    assert(mid.is_mapped(a / (PAGE_SIZE as int)));
                }
            }
            k += 1;
        }
    }

    /// The `n` bytes stored at `[va, va + n)`.
    pub fn read_bytes(&self, va: usize, n: usize) -> (r: Vec<u8>)
        requires
            self.wf(),
            self.va_range_mapped(va as int, n as int),
            va + n <= MAX_VA,
        ensures
            r@.len() == n,
            forall|k: int| 0 <= k < n ==> r@[k] == self.byte_at(va + k),
    {
        let mut r: Vec<u8> = Vec::new();
        let mut k: usize = 0;
        while k < n
            invariant
                self.wf(),
                self.va_range_mapped(va as int, n as int),
                va + n <= MAX_VA,
                k <= n,
                r@.len() == k,
                forall|j: int| 0 <= j < k ==> r@[j] == self.byte_at(va + j),
            decreases n - k,
        {
            proof {
                assert(self.is_mapped((va + k) as int / (PAGE_SIZE as int)));
            }
            r.push(self.read_byte(va + k));
            k += 1;
        }
        r
    }

    /// Adjust the program break by `size` bytes; the old break on success,
    /// nothing when the new break would fall below the heap bottom or past
    /// the highest address.
    pub fn change_program_brk(&mut self, size: i32) -> (r: Option<usize>)
        requires
            old(self).wf(),
        ensures
            final(self).wf(),
            ({
                let nb = old(self).program_brk + size as int;
                if old(self).heap_bottom <= nb <= MAX_VA {
                    &&& r == Some(old(self).program_brk)
                    &&& *final(self) == (MemorySet { program_brk: nb as usize, ..*old(self) })
                } else {
                    &&& r is None
                    &&& *final(self) == *old(self)
                }
            }),
    {
        let old_brk = self.program_brk;
        if size >= 0 {
            let inc = size as usize;
            if inc <= MAX_VA - old_brk {
                self.program_brk = old_brk + inc;
                Some(old_brk)
            } else {
                None
            }
        } else {
            let dec = (-(size as i64)) as usize;
            if dec <= old_brk - self.heap_bottom {
                self.program_brk = old_brk - dec;
                Some(old_brk)
            } else {
                None
            }
        }
    }
}

/// Copy of a byte vector with the same contents.
pub fn copy_bytes(b: &Vec<u8>) -> (r: Vec<u8>)
    ensures
        r@ == b@,
{
    let n = b.len();
    let mut r: Vec<u8> = Vec::new();
    let mut i: usize = 0;
    while i < n
        invariant
            n == b@.len(),
            i <= n,
            r@.len() == i,
            forall|j: int| 0 <= j < i ==> r@[j] == b@[j],
        decreases n - i,
    {
        r.push(b[i]);
        i += 1;
    }
    proof {
        assert(r@ =~= b@);
    }
    r
}

} // verus!
