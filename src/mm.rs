//! Address spaces: a page table from virtual page numbers to permissioned
//! frames, range mapping and unmapping, and the byte-level copy protocol
//! across the user/kernel boundary.
use vstd::prelude::*;
use vstd::arithmetic::div_mod::{lemma_fundamental_div_mod, lemma_mod_pos_bound};

use crate::config::{APP_BASE, PAGE_SIZE, USER_STACK_PAGES};

verus! {

/// Permission bits of a mapped page: read, write, execute, user-accessible.
#[derive(Clone, Copy, Debug, PartialEq, Eq, Structural)]
pub struct MapPermission {
    pub r: bool,
    pub w: bool,
    pub x: bool,
    pub u: bool,
}

/// Protection requested by a user program through `mmap`:
/// bit 0 is read, bit 1 is write, bit 2 is execute.
#[derive(Clone, Copy, Debug, PartialEq, Eq, Structural)]
pub struct SysMmapPermission {
    pub r: bool,
    pub w: bool,
    pub x: bool,
}

impl SysMmapPermission {
    pub open spec fn spec_from_bits(bits: usize) -> Option<SysMmapPermission> {
        if bits < 8 {
            Some(SysMmapPermission { r: bits % 2 == 1, w: (bits / 2) % 2 == 1, x: (bits / 4) % 2 == 1 })
        } else {
            None
        }
    }

    /// Decodes protection bits; any bit above the low three is refused.
    pub fn from_bits(bits: usize) -> (r: Option<SysMmapPermission>)
        ensures
            r == Self::spec_from_bits(bits),
    {
        if bits < 8 {
            Some(SysMmapPermission { r: bits % 2 == 1, w: (bits / 2) % 2 == 1, x: (bits / 4) % 2 == 1 })
        } else {
            None
        }
    }
}

/// The page permission that a user mapping with protection `p` receives.
pub open spec fn spec_user_permission(p: SysMmapPermission) -> MapPermission {
    MapPermission { r: p.r, w: p.w, x: p.x, u: true }
}

/// Turns user protection bits into page permissions, always user-accessible.
pub fn convert_sysmmap_to_map_permission(p: SysMmapPermission) -> (r: MapPermission)
    ensures
        r == spec_user_permission(p),
{
    MapPermission { r: p.r, w: p.w, x: p.x, u: true }
}

/// One mapped page: its virtual page number, permissions and frame contents.
pub struct PageTableEntry {
    pub vpn: usize,
    pub perm: MapPermission,
    pub frame: Vec<u8>,
}

/// What a mapped page holds, abstractly: its permissions and its bytes.
pub type PageView = (MapPermission, Seq<u8>);

/// Page numbers are unique and every frame is one page long.
pub open spec fn entries_wf(s: Seq<PageTableEntry>) -> bool {
    &&& forall|i: int, j: int|
        #![trigger s[i], s[j]]
        0 <= i < s.len() && 0 <= j < s.len() && i != j ==> s[i].vpn != s[j].vpn
    &&& forall|i: int| 0 <= i < s.len() ==> (#[trigger] s[i]).frame@.len() == PAGE_SIZE
}

pub open spec fn entries_has(s: Seq<PageTableEntry>, v: int) -> bool {
    exists|i: int| 0 <= i < s.len() && (#[trigger] s[i]).vpn == v
}

pub open spec fn entries_index(s: Seq<PageTableEntry>, v: int) -> int {
    choose|i: int| 0 <= i < s.len() && (#[trigger] s[i]).vpn == v
}

/// The page table as a map from page number to page contents.
pub open spec fn entries_view(s: Seq<PageTableEntry>) -> Map<int, PageView> {
    Map::new(
        |v: int| entries_has(s, v),
        |v: int| (s[entries_index(s, v)].perm, s[entries_index(s, v)].frame@),
    )
}

/// A page full of zero bytes.
pub open spec fn zero_frame() -> Seq<u8> {
    Seq::new(PAGE_SIZE as nat, |i: int| 0u8)
}

/// `m` with the pages `[s, e)` added, zero-filled, with permission `perm`.
pub open spec fn with_range(m: Map<int, PageView>, s: int, e: int, perm: MapPermission) -> Map<
    int,
    PageView,
> {
    Map::new(
        |v: int| m.contains_key(v) || (s <= v < e),
        |v: int|
            if s <= v < e {
                (perm, zero_frame())
            } else {
                m[v]
            },
    )
}

/// `m` with the pages `[s, e)` removed.
pub open spec fn without_range(m: Map<int, PageView>, s: int, e: int) -> Map<int, PageView> {
    Map::new(|v: int| m.contains_key(v) && !(s <= v < e), |v: int| m[v])
}

/// No page in `[s, e)` is mapped.
pub open spec fn range_free(m: Map<int, PageView>, s: int, e: int) -> bool {
    forall|v: int| s <= v < e ==> !#[trigger] m.contains_key(v)
}

/// Every page in `[s, e)` is mapped.
pub open spec fn range_mapped(m: Map<int, PageView>, s: int, e: int) -> bool {
    forall|v: int| s <= v < e ==> #[trigger] m.contains_key(v)
}

/// The page holding the byte at address `a`.
pub open spec fn page_of(a: int) -> int {
    a / PAGE_SIZE as int
}

/// The first page boundary at or above address `a`, as a page number.
pub open spec fn page_ceil(a: int) -> int {
    (a + PAGE_SIZE - 1) / PAGE_SIZE as int
}

pub open spec fn byte_mapped(m: Map<int, PageView>, a: int) -> bool {
    m.contains_key(page_of(a))
}

/// The byte at address `a`.
pub open spec fn mem_byte(m: Map<int, PageView>, a: int) -> u8 {
    m[page_of(a)].1[a % PAGE_SIZE as int]
}

pub open spec fn user_readable(m: Map<int, PageView>, a: int) -> bool {
    byte_mapped(m, a) && m[page_of(a)].0.r && m[page_of(a)].0.u
}

pub open spec fn user_writable(m: Map<int, PageView>, a: int) -> bool {
    byte_mapped(m, a) && m[page_of(a)].0.w && m[page_of(a)].0.u
}

/// `new` is `old` with `data` stored at address `a`, permissions and the set
/// of mapped pages kept.
pub open spec fn stored(old: Map<int, PageView>, new: Map<int, PageView>, a: int, data: Seq<u8>) -> bool {
    &&& new.dom() == old.dom()
    &&& forall|v: int| #[trigger]
        old.contains_key(v) ==> new[v].0 == old[v].0 && new[v].1.len() == old[v].1.len()
    &&& forall|x: int| #[trigger]
        byte_mapped(old, x) ==> mem_byte(new, x) == (if a <= x < a + data.len() {
            data[x - a]
        } else {
            mem_byte(old, x)
        })
}

/// The outcome of `mmap(start, len, prot)` on the pages `m`: the result code
/// and the pages after the call.
pub open spec fn mmap_result(m: Map<int, PageView>, start: int, len: int, prot: usize) -> (
    isize,
    Map<int, PageView>,
) {
    if len != 0 && start % PAGE_SIZE as int == 0 && 1 <= prot <= 7 && start + len <= usize::MAX
        && range_free(m, page_of(start), page_ceil(start + len)) {
        (
            0,
            with_range(
                m,
                page_of(start),
                page_ceil(start + len),
                spec_user_permission(SysMmapPermission::spec_from_bits(prot).unwrap()),
            ),
        )
    } else {
        (-1isize, m)
    }
}

/// The outcome of `munmap(start, len)` on the pages `m`.
pub open spec fn munmap_result(m: Map<int, PageView>, start: int, len: int) -> (
    isize,
    Map<int, PageView>,
) {
    if start % PAGE_SIZE as int == 0 && start + len <= usize::MAX && (start + len)
        % PAGE_SIZE as int == 0 && range_mapped(m, page_of(start), page_of(start + len)) {
        (0, without_range(m, page_of(start), page_of(start + len)))
    } else {
        (-1isize, m)
    }
}

pub proof fn lemma_entries_index(s: Seq<PageTableEntry>, i: int)
    requires
        entries_wf(s),
        0 <= i < s.len(),
    ensures
        entries_view(s).contains_key(s[i].vpn as int),
        entries_view(s)[s[i].vpn as int] == (s[i].perm, s[i].frame@),
{
    let v = s[i].vpn as int;
    assert(entries_has(s, v));
    let j = entries_index(s, v);
    assert(s[j].vpn == v);
    assert(j == i);
}

pub proof fn lemma_entries_push(s: Seq<PageTableEntry>, e: PageTableEntry)
    requires
        entries_wf(s),
        !entries_view(s).contains_key(e.vpn as int),
        e.frame@.len() == PAGE_SIZE,
    ensures
        entries_wf(s.push(e)),
        entries_view(s.push(e)) == entries_view(s).insert(e.vpn as int, (e.perm, e.frame@)),
{
    let t = s.push(e);
    assert forall|i: int, j: int|
        #![trigger t[i], t[j]]
        0 <= i < t.len() && 0 <= j < t.len() && i != j implies t[i].vpn != t[j].vpn by {
        if i < s.len() && j < s.len() {
            assert(s[i] == t[i] && s[j] == t[j]);
        } else if i < s.len() {
            assert(t[i] == s[i]);
            if s[i].vpn == e.vpn {
                assert(entries_has(s, e.vpn as int));
            }
        } else {
            assert(t[j] == s[j]);
            if s[j].vpn == e.vpn {
                assert(entries_has(s, e.vpn as int));
            }
        }
    }
    assert forall|i: int| 0 <= i < t.len() implies (#[trigger] t[i]).frame@.len() == PAGE_SIZE by {
        if i < s.len() {
            assert(t[i] == s[i]);
        }
    }
    let target = entries_view(s).insert(e.vpn as int, (e.perm, e.frame@));
    assert forall|v: int| #[trigger] entries_view(t).contains_key(v) == target.contains_key(v) by {
        if entries_has(t, v) {
            let i = choose|i: int| 0 <= i < t.len() && (#[trigger] t[i]).vpn == v;
            if i < s.len() {
                assert(t[i] == s[i]);
                assert(entries_has(s, v));
            }
        }
        if entries_has(s, v) {
            let i = choose|i: int| 0 <= i < s.len() && (#[trigger] s[i]).vpn == v;
            assert(t[i] == s[i]);
            assert(entries_has(t, v));
        }
        if v == e.vpn {
            assert(t[s.len() as int] == e);
            assert(entries_has(t, v));
        }
    }
    assert forall|v: int| #[trigger]
        entries_view(t).contains_key(v) implies entries_view(t)[v] == target[v] by {
        if v == e.vpn {
            assert(t[s.len() as int] == e);
            lemma_entries_index(t, s.len() as int);
        } else {
            let i = choose|i: int| 0 <= i < s.len() && (#[trigger] s[i]).vpn == v;
            assert(t[i] == s[i]);
            lemma_entries_index(s, i);
            lemma_entries_index(t, i);
        }
    }
    assert(entries_view(t) =~= target);
}

pub proof fn lemma_entries_update(s: Seq<PageTableEntry>, i: int, e: PageTableEntry)
    requires
        entries_wf(s),
        0 <= i < s.len(),
        e.vpn == s[i].vpn,
        e.frame@.len() == PAGE_SIZE,
    ensures
        entries_wf(s.update(i, e)),
        entries_view(s.update(i, e)) == entries_view(s).insert(e.vpn as int, (e.perm, e.frame@)),
{
    let t = s.update(i, e);
    assert forall|a: int, b: int|
        #![trigger t[a], t[b]]
        0 <= a < t.len() && 0 <= b < t.len() && a != b implies t[a].vpn != t[b].vpn by {
        assert(s[a].vpn == t[a].vpn && s[b].vpn == t[b].vpn);
    }
    assert forall|a: int| 0 <= a < t.len() implies (#[trigger] t[a]).frame@.len() == PAGE_SIZE by {
        if a != i {
            assert(t[a] == s[a]);
        }
    }
    let target = entries_view(s).insert(e.vpn as int, (e.perm, e.frame@));
    assert forall|v: int| #[trigger] entries_view(t).contains_key(v) == target.contains_key(v) by {
        if entries_has(t, v) {
            let a = choose|a: int| 0 <= a < t.len() && (#[trigger] t[a]).vpn == v;
            assert(s[a].vpn == v);
            assert(entries_has(s, v));
        }
        if entries_has(s, v) {
            let a = choose|a: int| 0 <= a < s.len() && (#[trigger] s[a]).vpn == v;
            assert(t[a].vpn == v);
            assert(entries_has(t, v));
        }
        lemma_entries_index(s, i);
    }
    assert forall|v: int| #[trigger]
        entries_view(t).contains_key(v) implies entries_view(t)[v] == target[v] by {
        if v == e.vpn {
            lemma_entries_index(t, i);
        } else {
            let a = choose|a: int| 0 <= a < t.len() && (#[trigger] t[a]).vpn == v;
            assert(t[a] == s[a]);
            lemma_entries_index(s, a);
            lemma_entries_index(t, a);
        }
    }
    assert(entries_view(t) =~= target);
}

/// Two page tables that agree entry by entry on page numbers, permissions and
/// bytes describe the same pages.
pub proof fn lemma_entries_same(s: Seq<PageTableEntry>, t: Seq<PageTableEntry>)
    requires
        entries_wf(s),
        s.len() == t.len(),
        forall|i: int|
            0 <= i < s.len() ==> (#[trigger] t[i]).vpn == s[i].vpn && t[i].perm == s[i].perm
                && t[i].frame@ == s[i].frame@,
    ensures
        entries_wf(t),
        entries_view(t) == entries_view(s),
{
    assert forall|a: int, b: int|
        #![trigger t[a], t[b]]
        0 <= a < t.len() && 0 <= b < t.len() && a != b implies t[a].vpn != t[b].vpn by {
        assert(s[a].vpn == t[a].vpn && s[b].vpn == t[b].vpn);
    }
    assert forall|a: int| 0 <= a < t.len() implies (#[trigger] t[a]).frame@.len() == PAGE_SIZE by {
        assert(t[a].frame@ == s[a].frame@);
    }
    assert forall|v: int| #[trigger]
        entries_view(t).contains_key(v) == entries_view(s).contains_key(v) by {
        if entries_has(t, v) {
            let a = choose|a: int| 0 <= a < t.len() && (#[trigger] t[a]).vpn == v;
            assert(s[a].vpn == v);
            assert(entries_has(s, v));
        }
        if entries_has(s, v) {
            let a = choose|a: int| 0 <= a < s.len() && (#[trigger] s[a]).vpn == v;
            assert(t[a].vpn == v);
            assert(entries_has(t, v));
        }
    }
    assert forall|v: int| #[trigger]
        entries_view(t).contains_key(v) implies entries_view(t)[v] == entries_view(s)[v] by {
        let a = choose|a: int| 0 <= a < t.len() && (#[trigger] t[a]).vpn == v;
        assert(t[a].vpn == s[a].vpn);
        lemma_entries_index(s, a);
        lemma_entries_index(t, a);
    }
    assert(entries_view(t) =~= entries_view(s));
}

/// Two addresses on the same page at the same offset are the same address.
pub proof fn lemma_same_address(x: int, y: int)
    requires
        page_of(x) == page_of(y),
        x % PAGE_SIZE as int == y % PAGE_SIZE as int,
    ensures
        x == y,
{
    lemma_fundamental_div_mod(x, PAGE_SIZE as int);
    lemma_fundamental_div_mod(y, PAGE_SIZE as int);
}

/// A fresh frame of zero bytes.
fn new_frame() -> (f: Vec<u8>)
    ensures
        f@ == zero_frame(),
{
    let mut f: Vec<u8> = Vec::new();
    while f.len() < PAGE_SIZE
        invariant
            f.len() <= PAGE_SIZE,
            forall|i: int| 0 <= i < f.len() ==> f@[i] == 0u8,
        decreases PAGE_SIZE - f.len(),
    {
        f.push(0u8);
    }
    assert(f@ =~= zero_frame());
    f
}

/// A byte-for-byte copy of a frame.
fn copy_frame(src: &Vec<u8>) -> (f: Vec<u8>)
    ensures
        f@ == src@,
{
    let mut f: Vec<u8> = Vec::new();
    let mut i: usize = 0;
    while i < src.len()
        invariant
            i <= src.len(),
            f@ == src@.subrange(0, i as int),
        decreases src.len() - i,
    {
        f.push(src[i]);
        i += 1;
        assert(f@ =~= src@.subrange(0, i as int));
    }
    assert(f@ =~= src@);
    f
}

/// An address space: the user pages of one process.
pub struct MemorySet {
    pub pages: Vec<PageTableEntry>,
}

impl View for MemorySet {
    type V = Map<int, PageView>;

    open spec fn view(&self) -> Map<int, PageView> {
        entries_view(self.pages@)
    }
}

impl MemorySet {
    pub open spec fn wf(&self) -> bool {
        entries_wf(self.pages@)
    }

    /// An address space with nothing mapped.
    pub fn new_bare() -> (r: MemorySet)
        ensures
            r.wf(),
            r@ == Map::<int, PageView>::empty(),
    {
        let r = MemorySet { pages: Vec::new() };
        assert(r@ =~= Map::<int, PageView>::empty());
        r
    }

    /// Index of the entry for page `vpn`, if it is mapped.
    pub fn find(&self, vpn: usize) -> (r: Option<usize>)
        requires
            self.wf(),
        ensures
            match r {
                Some(i) => i < self.pages.len() && self.pages@[i as int].vpn == vpn,
                None => !self@.contains_key(vpn as int),
            },
    {
        let mut i: usize = 0;
        while i < self.pages.len()
            invariant
                i <= self.pages.len(),
                forall|k: int| 0 <= k < i ==> (#[trigger] self.pages@[k]).vpn != vpn,
            decreases self.pages.len() - i,
        {
            if self.pages[i].vpn == vpn {
                return Some(i);
            }
            i += 1;
        }
        None
    }

    /// Whether no page in `[s, e)` is mapped.
    pub fn is_range_free(&self, s: usize, e: usize) -> (r: bool)
        requires
            self.wf(),
        ensures
            r == range_free(self@, s as int, e as int),
    {
        let mut i: usize = 0;
        while i < self.pages.len()
            invariant
                self.wf(),
                i <= self.pages.len(),
                forall|k: int| 0 <= k < i ==> !(s <= (#[trigger] self.pages@[k]).vpn < e),
            decreases self.pages.len() - i,
        {
            let v = self.pages[i].vpn;
            if s <= v && v < e {
                proof {
                    lemma_entries_index(self.pages@, i as int);
                }
                return false;
            }
            i += 1;
        }
        assert forall|v: int| s <= v < e implies !#[trigger] self@.contains_key(v) by {
            if self@.contains_key(v) {
                let k = choose|k: int| 0 <= k < self.pages@.len() && (#[trigger] self.pages@[k]).vpn == v;
            }
        }
        true
    }

    /// Whether every page in `[s, e)` is mapped.
    pub fn is_range_mapped(&self, s: usize, e: usize) -> (r: bool)
        requires
            self.wf(),
        ensures
            r == range_mapped(self@, s as int, e as int),
    {
        let mut v: usize = s;
        while v < e
            invariant
                self.wf(),
                s <= v,
                forall|w: int| s <= w < v ==> #[trigger] self@.contains_key(w),
            decreases e - v,
        {
            match self.find(v) {
                Some(i) => {
                    proof {
                        lemma_entries_index(self.pages@, i as int);
                    }
                },
                None => {
                    return false;
                },
            }
            v += 1;
        }
        true
    }

    /// Maps the pages `[s, e)` with permission `perm`, each to a fresh zeroed frame.
    pub fn map_range(&mut self, s: usize, e: usize, perm: MapPermission)
        requires
            old(self).wf(),
            range_free(old(self)@, s as int, e as int),
        ensures
            final(self).wf(),
            final(self)@ == with_range(old(self)@, s as int, e as int, perm),
    {
        let ghost m0 = self@;
        let mut v: usize = s;
        assert(self@ =~= with_range(m0, s as int, s as int, perm));
        while v < e
            invariant
                self.wf(),
                s <= v,
                v <= e || v == s,
                range_free(m0, s as int, e as int),
                self@ == with_range(m0, s as int, v as int, perm),
            decreases e - v,
        {
            let frame = new_frame();
            let entry = PageTableEntry { vpn: v, perm, frame };
            proof {
                assert(!m0.contains_key(v as int));
                lemma_entries_push(self.pages@, entry);
            }
            self.pages.push(entry);
            v += 1;
            assert(self@ =~= with_range(m0, s as int, v as int, perm));
        }
        assert(self@ =~= with_range(m0, s as int, e as int, perm));
    }

    /// Removes the pages `[s, e)` that are mapped; the others stay.
    pub fn unmap_range(&mut self, s: usize, e: usize)
        requires
            old(self).wf(),
        ensures
            final(self).wf(),
            final(self)@ == without_range(old(self)@, s as int, e as int),
    {
        let ghost orig = self.pages@;
        let ghost mut k: int = 0;
        let mut i: usize = 0;
        assert(self.pages@.subrange(0, 0) =~= Seq::<PageTableEntry>::empty());
        assert(orig.subrange(0, 0) =~= Seq::<PageTableEntry>::empty());
        assert(entries_view(Seq::<PageTableEntry>::empty()) =~= Map::<int, PageView>::empty());
        assert(without_range(Map::<int, PageView>::empty(), s as int, e as int) =~= Map::<
            int,
            PageView,
        >::empty());
        assert(self.pages@.subrange(0, self.pages@.len() as int) =~= orig.subrange(0, orig.len() as int));
        while i < self.pages.len()
            invariant
                entries_wf(orig),
                0 <= i <= k <= orig.len(),
                self.pages@.len() == i + (orig.len() - k),
                self.pages@.subrange(i as int, self.pages@.len() as int) == orig.subrange(
                    k,
                    orig.len() as int,
                ),
                entries_wf(self.pages@.subrange(0, i as int)),
                entries_view(self.pages@.subrange(0, i as int)) == without_range(
                    entries_view(orig.subrange(0, k)),
                    s as int,
                    e as int,
                ),
            decreases self.pages@.len() - i,
        {
            let ghost kept = self.pages@.subrange(0, i as int);
            let ghost prefix = orig.subrange(0, k);
            let ghost x = orig[k];
            assert(self.pages@.subrange(i as int, self.pages@.len() as int)[0] == orig.subrange(
                k,
                orig.len() as int,
            )[0]);
            assert(self.pages@[i as int] == x);
            proof {
                assert(entries_wf(prefix)) by {
                    assert forall|a: int| 0 <= a < prefix.len() implies (#[trigger] prefix[a]).frame@.len()
                        == PAGE_SIZE by {
                        assert(prefix[a] == orig[a]);
                    }
                    assert forall|a: int, b: int|
                        #![trigger prefix[a], prefix[b]]
                        0 <= a < prefix.len() && 0 <= b < prefix.len() && a != b implies prefix[a].vpn
                        != prefix[b].vpn by {
                        assert(prefix[a] == orig[a] && prefix[b] == orig[b]);
                    }
                }
                if entries_view(prefix).contains_key(x.vpn as int) {
                    let j = choose|j: int| 0 <= j < prefix.len() && (#[trigger] prefix[j]).vpn == x.vpn;
                    assert(prefix[j] == orig[j]);
                    assert(orig[j].vpn == orig[k].vpn);
                }
                lemma_entries_push(prefix, x);
                assert(orig.subrange(0, k + 1) =~= prefix.push(x));
            }
            let v = self.pages[i].vpn;
            let ghost before = self.pages@;
            assert forall|j: int| 0 <= j < before.len() - i implies before[i + j] == #[trigger] orig[k + j] by {
                assert(before.subrange(i as int, before.len() as int)[j] == orig.subrange(k, orig.len() as int)[j]);
            }
            if s <= v && v < e {
                self.pages.remove(i);
                proof {
                    assert forall|j: int| 0 <= j < self.pages@.len() - i implies self.pages@[i + j] == #[trigger] orig[k + 1 + j] by {
                        assert(self.pages@[i + j] == before[i + 1 + j]);
                        assert(before[i + (j + 1)] == orig[k + (j + 1)]);
                    }
                    k = k + 1;
                    assert(self.pages@.subrange(0, i as int) =~= kept);
                    let ghost cur = self.pages@;
                    assert forall|j: int| 0 <= j < cur.len() - i implies #[trigger] cur.subrange(i as int, cur.len() as int)[j]
                        == orig.subrange(k, orig.len() as int)[j] by {
                        assert(cur[i + j] == orig[k + j]);
                    }
                    assert(cur.subrange(i as int, cur.len() as int) =~= orig.subrange(k, orig.len() as int));
                    assert(without_range(entries_view(orig.subrange(0, k)), s as int, e as int)
                        =~= without_range(entries_view(prefix), s as int, e as int));
                }
            } else {
                proof {
                    lemma_entries_push(kept, x);
                    assert(self.pages@.subrange(0, i + 1) =~= kept.push(x));
                    k = k + 1;
                    assert(without_range(entries_view(orig.subrange(0, k)), s as int, e as int)
                        =~= without_range(entries_view(prefix), s as int, e as int).insert(
                        x.vpn as int,
                        (x.perm, x.frame@),
                    ));
                }
                i += 1;
                proof {
                    assert forall|j: int| 0 <= j < self.pages@.len() - i implies self.pages@[i + j] == #[trigger] orig[k + j] by {
                        assert(before[(i - 1) + (j + 1)] == orig[(k - 1) + (j + 1)]);
                    }
                    let ghost cur = self.pages@;
                    assert forall|j: int| 0 <= j < cur.len() - i implies #[trigger] cur.subrange(i as int, cur.len() as int)[j]
                        == orig.subrange(k, orig.len() as int)[j] by {
                        assert(cur[i + j] == orig[k + j]);
                    }
                    assert(cur.subrange(i as int, cur.len() as int) =~= orig.subrange(k, orig.len() as int));
                }
            }
        }
        assert(self.pages@.subrange(0, i as int) =~= self.pages@);
        assert(orig.subrange(0, k) =~= orig);
    }

    /// Maps `[start, start + len)` for user access with protection `prot`.
    /// Returns 0, or -1 without any change when `len` is zero, `start` is not
    /// page-aligned, `prot` is zero or has bits above the low three, the range
    /// wraps around the address space, or a page of it is already mapped.
    pub fn mmap(&mut self, start: usize, len: usize, prot: usize) -> (r: isize)
        requires
            old(self).wf(),
        ensures
            final(self).wf(),
            (r, final(self)@) == mmap_result(old(self)@, start as int, len as int, prot),
    {
        if len == 0 || start % PAGE_SIZE != 0 {
            return -1;
        }
        if prot == 0 {
            return -1;
        }
        let perm = match SysMmapPermission::from_bits(prot) {
            Some(p) => p,
            None => {
                return -1;
            },
        };
        if start > usize::MAX - len {
            return -1;
        }
        let end = start + len;
        let s = start / PAGE_SIZE;
        let e = end / PAGE_SIZE + if end % PAGE_SIZE == 0 { 0 } else { 1 };
        assert(e == page_ceil(end as int));
        if !self.is_range_free(s, e) {
            return -1;
        }
        let map_perm = convert_sysmmap_to_map_permission(perm);
        self.map_range(s, e, map_perm);
        0
    }

    /// Unmaps `[start, start + len)`. Returns 0, or -1 without any change when
    /// either end is not page-aligned, the range wraps around, or a page of it
    /// is not mapped.
    pub fn munmap(&mut self, start: usize, len: usize) -> (r: isize)
        requires
            old(self).wf(),
        ensures
            final(self).wf(),
            (r, final(self)@) == munmap_result(old(self)@, start as int, len as int),
    {
        if start % PAGE_SIZE != 0 || start > usize::MAX - len {
            return -1;
        }
        let end = start + len;
        if end % PAGE_SIZE != 0 {
            return -1;
        }
        let s = start / PAGE_SIZE;
        let e = end / PAGE_SIZE;
        if !self.is_range_mapped(s, e) {
            return -1;
        }
        self.unmap_range(s, e);
        0
    }
}


/// `s` is a NUL-terminated string that the user can read at address `a`.
pub open spec fn user_str_at(m: Map<int, PageView>, a: int, s: Seq<u8>) -> bool {
    &&& a + s.len() <= usize::MAX
    &&& forall|i: int| 0 <= i < s.len() ==> #[trigger] str_byte_ok(m, a, s, i)
    &&& user_readable(m, a + s.len())
    &&& mem_byte(m, a + s.len()) == 0
}

pub open spec fn str_byte_ok(m: Map<int, PageView>, a: int, s: Seq<u8>, i: int) -> bool {
    user_readable(m, a + i) && mem_byte(m, a + i) == s[i] && s[i] != 0
}

/// When the bytes before `a + s.len()` are readable and non-zero but that
/// byte is not a readable NUL within the address space, no string is there.
pub proof fn lemma_no_str(m: Map<int, PageView>, a: int, s: Seq<u8>)
    requires
        forall|i: int| 0 <= i < s.len() ==> #[trigger] str_byte_ok(m, a, s, i),
        !user_readable(m, a + s.len()) || (mem_byte(m, a + s.len()) != 0 && a + s.len() == usize::MAX),
    ensures
        forall|t: Seq<u8>| !user_str_at(m, a, t),
{
    assert forall|t: Seq<u8>| !user_str_at(m, a, t) by {
        if user_str_at(m, a, t) {
            if t.len() < s.len() {
                assert(str_byte_ok(m, a, s, t.len() as int));
            } else if t.len() > s.len() {
                assert(str_byte_ok(m, a, t, s.len() as int));
            }
        }
    }
}

/// Every page of a well-formed table is one frame long.
pub proof fn lemma_view_frames(s: Seq<PageTableEntry>)
    requires
        entries_wf(s),
    ensures
        forall|v: int| #[trigger]
            entries_view(s).contains_key(v) ==> entries_view(s)[v].1.len() == PAGE_SIZE,
{
    assert forall|v: int| #[trigger]
        entries_view(s).contains_key(v) implies entries_view(s)[v].1.len() == PAGE_SIZE by {
        let i = choose|i: int| 0 <= i < s.len() && (#[trigger] s[i]).vpn == v;
        lemma_entries_index(s, i);
    }
}

impl MemorySet {
    /// Writes byte `b` at address `a`, whatever the page's permissions.
    fn store_byte(&mut self, a: usize, b: u8)
        requires
            old(self).wf(),
            byte_mapped(old(self)@, a as int),
        ensures
            final(self).wf(),
            final(self)@ == old(self)@.insert(
                page_of(a as int),
                (
                    old(self)@[page_of(a as int)].0,
                    old(self)@[page_of(a as int)].1.update(a as int % PAGE_SIZE as int, b),
                ),
            ),
    {
        let vpn = a / PAGE_SIZE;
        let off = a % PAGE_SIZE;
        match self.find(vpn) {
            Some(i) => {
                let ghost s0 = self.pages@;
                proof {
                    lemma_entries_index(s0, i as int);
                }
                self.pages[i].frame.set(off, b);
                proof {
                    lemma_entries_update(s0, i as int, self.pages@[i as int]);
                    assert(s0.update(i as int, self.pages@[i as int]) =~= self.pages@);
                }
            },
            None => {},
        }
    }

    /// Writes `data` at address `a`, whatever the pages' permissions.
    fn store_bytes(&mut self, a: usize, data: &Vec<u8>)
        requires
            old(self).wf(),
            a + data.len() <= usize::MAX,
            forall|i: int| 0 <= i < data.len() ==> #[trigger] byte_mapped(old(self)@, a + i),
        ensures
            final(self).wf(),
            stored(old(self)@, final(self)@, a as int, data@),
    {
        let ghost m0 = self@;
        proof {
            lemma_view_frames(self.pages@);
        }
        let mut i: usize = 0;
        assert(data@.subrange(0, 0).len() == 0);
        while i < data.len()
            invariant
                self.wf(),
                i <= data.len(),
                a + data.len() <= usize::MAX,
                forall|v: int| #[trigger] m0.contains_key(v) ==> m0[v].1.len() == PAGE_SIZE,
                forall|j: int| 0 <= j < data.len() ==> #[trigger] byte_mapped(m0, a + j),
                stored(m0, self@, a as int, data@.subrange(0, i as int)),
            decreases data.len() - i,
        {
            let ghost cur = self@;
            let ghost p = page_of(a + i);
            let ghost o = (a + i) % PAGE_SIZE as int;
            assert(byte_mapped(m0, a + i));
            self.store_byte(a + i, data[i]);
            proof {
                lemma_mod_pos_bound((a + i) as int, PAGE_SIZE as int);
                let d1 = data@.subrange(0, i + 1);
                assert forall|x: int| #[trigger] byte_mapped(m0, x) implies mem_byte(self@, x) == (if a
                    <= x < a + d1.len() {
                    d1[x - a]
                } else {
                    mem_byte(m0, x)
                }) by {
                    lemma_mod_pos_bound(x, PAGE_SIZE as int);
                    if page_of(x) == p && x % PAGE_SIZE as int == o {
                        lemma_same_address(x, a + i);
                    }
                }
                assert forall|v: int| #[trigger]
                    m0.contains_key(v) implies self@[v].0 == m0[v].0 && self@[v].1.len() == m0[v].1.len() by {}
                assert(self@.dom() =~= m0.dom());
            }
            i += 1;
        }
        assert(data@.subrange(0, i as int) =~= data@);
    }

    /// The byte at address `a`, if the user may read it.
    pub fn load_byte(&self, a: usize) -> (r: Option<u8>)
        requires
            self.wf(),
        ensures
            r == (if user_readable(self@, a as int) {
                Some(mem_byte(self@, a as int))
            } else {
                None
            }),
    {
        match self.find(a / PAGE_SIZE) {
            Some(i) => {
                proof {
                    lemma_entries_index(self.pages@, i as int);
                    lemma_mod_pos_bound(a as int, PAGE_SIZE as int);
                }
                let e = &self.pages[i];
                if e.perm.r && e.perm.u {
                    Some(e.frame[a % PAGE_SIZE])
                } else {
                    None
                }
            },
            None => None,
        }
    }

    /// Whether every byte of `[a, a + len)` is mapped user-writable.
    pub fn is_user_writable(&self, a: usize, len: usize) -> (r: bool)
        requires
            self.wf(),
            a + len <= usize::MAX,
        ensures
            r == forall|i: int| 0 <= i < len ==> #[trigger] user_writable(self@, a + i),
    {
        let mut i: usize = 0;
        while i < len
            invariant
                self.wf(),
                i <= len,
                a + len <= usize::MAX,
                forall|j: int| 0 <= j < i ==> #[trigger] user_writable(self@, a + j),
            decreases len - i,
        {
            match self.find((a + i) / PAGE_SIZE) {
                Some(k) => {
                    proof {
                        lemma_entries_index(self.pages@, k as int);
                    }
                    let pm = self.pages[k].perm;
                    if !(pm.w && pm.u) {
                        assert(!user_writable(self@, a + i));
                        return false;
                    }
                },
                None => {
                    assert(!user_writable(self@, a + i));
                    return false;
                },
            }
            i += 1;
        }
        true
    }

    /// Copies `data` to user address `a`, byte by byte across however many
    /// pages it spans. Fails, changing nothing, unless every byte of the
    /// destination is mapped user-writable.
    pub fn copy_to_user(&mut self, a: usize, data: &Vec<u8>) -> (r: bool)
        requires
            old(self).wf(),
        ensures
            final(self).wf(),
            r == (a + data.len() <= usize::MAX && forall|i: int|
                0 <= i < data.len() ==> #[trigger] user_writable(old(self)@, a + i)),
            r ==> stored(old(self)@, final(self)@, a as int, data@),
            !r ==> final(self)@ == old(self)@,
    {
        if a > usize::MAX - data.len() || !self.is_user_writable(a, data.len()) {
            return false;
        }
        assert forall|i: int| 0 <= i < data.len() implies #[trigger] byte_mapped(self@, a + i) by {
            assert(user_writable(self@, a + i));
        }
        self.store_bytes(a, data);
        true
    }

    /// Reads the NUL-terminated string at user address `a`, without its NUL.
    /// `None` when a byte before the NUL cannot be read by the user.
    pub fn read_user_str(&self, a: usize) -> (r: Option<Vec<u8>>)
        requires
            self.wf(),
        ensures
            match r {
                Some(s) => user_str_at(self@, a as int, s@),
                None => forall|s: Seq<u8>| !user_str_at(self@, a as int, s),
            },
    {
        let ghost m = self@;
        let mut out: Vec<u8> = Vec::new();
        let mut p: usize = a;
        loop
            invariant
                self.wf(),
                m == self@,
                p == a + out@.len(),
                forall|i: int| 0 <= i < out@.len() ==> #[trigger] str_byte_ok(m, a as int, out@, i),
            decreases usize::MAX - p,
        {
            let ghost prev = out@;
            match self.load_byte(p) {
                Some(b) => {
                    if b == 0 {
                        assert(user_readable(m, p as int) && mem_byte(m, p as int) == 0);
                        assert(p as int == a + out@.len());
                        assert(user_str_at(m, a as int, out@));
                        return Some(out);
                    }
                    if p == usize::MAX {
                        proof {
                            lemma_no_str(m, a as int, out@);
                        }
                        return None;
                    }
                    out.push(b);
                    p += 1;
                    assert forall|i: int| 0 <= i < out@.len() implies #[trigger] str_byte_ok(m, a as int, out@, i) by {
                        if i < prev.len() {
                            assert(str_byte_ok(m, a as int, prev, i));
                        }
                    }
                },
                None => {
                    proof {
                        lemma_no_str(m, a as int, out@);
                    }
                    return None;
                },
            }
        }
    }

    /// A copy of this address space in fresh frames: same pages, same
    /// permissions, same bytes.
    pub fn duplicate(&self) -> (r: MemorySet)
        requires
            self.wf(),
        ensures
            r.wf(),
            r@ == self@,
    {
        let mut pages: Vec<PageTableEntry> = Vec::new();
        let mut i: usize = 0;
        while i < self.pages.len()
            invariant
                i <= self.pages.len(),
                pages.len() == i,
                forall|k: int|
                    0 <= k < i ==> (#[trigger] pages@[k]).vpn == self.pages@[k].vpn && pages@[k].perm
                        == self.pages@[k].perm && pages@[k].frame@ == self.pages@[k].frame@,
            decreases self.pages.len() - i,
        {
            let e = &self.pages[i];
            let frame = copy_frame(&e.frame);
            pages.push(PageTableEntry { vpn: e.vpn, perm: e.perm, frame });
            i += 1;
        }
        proof {
            lemma_entries_same(self.pages@, pages@);
        }
        MemorySet { pages }
    }
}

/// Mapping a whole number of pages and then unmapping the same range gives
/// back exactly the pages there were before.
pub proof fn lemma_mmap_then_munmap(m: Map<int, PageView>, start: usize, len: usize, prot: usize)
    requires
        start % PAGE_SIZE == 0,
        len > 0,
        len % PAGE_SIZE == 0,
        1 <= prot <= 7,
        start + len <= usize::MAX,
        range_free(m, page_of(start as int), page_ceil(start + len)),
    ensures
        mmap_result(m, start as int, len as int, prot).0 == 0,
        munmap_result(mmap_result(m, start as int, len as int, prot).1, start as int, len as int) == (
            0isize,
            m,
        ),
{
    let e = start + len;
    assert(e % PAGE_SIZE as int == 0);
    assert(page_ceil(e) == page_of(e));
    let m1 = mmap_result(m, start as int, len as int, prot).1;
    assert(range_mapped(m1, page_of(start as int), page_of(e)));
    assert(without_range(m1, page_of(start as int), page_of(e)) =~= m);
}

/// `mmap` over a range that holds a mapped page fails and changes nothing.
pub proof fn lemma_mmap_overlap_fails(
    m: Map<int, PageView>,
    start: usize,
    len: usize,
    prot: usize,
    v: int,
)
    requires
        page_of(start as int) <= v < page_ceil(start + len),
        m.contains_key(v),
    ensures
        mmap_result(m, start as int, len as int, prot) == (-1isize, m),
{
}

/// `munmap` over a range that holds an unmapped page fails and changes nothing.
pub proof fn lemma_munmap_unmapped_fails(m: Map<int, PageView>, start: usize, len: usize, v: int)
    requires
        page_of(start as int) <= v < page_ceil(start + len),
        !m.contains_key(v),
    ensures
        munmap_result(m, start as int, len as int) == (-1isize, m),
{
    let e = start + len;
    if (e as int) % PAGE_SIZE as int == 0 {
        assert(page_ceil(e) == page_of(e));
    }
}


/// Permission of the pages holding a loaded image: read, execute, user.
pub open spec fn code_perm() -> MapPermission {
    MapPermission { r: true, w: false, x: true, u: true }
}

/// Permission of user stack and heap pages: read, write, user.
pub open spec fn data_perm() -> MapPermission {
    MapPermission { r: true, w: true, x: false, u: true }
}

/// One past the last page of an image of `len` bytes loaded at `APP_BASE`.
pub open spec fn code_end_vpn(len: int) -> int {
    page_ceil(APP_BASE + len)
}

/// First page of the user stack; one unmapped guard page lies below it.
pub open spec fn stack_bottom_vpn(len: int) -> int {
    code_end_vpn(len) + 1
}

/// The initial stack pointer, which is also where the heap begins.
pub open spec fn user_stack_top(len: int) -> int {
    (stack_bottom_vpn(len) + USER_STACK_PAGES) * PAGE_SIZE
}

/// An image of `len` bytes can be loaded: it is not empty, and it, the guard
/// page and the stack fit in the address space.
pub open spec fn image_fits(len: int) -> bool {
    0 < len && APP_BASE + len + (USER_STACK_PAGES + 2) * PAGE_SIZE <= usize::MAX
}

/// The pages of a freshly loaded image of `len` bytes, before its bytes are
/// copied in: zeroed code pages from `APP_BASE`, then the stack pages.
pub open spec fn image_layout(len: int) -> Map<int, PageView> {
    with_range(
        with_range(Map::empty(), page_of(APP_BASE as int), code_end_vpn(len), code_perm()),
        stack_bottom_vpn(len),
        stack_bottom_vpn(len) + USER_STACK_PAGES,
        data_perm(),
    )
}

impl MemorySet {
    /// Builds the address space of a program image: the image's bytes at
    /// `APP_BASE` on read-execute pages, a guard page, then a read-write
    /// user stack. Returns it with the initial stack pointer, or `None` when
    /// the image is empty or too large.
    pub fn from_image(image: &Vec<u8>) -> (r: Option<(MemorySet, usize)>)
        ensures
            r is Some <==> image_fits(image@.len() as int),
            r matches Some((m, sp)) ==> {
                &&& m.wf()
                &&& sp == user_stack_top(image@.len() as int)
                &&& stored(image_layout(image@.len() as int), m@, APP_BASE as int, image@)
            },
    {
        let len = image.len();
        if len == 0 || len > usize::MAX - APP_BASE - (USER_STACK_PAGES + 2) * PAGE_SIZE {
            return None;
        }
        let mut m = MemorySet::new_bare();
        let code_end = (APP_BASE + len + PAGE_SIZE - 1) / PAGE_SIZE;
        let stack_bottom = code_end + 1;
        let stack_top = stack_bottom + USER_STACK_PAGES;
        m.map_range(APP_BASE / PAGE_SIZE, code_end, code_perm_exec());
        m.map_range(stack_bottom, stack_top, data_perm_exec());
        assert forall|i: int| 0 <= i < len implies #[trigger] byte_mapped(m@, APP_BASE + i) by {
            assert(page_of(APP_BASE + i) < code_end_vpn(len as int));
            assert(page_of(APP_BASE + i) >= page_of(APP_BASE as int));
        }
        assert(m@ == image_layout(len as int));
        m.store_bytes(APP_BASE, image);
        Some((m, stack_top * PAGE_SIZE))
    }
}

fn code_perm_exec() -> (r: MapPermission)
    ensures
        r == code_perm(),
{
    MapPermission { r: true, w: false, x: true, u: true }
}

/// Read-write user permission, for stack and heap pages.
pub fn data_perm_exec() -> (r: MapPermission)
    ensures
        r == data_perm(),
{
    MapPermission { r: true, w: true, x: false, u: true }
}
} // verus!
