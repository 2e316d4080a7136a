//! The address space: a page table and an ordered set of non-overlapping
//! regions, each with its backend.

use vstd::prelude::*;
use std::sync::Arc;
use crate::addr::{
    lemma_align_down_4k, lemma_align_up_4k, lemma_aligned_sum, spec_align_down_4k,
    spec_is_aligned_4k, PhysAddr, VirtAddr, VirtAddrRange, PAGE_SIZE_4K,
};
use crate::allocator::HeapView;
use crate::backend::{spec_fresh_pages, spec_frame_in, spec_release_frames, Backend, PageReader};
use crate::flags::MappingFlags;
use crate::paging::{
    lemma_protect_range_step, lemma_unmap_range_step, spec_map_range, spec_page_in,
    spec_protect_range, spec_range_unmapped, spec_unmap_range, PageEntry, PageTable,
};
use crate::phys::{lemma_pages_fit, spec_available_pages, PhysMemory, PhysView};
use crate::region::{
    lemma_first_free, lemma_insert_region, lemma_one_region, lemma_parts_ok,
    lemma_protect_prefix, lemma_protect_regions, lemma_protect_regions_pieces,
    lemma_unmap_prefix, lemma_unmap_regions, lemma_unmap_regions_pieces, push_protect_pieces,
    push_unmap_pieces, spec_covered, spec_find, spec_first_free, spec_is_first_free,
    spec_is_free_at, spec_overlaps, spec_part, spec_piece_of, spec_protect_regions,
    spec_protected_piece_of, spec_rank, spec_regions_wf, spec_unmap_regions, Region,
};

verus! {

/// Why a mapping request was turned down.
#[derive(Clone, Copy, Debug, PartialEq, Eq, Structural)]
pub enum MappingError {
    /// The range is misaligned, empty, outside the address space, or
    /// overlaps a region; or a linear mapping's physical address is
    /// misaligned or above its virtual address.
    InvalidParam,
    /// The pages of a populated region cannot all be allocated.
    NoMemory,
}

/// Whether the page-table entry `entry` of the page at `va` is as the
/// region `r` wants it: the page lies in the region, it has the region's
/// flags, and in a linear region it is mapped to the physical address that
/// lies the region's offset below `va`.
pub open spec fn spec_entry_fits<R: PageReader>(r: Region<R>, va: usize, entry: PageEntry) -> bool {
    &&& r.spec_contains(va)
    &&& entry.flags == r.flags
    &&& r.backend matches Backend::Linear { pa_va_offset } ==> entry.paddr == va - pa_va_offset
}

/// Whether the page table `pt` agrees with the regions `s`: every mapped
/// page is as its region wants it, and every page of a region whose
/// backend maps its pages at once is mapped.
#[verifier::opaque]
pub open spec fn spec_consistent<R: PageReader>(s: Seq<Region<R>>, pt: Map<usize, PageEntry>) -> bool {
    &&& forall|va: usize| #[trigger]
        pt.contains_key(va) ==> exists|i: int|
            0 <= i < s.len() && spec_entry_fits(#[trigger] s[i], va, pt[va])
    &&& forall|i: int, va: usize|
        0 <= i < s.len() && s[i].backend.spec_is_eager() && #[trigger] spec_page_in(
            va,
            s[i].start as int,
            s[i].spec_end(),
        ) ==> pt.contains_key(va)
}

/// The pages that are left of `pages` when `[start, end)` is unmapped:
/// the regions of `s` with an allocation backend give back the physical
/// pages that `pt` maps their pages in `[start, end)` to.
pub open spec fn spec_unmap_pages<R: PageReader>(
    s: Seq<Region<R>>,
    pages: Map<usize, Seq<u8>>,
    pt: Map<usize, PageEntry>,
    start: usize,
    end: usize,
) -> Map<usize, Seq<u8>>
    decreases s.len(),
{
    if s.len() == 0 {
        pages
    } else {
        let prev = spec_unmap_pages(s.drop_last(), pages, pt, start, end);
        let r = s.last();
        if r.backend is Alloc && r.spec_overlaps(start as int, end as int) {
            spec_release_frames(prev, pt, spec_part(r, start, end).0, spec_part(r, start, end).1)
        } else {
            prev
        }
    }
}

/// The address space as a mathematical value.
pub struct AddressSpaceView<R: PageReader> {
    /// First address of the address space.
    pub base: usize,
    /// One past the last address of the address space.
    pub end: usize,
    /// The regions, in ascending order.
    pub regions: Seq<Region<R>>,
    /// The page table.
    pub pt: Map<usize, PageEntry>,
}

impl<R: PageReader> AddressSpaceView<R> {
    /// Whether a new region may be placed at `[start, start + size)`: the
    /// range is page-aligned, not empty, inside the address space, and
    /// overlaps no region.
    pub open spec fn spec_valid_request(self, start: usize, size: usize) -> bool {
        &&& self.base <= start
        &&& start + size <= self.end
        &&& spec_is_aligned_4k(start)
        &&& spec_is_aligned_4k(size)
        &&& size > 0
        &&& !spec_overlaps(self.regions, start as int, start + size)
    }

    /// The address space with the region `region` added to its regions.
    pub open spec fn spec_with_region(self, region: Region<R>) -> AddressSpaceView<R> {
        AddressSpaceView {
            regions: self.regions.insert(spec_rank(self.regions, region.start), region),
            ..self
        }
    }

    /// The region that a fault at `vaddr` for the access `access` is
    /// resolved by: the region that holds `vaddr`, if its flags allow
    /// `access`.
    pub open spec fn spec_fault_region(self, vaddr: usize, access: MappingFlags) -> Option<int> {
        match spec_find(self.regions, vaddr) {
            Some(i) => if self.base <= vaddr < self.end && self.regions[i].flags.spec_contains(
                access,
            ) {
                Some(i)
            } else {
                None
            },
            None => None,
        }
    }

    /// The invariant of an address space: its regions are page-aligned,
    /// inside the address space, in ascending order and disjoint; only
    /// page boundaries are mapped, to page boundaries; and the page table
    /// agrees with the regions, as [`spec_consistent`] says.
    pub open spec fn wf(self) -> bool {
        &&& self.base <= self.end
        &&& spec_regions_wf(self.regions, self.base as int, self.end as int)
        &&& forall|va: usize| #[trigger]
            self.pt.contains_key(va) ==> spec_is_aligned_4k(va) && spec_is_aligned_4k(
                self.pt[va].paddr,
            )
        &&& spec_consistent(self.regions, self.pt)
    }
}

/// No two regions of an address space share an address.
pub proof fn lemma_regions_disjoint<R: PageReader>(v: AddressSpaceView<R>, i: int, j: int)
    requires
        v.wf(),
        0 <= i < v.regions.len(),
        0 <= j < v.regions.len(),
        i != j,
    ensures
        !v.regions[i].spec_overlaps(v.regions[j].start as int, v.regions[j].spec_end()),
        forall|addr: usize| !(v.regions[i].spec_contains(addr) && v.regions[j].spec_contains(addr)),
{
    if i < j {
        assert(v.regions[i].spec_end() <= v.regions[j].start);
    } else {
        assert(v.regions[j].spec_end() <= v.regions[i].start);
    }
}

/// Every mapped page lies in a region and has the region's flags.
pub proof fn lemma_mapped_page_fits<R: PageReader>(v: AddressSpaceView<R>, va: usize)
    requires
        v.wf(),
        v.pt.contains_key(va),
    ensures
        spec_find(v.regions, va) matches Some(i) && spec_entry_fits(v.regions[i], va, v.pt[va]),
{
    reveal(spec_consistent);
    let s = v.regions;
    let j = choose|j: int| 0 <= j < s.len() && spec_entry_fits(#[trigger] s[j], va, v.pt[va]);
    assert(s[j].spec_contains(va));
    let i = spec_find(s, va)->Some_0;
    lemma_one_region(s, va, i, j, v.base as int, v.end as int);
}

/// Every page of a region that is mapped at once stays mapped, with the
/// region's flags; a linear region maps it to the physical address that
/// lies the region's offset below the page.
pub proof fn lemma_eager_region_mapped<R: PageReader>(v: AddressSpaceView<R>, i: int, va: usize)
    requires
        v.wf(),
        0 <= i < v.regions.len(),
        v.regions[i].backend.spec_is_eager(),
        spec_page_in(va, v.regions[i].start as int, v.regions[i].spec_end()),
    ensures
        v.pt.contains_key(va),
        v.pt[va].flags == v.regions[i].flags,
        v.regions[i].backend matches Backend::Linear { pa_va_offset } ==> v.pt[va].paddr == va
            - pa_va_offset,
{
    reveal(spec_consistent);
    let s = v.regions;
    assert(v.pt.contains_key(va));
    let j = choose|j: int| 0 <= j < s.len() && spec_entry_fits(#[trigger] s[j], va, v.pt[va]);
    lemma_one_region(s, va, i, j, v.base as int, v.end as int);
}

/// A fault in a region with a linear backend is never resolved, whatever
/// access is asked for, and changes nothing.
pub proof fn lemma_linear_fault_unresolved<R: PageReader>(
    v: AddressSpaceView<R>,
    vaddr: usize,
    access: MappingFlags,
    phys0: PhysView,
    pt1: Map<usize, PageEntry>,
    phys1: PhysView,
    ok: bool,
)
    requires
        v.wf(),
        spec_find(v.regions, vaddr) matches Some(i) && v.regions[i].backend is Linear,
        match v.spec_fault_region(vaddr, access) {
            None => !ok && pt1 == v.pt && phys1 == phys0,
            Some(i) => v.regions[i].backend.spec_fault_post(
                vaddr,
                v.regions[i].flags,
                v.pt,
                phys0,
                pt1,
                phys1,
                ok,
            ),
        },
    ensures
        !ok,
        pt1 == v.pt,
        phys1 == phys0,
{
}

/// What agrees with the regions has every mapped page in a region.
pub proof fn lemma_consistent_covered<R: PageReader>(s: Seq<Region<R>>, pt: Map<usize, PageEntry>)
    requires
        spec_consistent(s, pt),
    ensures
        forall|va: usize| #[trigger] pt.contains_key(va) ==> spec_covered(s, va),
{
    reveal(spec_consistent);
    assert forall|va: usize| #[trigger] pt.contains_key(va) implies spec_covered(s, va) by {
        let i = choose|i: int| 0 <= i < s.len() && spec_entry_fits(#[trigger] s[i], va, pt[va]);
        assert(s[i].spec_contains(va));
    }
}

/// An address space.
pub struct AddressSpace<R: PageReader> {
    va_range: VirtAddrRange,
    areas: Vec<Region<R>>,
    pt: PageTable,
}

impl<R: PageReader> View for AddressSpace<R> {
    type V = AddressSpaceView<R>;

    closed spec fn view(&self) -> AddressSpaceView<R> {
        AddressSpaceView {
            base: self.va_range.start,
            end: self.va_range.end,
            regions: self.areas@,
            pt: self.pt@,
        }
    }
}

impl<R: PageReader> AddressSpace<R> {
    /// The invariant; see [`AddressSpaceView::wf`].
    pub open spec fn wf(&self) -> bool {
        self@.wf()
    }

    /// An address space over `[base, base + size)` without regions.
    /// Returns `None` where the range does not end at an address.
    pub fn new_empty(base: VirtAddr, size: usize) -> (r: Option<Self>)
        ensures
            r is Some <==> base + size <= usize::MAX,
            r matches Some(aspace) ==> {
                &&& aspace.wf()
                &&& aspace@.base == base
                &&& aspace@.end == base + size
                &&& aspace@.regions == Seq::<Region<R>>::empty()
                &&& aspace@.pt == Map::<usize, PageEntry>::empty()
            },
    {
        proof {
            lemma_consistent_empty::<R>();
        }
        match base.checked_add(size) {
            Some(end) => Some(
                AddressSpace {
                    va_range: VirtAddrRange { start: base, end },
                    areas: Vec::new(),
                    pt: PageTable::new(),
                },
            ),
            None => None,
        }
    }

    /// First address of the address space.
    pub fn base(&self) -> (r: VirtAddr)
        ensures
            r == self@.base,
    {
        self.va_range.start
    }

    /// One past the last address of the address space.
    pub fn end(&self) -> (r: VirtAddr)
        ensures
            r == self@.end,
    {
        self.va_range.end
    }

    /// Number of bytes in the address space.
    pub fn size(&self) -> (r: usize)
        requires
            self.wf(),
        ensures
            r == self@.end - self@.base,
    {
        self.va_range.end - self.va_range.start
    }

    /// Whether `[start, start + size)` lies in the address space.
    pub fn contains_range(&self, start: VirtAddr, size: usize) -> (r: bool)
        ensures
            r == (self@.base <= start && start + size <= self@.end),
    {
        self.va_range.contains_range(start, size)
    }

    /// The number of regions.
    pub fn region_count(&self) -> (r: usize)
        ensures
            r == self@.regions.len(),
    {
        self.areas.len()
    }

    /// The bounds and flags of the region that holds `addr`.
    pub fn find_region(&self, addr: VirtAddr) -> (r: Option<(VirtAddr, usize, MappingFlags)>)
        requires
            self.wf(),
        ensures
            match spec_find(self@.regions, addr) {
                Some(i) => r == Some(
                    (self@.regions[i].start, self@.regions[i].size, self@.regions[i].flags),
                ),
                None => r is None,
            },
    {
        match self.find_index(addr) {
            Some(i) => Some((self.areas[i].start, self.areas[i].size, self.areas[i].flags)),
            None => None,
        }
    }

    /// The index of the region that holds `addr`.
    fn find_index(&self, addr: VirtAddr) -> (r: Option<usize>)
        requires
            self.wf(),
        ensures
            match r {
                Some(i) => spec_find(self@.regions, addr) == Some(i as int) && i
                    < self@.regions.len() && self@.regions[i as int].spec_contains(addr),
                None => spec_find(self@.regions, addr) is None,
            },
    {
        let mut i: usize = 0;
        while i < self.areas.len()
            invariant
                self.wf(),
                i <= self.areas.len(),
                forall|k: int| 0 <= k < i ==> !(#[trigger] self.areas@[k]).spec_contains(addr),
            decreases self.areas.len() - i,
        {
            let area = &self.areas[i];
            if area.start <= addr && addr - area.start < area.size {
                proof {
                    let s = self@.regions;
                    assert(s[i as int].spec_contains(addr));
                    let c = choose|c: int| 0 <= c < s.len() && (#[trigger] s[c]).spec_contains(addr);
                    assert(c == i) by {
                        if c < i {
                            assert(s[c].spec_end() <= s[i as int].start);
                        } else if c > i {
                            assert(s[i as int].spec_end() <= s[c].start);
                        }
                    }
                }
                return Some(i);
            }
            i += 1;
        }
        None
    }

    /// The page table's entry for the page at `vaddr`.
    pub fn page_entry(&self, vaddr: VirtAddr) -> (r: Option<PageEntry>)
        requires
            self.wf(),
        ensures
            r == if self@.pt.contains_key(vaddr) { Some(self@.pt[vaddr]) } else { None },
    {
        proof {
            self.lemma_pt_wf();
            lemma_align_down_4k(vaddr);
        }
        if !memory_addr::is_aligned_4k(vaddr) {
            return None;
        }
        match self.pt.query(vaddr) {
            Ok((paddr, flags)) => Some(PageEntry { paddr, flags }),
            Err(_) => None,
        }
    }

    /// Looks for room for `size` bytes inside `limit`, at or above `hint`.
    ///
    /// Returns the lowest page-aligned address that is not below `hint`
    /// and at which `size` bytes lie inside `limit` and touch no region;
    /// `None` where there is no such address.
    pub fn find_free_area(&self, hint: VirtAddr, size: usize, limit: VirtAddrRange) -> (r: Option<
        VirtAddr,
    >)
        requires
            self.wf(),
        ensures
            match r {
                Some(addr) => {
                    &&& hint <= addr
                    &&& spec_is_free_at(self@.regions, addr, size, limit)
                    &&& forall|b: usize|
                        hint <= b < addr ==> !#[trigger] spec_is_free_at(
                            self@.regions,
                            b,
                            size,
                            limit,
                        )
                },
                None => forall|b: usize|
                    hint <= b ==> !#[trigger] spec_is_free_at(self@.regions, b, size, limit),
            },
            spec_is_free_at(self@.regions, hint, size, limit) ==> r == Some(hint),
            r == spec_first_free(self@.regions, hint, size, limit),
    {
        proof {
            lemma_first_free(self@.regions, hint, size, limit);
        }
        let lo = if hint >= limit.start {
            hint
        } else {
            limit.start
        };
        proof {
            lemma_align_up_4k(lo);
        }
        let mut last_end = if memory_addr::is_aligned_4k(lo) {
            lo
        } else if lo > usize::MAX - PAGE_SIZE_4K {
            // No page boundary lies at or above `lo`.
            return None;
        } else {
            memory_addr::align_up_4k(lo)
        };
        let ghost s = self@.regions;
        let mut i: usize = 0;
        while i < self.areas.len()
            invariant
                self.wf(),
                s == self@.regions,
                i <= self.areas.len(),
                lo <= last_end,
                lo == if hint >= limit.start { hint } else { limit.start },
                spec_is_aligned_4k(last_end),
                forall|k: int| 0 <= k < i ==> (#[trigger] s[k]).spec_end() <= last_end,
                forall|b: usize|
                    lo <= b < last_end ==> !#[trigger] spec_is_free_at(s, b, size, limit),
            decreases self.areas.len() - i,
        {
            let area = &self.areas[i];
            assert(s[i as int].spec_ok(self@.base as int, self@.end as int));
            let area_end = area.start + area.size;
            proof {
                lemma_aligned_sum(area.start, area.size);
            }
            if area_end > last_end {
                if size <= area.start && last_end <= area.start - size {
                    // The gap in front of this region is large enough.
                    proof {
                        assert forall|k: int| 0 <= k < s.len() implies !(#[trigger] s[k]).spec_overlaps(
                            last_end as int,
                            last_end + size,
                        ) by {
                            if k > i {
                                assert(s[i as int].spec_end() <= s[k].start);
                            }
                        }
                    }
                    if size <= limit.end && last_end <= limit.end - size {
                        assert(spec_is_first_free(s, last_end, hint, size, limit));
                        return Some(last_end);
                    } else {
                        return None;
                    }
                }
                proof {
                    let prev = last_end;
                    assert forall|b: usize| lo <= b < area_end implies !#[trigger] spec_is_free_at(
                        s,
                        b,
                        size,
                        limit,
                    ) by {
                        if b >= prev {
                            assert(s[i as int].spec_overlaps(b as int, b + size));
                        }
                    }
                }
                last_end = area_end;
            }
            i += 1;
        }
        if size <= limit.end && last_end <= limit.end - size {
            assert(spec_is_first_free(s, last_end, hint, size, limit));
            Some(last_end)
        } else {
            None
        }
    }

    /// Whether a region overlaps `[start, start + size)`.
    fn overlaps(&self, start: VirtAddr, size: usize) -> (r: bool)
        requires
            self.wf(),
            start + size <= usize::MAX,
        ensures
            r == spec_overlaps(self@.regions, start as int, start + size),
    {
        let end = start + size;
        let mut i: usize = 0;
        while i < self.areas.len()
            invariant
                self.wf(),
                i <= self.areas.len(),
                end == start + size,
                forall|k: int|
                    0 <= k < i ==> !(#[trigger] self.areas@[k]).spec_overlaps(
                        start as int,
                        end as int,
                    ),
            decreases self.areas.len() - i,
        {
            let area = &self.areas[i];
            assert(self@.regions[i as int].spec_ok(self@.base as int, self@.end as int));
            if area.start < end && start < area.start + area.size {
                assert(self@.regions[i as int].spec_overlaps(start as int, end as int));
                return true;
            }
            i += 1;
        }
        false
    }

    /// Whether a new region may be placed at `[start, start + size)`.
    fn valid_request(&self, start: VirtAddr, size: usize) -> (r: bool)
        requires
            self.wf(),
        ensures
            r == self@.spec_valid_request(start, size),
    {
        self.va_range.contains_range(start, size) && memory_addr::is_aligned_4k(start)
            && memory_addr::is_aligned_4k(size) && size > 0 && !self.overlaps(start, size)
    }

    /// Adds a region with the given backend and sets up its pages.
    fn map_area(
        &mut self,
        start: VirtAddr,
        size: usize,
        flags: MappingFlags,
        backend: Backend<R>,
        phys: &mut PhysMemory,
    ) -> (r: Result<(), MappingError>)
        requires
            old(self).wf(),
            old(phys).wf(),
            old(self)@.spec_valid_request(start, size),
            backend matches Backend::Linear { pa_va_offset } ==> spec_is_aligned_4k(pa_va_offset)
                && pa_va_offset <= start,
        ensures
            final(self).wf(),
            final(phys).wf(),
            r is Ok <==> (backend matches Backend::Alloc { populate } ==> !populate
                || spec_available_pages(old(phys)@.heap) >= size / PAGE_SIZE_4K),
            r is Err ==> r == Err::<(), MappingError>(MappingError::NoMemory) && final(self)@ == old(
                self,
            )@ && final(phys)@ == old(phys)@,
            r is Ok ==> {
                let region = Region { start, size, flags, backend };
                let first = backend.spec_first_paddr(old(phys)@.heap, start);
                &&& final(self)@.base == old(self)@.base
                &&& final(self)@.end == old(self)@.end
                &&& final(self)@.regions == old(self)@.spec_with_region(region).regions
                &&& final(self)@.pt == if backend.spec_is_eager() {
                    spec_map_range(
                        old(self)@.pt,
                        start as int,
                        start + size,
                        start as int,
                        first,
                        flags,
                    )
                } else {
                    old(self)@.pt
                }
                &&& if backend is Alloc && backend.spec_is_eager() {
                    &&& final(phys)@.heap == HeapView {
                        current: (first + size) as usize,
                        ..old(phys)@.heap
                    }
                    &&& final(phys)@.pages == spec_fresh_pages(
                        old(phys)@.pages,
                        first,
                        size as int,
                    )
                } else {
                    final(phys)@ == old(phys)@
                }
            },
    {
        proof {
            self.lemma_pt_wf();
            self.lemma_range_unmapped(start, size);
        }
        let ghost s = self@.regions;
        let ghost region = Region { start, size, flags, backend };
        let ghost first = if backend.spec_is_eager() {
            backend.spec_first_paddr(phys@.heap, start)
        } else {
            0
        };
        if !backend.map(start, size, flags, &mut self.pt, phys) {
            assert(self.pt@ == old(self)@.pt);
            return Err(MappingError::NoMemory);
        }

        let mut k: usize = 0;
        while k < self.areas.len() && self.areas[k].start < start
            invariant
                k <= self.areas.len(),
                s == self.areas@,
                forall|i: int| 0 <= i < k ==> (#[trigger] s[i]).start < start,
            decreases self.areas.len() - k,
        {
            k += 1;
        }
        proof {
            assert forall|i: int| k <= i < s.len() implies (#[trigger] s[i]).start >= start by {
                if i > k {
                    assert(s[k as int].spec_end() <= s[i].start);
                    assert(s[k as int].spec_ok(self@.base as int, self@.end as int));
                }
            }
            lemma_insert_region(s, k as int, region, self@.base as int, self@.end as int);
            if backend is Alloc && backend.spec_is_eager() {
                lemma_pages_fit(old(phys)@.heap, size);
            }
            lemma_consistent_map(
                s,
                old(self)@.pt,
                region,
                k as int,
                first,
                self@.base as int,
                self@.end as int,
            );
        }
        self.areas.insert(k, Region { start, size, flags, backend });
        proof {
            assert(self@.regions == s.insert(k as int, region));
            assert forall|va: usize| #[trigger] self@.pt.contains_key(va) implies spec_is_aligned_4k(
                va,
            ) && spec_is_aligned_4k(self@.pt[va].paddr) by {
                assert(self.pt@.contains_key(va));
            }
        }
        Ok(())
    }

    /// Maps `[start_vaddr, start_vaddr + size)` linearly to the physical
    /// addresses from `start_paddr` on, and maps every page at once.
    ///
    /// Fails with `InvalidParam`, and changes nothing, where the range is
    /// misaligned, empty, outside the address space or overlaps a region,
    /// or where `start_paddr` is misaligned or above `start_vaddr`.
    pub fn map_linear(
        &mut self,
        start_vaddr: VirtAddr,
        start_paddr: PhysAddr,
        size: usize,
        flags: MappingFlags,
        phys: &mut PhysMemory,
    ) -> (r: Result<(), MappingError>)
        requires
            old(self).wf(),
            old(phys).wf(),
        ensures
            final(self).wf(),
            final(phys).wf(),
            final(phys)@ == old(phys)@,
            r == if old(self)@.spec_valid_request(start_vaddr, size) && spec_is_aligned_4k(
                start_paddr,
            ) && start_paddr <= start_vaddr {
                Ok::<(), MappingError>(())
            } else {
                Err(MappingError::InvalidParam)
            },
            r is Err ==> final(self)@ == old(self)@,
            r is Ok ==> final(self)@ == (AddressSpaceView {
                pt: spec_map_range(
                    old(self)@.pt,
                    start_vaddr as int,
                    start_vaddr + size,
                    start_vaddr as int,
                    start_paddr as int,
                    flags,
                ),
                ..old(self)@.spec_with_region(
                    Region {
                        start: start_vaddr,
                        size,
                        flags,
                        backend: Backend::Linear {
                            pa_va_offset: (start_vaddr - start_paddr) as usize,
                        },
                    },
                )
            }),
    {
        if !self.valid_request(start_vaddr, size) || !memory_addr::is_aligned_4k(start_paddr)
            || start_paddr > start_vaddr {
            return Err(MappingError::InvalidParam);
        }
        proof {
            lemma_aligned_sum(start_vaddr, start_paddr);
        }
        let backend = Backend::new_linear(start_vaddr - start_paddr);
        match self.map_area(start_vaddr, size, flags, backend, phys) {
            Ok(_) => Ok(()),
            Err(_) => {
                assert(false);
                Err(MappingError::InvalidParam)
            },
        }
    }

    /// Adds a region whose pages come from the page allocator: all of them
    /// at once, zeroed, if `populate` is set, else one by one on page
    /// faults.
    ///
    /// Fails with `InvalidParam` where the range is misaligned, empty,
    /// outside the address space or overlaps a region, and with `NoMemory`
    /// where the pages of a populated region cannot all be allocated.
    /// A failure changes nothing.
    pub fn map_alloc(
        &mut self,
        start: VirtAddr,
        size: usize,
        flags: MappingFlags,
        populate: bool,
        phys: &mut PhysMemory,
    ) -> (r: Result<(), MappingError>)
        requires
            old(self).wf(),
            old(phys).wf(),
        ensures
            final(self).wf(),
            final(phys).wf(),
            r == if !old(self)@.spec_valid_request(start, size) {
                Err::<(), MappingError>(MappingError::InvalidParam)
            } else if populate && spec_available_pages(old(phys)@.heap) < size / PAGE_SIZE_4K {
                Err(MappingError::NoMemory)
            } else {
                Ok(())
            },
            r is Err ==> final(self)@ == old(self)@ && final(phys)@ == old(phys)@,
            r is Ok ==> {
                let backend = Backend::<R>::Alloc { populate };
                let first = backend.spec_first_paddr(old(phys)@.heap, start);
                &&& final(self)@ == (AddressSpaceView {
                    pt: if populate {
                        spec_map_range(
                            old(self)@.pt,
                            start as int,
                            start + size,
                            start as int,
                            first,
                            flags,
                        )
                    } else {
                        old(self)@.pt
                    },
                    ..old(self)@.spec_with_region(Region { start, size, flags, backend })
                })
                &&& if populate {
                    &&& final(phys)@.heap == HeapView {
                        current: (first + size) as usize,
                        ..old(phys)@.heap
                    }
                    &&& final(phys)@.pages == spec_fresh_pages(
                        old(phys)@.pages,
                        first,
                        size as int,
                    )
                } else {
                    final(phys)@ == old(phys)@
                }
            },
    {
        if !self.valid_request(start, size) {
            return Err(MappingError::InvalidParam);
        }
        let backend = Backend::new_alloc(populate);
        match self.map_area(start, size, flags, backend, phys) {
            Ok(_) => Ok(()),
            Err(_) => Err(MappingError::NoMemory),
        }
    }

    /// Adds a region whose pages are read from a file on page faults: the
    /// byte at `start` is the file's byte `file_offset`. No page is mapped
    /// yet.
    ///
    /// Fails with `InvalidParam`, and changes nothing, where the range is
    /// misaligned, empty, outside the address space or overlaps a region.
    pub fn map_file_backed(
        &mut self,
        start: VirtAddr,
        size: usize,
        flags: MappingFlags,
        file_offset: usize,
        reader: Arc<R>,
        phys: &mut PhysMemory,
    ) -> (r: Result<(), MappingError>)
        requires
            old(self).wf(),
            old(phys).wf(),
        ensures
            final(self).wf(),
            final(phys).wf(),
            final(phys)@ == old(phys)@,
            r == if old(self)@.spec_valid_request(start, size) {
                Ok::<(), MappingError>(())
            } else {
                Err(MappingError::InvalidParam)
            },
            r is Err ==> final(self)@ == old(self)@,
            r is Ok ==> final(self)@ == old(self)@.spec_with_region(
                Region {
                    start,
                    size,
                    flags,
                    backend: Backend::FileBacked { reader, file_offset, area_start: start },
                },
            ),
    {
        if !self.valid_request(start, size) {
            return Err(MappingError::InvalidParam);
        }
        let backend = Backend::new_file_backed(reader, file_offset, start);
        match self.map_area(start, size, flags, backend, phys) {
            Ok(_) => Ok(()),
            Err(_) => {
                assert(false);
                Err(MappingError::InvalidParam)
            },
        }
    }

    /// Unmaps `[start, start + size)`.
    ///
    /// Regions inside the range are removed, regions that reach into it are
    /// cut back, and a region that holds it is split in two. Every mapped
    /// page of the range is unmapped, and regions with an allocation
    /// backend give their physical pages back.
    ///
    /// Fails with `InvalidParam`, and changes nothing, where the range is
    /// misaligned or not inside the address space.
    pub fn unmap(&mut self, start: VirtAddr, size: usize, phys: &mut PhysMemory) -> (r: Result<
        (),
        MappingError,
    >)
        requires
            old(self).wf(),
            old(phys).wf(),
        ensures
            final(self).wf(),
            final(phys).wf(),
            r == if old(self)@.base <= start && start + size <= old(self)@.end
                && spec_is_aligned_4k(start) && spec_is_aligned_4k(size) {
                Ok::<(), MappingError>(())
            } else {
                Err(MappingError::InvalidParam)
            },
            r is Err ==> final(self)@ == old(self)@ && final(phys)@ == old(phys)@,
            r is Ok && size == 0 ==> final(self)@ == old(self)@ && final(phys)@ == old(phys)@,
            r is Ok && size > 0 ==> {
                let end = (start + size) as usize;
                &&& final(self)@ == (AddressSpaceView {
                    regions: spec_unmap_regions(old(self)@.regions, start, end),
                    pt: spec_unmap_range(old(self)@.pt, start as int, end as int),
                    ..old(self)@
                })
                &&& final(phys)@.heap == old(phys)@.heap
                &&& final(phys)@.pages == spec_unmap_pages(
                    old(self)@.regions,
                    old(phys)@.pages,
                    old(self)@.pt,
                    start,
                    end,
                )
            },
    {
        if !self.va_range.contains_range(start, size) || !memory_addr::is_aligned_4k(start)
            || !memory_addr::is_aligned_4k(size) {
            return Err(MappingError::InvalidParam);
        }
        if size == 0 {
            return Ok(());
        }
        let end = start + size;
        let ghost s = self@.regions;
        let ghost pt0 = self@.pt;
        let ghost pages0 = phys@.pages;
        let ghost base = self@.base as int;
        let ghost top = self@.end as int;
        proof {
            self.lemma_pt_wf();
            lemma_aligned_sum(start, size);
            assert(s.subrange(0, 0) =~= Seq::<Region<R>>::empty());
            assert(self.pt@ =~= spec_unmap_range(pt0, start as int, start as int));
        }
        let ghost v0 = self@;
        proof {
            assert(spec_sealed_wf(v0)) by {
                reveal(spec_sealed_wf);
            }
        }
        let mut rest: Vec<Region<R>> = Vec::new();
        let mut i: usize = 0;
        while i < self.areas.len()
            invariant
                i <= self.areas.len(),
                self.areas@ == s,
                self.va_range == old(self).va_range,
                spec_sealed_wf(v0),
                v0.regions == s,
                v0.pt == pt0,
                self.pt.wf(),
                phys.wf(),
                end == start + size,
                start < end,
                spec_is_aligned_4k(start),
                spec_is_aligned_4k(end),
                rest@ == spec_unmap_regions(s.subrange(0, i as int), start, end),
                self.pt@ == spec_unmap_range(
                    pt0,
                    start as int,
                    spec_swept(s, i as int, start, end),
                ),
                phys@.heap == old(phys)@.heap,
                phys@.pages == spec_unmap_pages(s.subrange(0, i as int), pages0, pt0, start, end),
            decreases self.areas.len() - i,
        {
            let ghost swept = spec_swept(s, i as int, start, end);
            let ghost next = spec_swept(s, i + 1, start, end);
            let ghost pt_before = self.pt@;
            let ghost pages_before = phys@.pages;
            proof {
                lemma_walk_step(v0, i as int, start, end);
                lemma_unmap_prefix(s, i as int, start, end);
                lemma_unmap_pages_prefix(s, i as int, pages0, pt0, start, end);
            }
            let area = &self.areas[i];
            if area.start < end && start < area.start + area.size {
                let part_start = if area.start >= start {
                    area.start
                } else {
                    start
                };
                let part_end = if area.start + area.size <= end {
                    area.start + area.size
                } else {
                    end
                };
                let part_size = part_end - part_start;
                proof {
                    let a = part_start as int;
                    let b = part_start + part_size;
                    lemma_parts_ok(s[i as int], start, end, v0.base as int, v0.end as int);
                    assert(a == spec_part(s[i as int], start, end).0);
                    assert(b == spec_part(s[i as int], start, end).1);
                    assert(b == next);
                    lemma_unmap_range_step(pt0, start as int, swept, a, b);
                    lemma_release_agree(pages_before, pt_before, pt0, a, b);
                }
                area.backend.unmap(part_start, part_size, &mut self.pt, phys);
            } else {
                proof {
                    lemma_unmap_range_step(pt0, start as int, swept, next, next);
                }
            }
            push_unmap_pieces(area, start, end, &mut rest);
            i += 1;
        }
        proof {
            assert(s.subrange(0, s.len() as int) =~= s);
            lemma_unmap_regions(s, start, end, base, top);
            let swept = spec_swept(s, s.len() as int, start, end);
            lemma_walk_end(v0, start, end);
            lemma_unmap_range_step(pt0, start as int, swept, end as int, end as int);
            lemma_consistent_unmap(s, pt0, start, end, base, top);
        }
        self.areas = rest;
        proof {
            assert forall|va: usize| #[trigger] self@.pt.contains_key(va) implies spec_is_aligned_4k(
                va,
            ) && spec_is_aligned_4k(self@.pt[va].paddr) by {
                assert(pt0.contains_key(va));
                assert(old(self)@.pt.contains_key(va));
            }
        }
        Ok(())
    }

    /// Replaces the access flags of `[start, start + size)` by `new_flags`.
    ///
    /// Regions that reach into the range are split at its bounds; the parts
    /// inside it get the new flags, and so does every mapped page of the
    /// range. Backends and physical pages stay as they are.
    ///
    /// Fails with `InvalidParam`, and changes nothing, where the range is
    /// misaligned or not inside the address space.
    pub fn protect(&mut self, start: VirtAddr, size: usize, new_flags: MappingFlags) -> (r: Result<
        (),
        MappingError,
    >)
        requires
            old(self).wf(),
        ensures
            final(self).wf(),
            r == if old(self)@.base <= start && start + size <= old(self)@.end
                && spec_is_aligned_4k(start) && spec_is_aligned_4k(size) {
                Ok::<(), MappingError>(())
            } else {
                Err(MappingError::InvalidParam)
            },
            r is Err || size == 0 ==> final(self)@ == old(self)@,
            r is Ok && size > 0 ==> final(self)@ == (AddressSpaceView {
                regions: spec_protect_regions(
                    old(self)@.regions,
                    start,
                    (start + size) as usize,
                    new_flags,
                ),
                pt: spec_protect_range(old(self)@.pt, start as int, start + size, new_flags),
                ..old(self)@
            }),
    {
        if !self.va_range.contains_range(start, size) || !memory_addr::is_aligned_4k(start)
            || !memory_addr::is_aligned_4k(size) {
            return Err(MappingError::InvalidParam);
        }
        if size == 0 {
            return Ok(());
        }
        let end = start + size;
        let ghost s = self@.regions;
        let ghost pt0 = self@.pt;
        let ghost base = self@.base as int;
        let ghost top = self@.end as int;
        let ghost v0 = self@;
        proof {
            self.lemma_pt_wf();
            lemma_aligned_sum(start, size);
            assert(s.subrange(0, 0) =~= Seq::<Region<R>>::empty());
            assert(self.pt@ =~= spec_protect_range(pt0, start as int, start as int, new_flags));
            assert(spec_sealed_wf(v0)) by {
                reveal(spec_sealed_wf);
            }
        }
        let mut rest: Vec<Region<R>> = Vec::new();
        let mut i: usize = 0;
        while i < self.areas.len()
            invariant
                i <= self.areas.len(),
                self.areas@ == s,
                self.va_range == old(self).va_range,
                spec_sealed_wf(v0),
                v0.regions == s,
                v0.pt == pt0,
                self.pt.wf(),
                end == start + size,
                start < end,
                spec_is_aligned_4k(start),
                spec_is_aligned_4k(end),
                rest@ == spec_protect_regions(s.subrange(0, i as int), start, end, new_flags),
                self.pt@ == spec_protect_range(
                    pt0,
                    start as int,
                    spec_swept(s, i as int, start, end),
                    new_flags,
                ),
            decreases self.areas.len() - i,
        {
            let ghost swept = spec_swept(s, i as int, start, end);
            let ghost next = spec_swept(s, i + 1, start, end);
            proof {
                lemma_walk_step(v0, i as int, start, end);
                lemma_protect_prefix(s, i as int, start, end, new_flags);
            }
            let area = &self.areas[i];
            if area.start < end && start < area.start + area.size {
                let part_start = if area.start >= start {
                    area.start
                } else {
                    start
                };
                let part_end = if area.start + area.size <= end {
                    area.start + area.size
                } else {
                    end
                };
                let part_size = part_end - part_start;
                proof {
                    let a = part_start as int;
                    let b = part_start + part_size;
                    lemma_parts_ok(s[i as int], start, end, v0.base as int, v0.end as int);
                    assert(a == spec_part(s[i as int], start, end).0);
                    assert(b == spec_part(s[i as int], start, end).1);
                    assert(b == next);
                    lemma_protect_range_step(pt0, start as int, swept, a, b, new_flags);
                }
                area.backend.protect(part_start, part_size, new_flags, &mut self.pt);
            } else {
                proof {
                    lemma_protect_range_step(pt0, start as int, swept, next, next, new_flags);
                }
            }
            push_protect_pieces(area, start, end, new_flags, &mut rest);
            i += 1;
        }
        proof {
            assert(s.subrange(0, s.len() as int) =~= s);
            lemma_protect_regions(s, start, end, new_flags, base, top);
            let swept = spec_swept(s, s.len() as int, start, end);
            lemma_walk_end(v0, start, end);
            lemma_protect_range_step(pt0, start as int, swept, end as int, end as int, new_flags);
            lemma_consistent_protect(s, pt0, start, end, new_flags, base, top);
        }
        self.areas = rest;
        proof {
            assert forall|va: usize| #[trigger] self@.pt.contains_key(va) implies spec_is_aligned_4k(
                va,
            ) && spec_is_aligned_4k(self@.pt[va].paddr) by {
                assert(pt0.contains_key(va));
                assert(old(self)@.pt.contains_key(va));
            }
        }
        Ok(())
    }

    /// Resolves a page fault at `vaddr` for the access `access`.
    ///
    /// The fault is unresolved, and nothing changes, where no region holds
    /// `vaddr` or the region's flags do not allow `access`. Otherwise the
    /// region's backend decides, with the region's flags; see
    /// [`Backend::spec_fault_post`]. The regions stay as they are.
    pub fn handle_page_fault(&mut self, vaddr: VirtAddr, access: MappingFlags, phys: &mut PhysMemory) -> (ok:
        bool)
        requires
            old(self).wf(),
            old(phys).wf(),
        ensures
            final(self).wf(),
            final(phys).wf(),
            final(self)@.base == old(self)@.base,
            final(self)@.end == old(self)@.end,
            final(self)@.regions == old(self)@.regions,
            match old(self)@.spec_fault_region(vaddr, access) {
                None => !ok && final(self)@ == old(self)@ && final(phys)@ == old(phys)@,
                Some(i) => old(self)@.regions[i].backend.spec_fault_post(
                    vaddr,
                    old(self)@.regions[i].flags,
                    old(self)@.pt,
                    old(phys)@,
                    final(self)@.pt,
                    final(phys)@,
                    ok,
                ),
            },
    {
        if !self.va_range.contains(vaddr) {
            return false;
        }
        let i = match self.find_index(vaddr) {
            Some(i) => i,
            None => {
                return false;
            },
        };
        let area = &self.areas[i];
        if !area.flags.contains(access) {
            return false;
        }
        proof {
            self.lemma_pt_wf();
        }
        let ghost s = self@.regions;
        let ok = area.backend.handle_page_fault(vaddr, area.flags, &mut self.pt, phys);
        proof {
            assert(s[i as int].spec_ok(self@.base as int, self@.end as int));
            let va = spec_align_down_4k(vaddr);
            lemma_align_down_4k(vaddr);
            assert(s[i as int].spec_contains(va));
            if ok {
                let frame = s[i as int].backend.spec_fault_frame(old(phys)@.heap, vaddr)->Some_0;
                lemma_consistent_fault(s, old(self)@.pt, i as int, va, frame);
            }
            assert forall|k: usize| #[trigger] self@.pt.contains_key(k) implies spec_is_aligned_4k(
                k,
            ) && spec_is_aligned_4k(self@.pt[k].paddr) by {
                assert(self.pt@.contains_key(k));
            }
        }
        ok
    }

    /// No page of a range that overlaps no region is mapped.
    proof fn lemma_range_unmapped(&self, start: usize, size: usize)
        requires
            self.wf(),
            !spec_overlaps(self@.regions, start as int, start + size),
        ensures
            spec_range_unmapped(self.pt@, start as int, start + size),
    {
        let s = self@.regions;
        lemma_consistent_covered(s, self@.pt);
        assert forall|va: usize| start <= va < start + size implies !#[trigger] self.pt@.contains_key(
            va,
        ) by {
            if self.pt@.contains_key(va) {
                assert(self@.pt.contains_key(va));
                let i = choose|i: int| 0 <= i < s.len() && (#[trigger] s[i]).spec_contains(va);
                assert(s[i].spec_overlaps(start as int, start + size));
            }
        }
    }

    /// The page table of a well-formed address space is well-formed.
    proof fn lemma_pt_wf(&self)
        requires
            self.wf(),
        ensures
            self.pt.wf(),
    {
        assert forall|va: usize| #[trigger] self.pt@.contains_key(va) implies spec_is_aligned_4k(va)
            && spec_is_aligned_4k(self.pt@[va].paddr) by {
            assert(self@.pt.contains_key(va));
        }
    }
}

/// The invariant of an address space, kept folded while a loop walks the
/// regions.
#[verifier::opaque]
spec fn spec_sealed_wf<R: PageReader>(v: AddressSpaceView<R>) -> bool {
    v.wf()
}

/// How far unmapping `[start, end)` has got when the first `i` regions of
/// `s` are done: the end of the last of them, kept inside `[start, end]`.
spec fn spec_swept<R: PageReader>(s: Seq<Region<R>>, i: int, start: usize, end: usize) -> int {
    if i == 0 || s[i - 1].spec_end() <= start {
        start as int
    } else if s[i - 1].spec_end() >= end {
        end as int
    } else {
        s[i - 1].spec_end()
    }
}

/// What the invariant says of the `i`-th region and where walking the
/// regions has got to: the region is page-aligned, not empty and inside
/// the address space, it begins where the region before it ends or above,
/// and nothing is mapped at or above what is swept and below both the
/// region and `end`.
proof fn lemma_walk_step<R: PageReader>(
    v: AddressSpaceView<R>,
    i: int,
    start: usize,
    end: usize,
)
    requires
        spec_sealed_wf(v),
        0 <= i < v.regions.len(),
        start < end,
    ensures
        v.regions[i].spec_ok(v.base as int, v.end as int),
        start <= spec_swept(v.regions, i, start, end) <= spec_swept(v.regions, i + 1, start, end)
            <= end,
        v.regions[i].spec_overlaps(start as int, end as int) ==> {
            &&& spec_swept(v.regions, i, start, end) <= spec_part(v.regions[i], start, end).0
            &&& spec_part(v.regions[i], start, end).0 < spec_part(v.regions[i], start, end).1
            &&& spec_part(v.regions[i], start, end).1 == spec_swept(v.regions, i + 1, start, end)
            &&& forall|va: usize|
                spec_swept(v.regions, i, start, end) <= va < spec_part(v.regions[i], start, end).0
                    ==> !#[trigger] v.pt.contains_key(va)
        },
        !v.regions[i].spec_overlaps(start as int, end as int) ==> forall|va: usize|
            spec_swept(v.regions, i, start, end) <= va < spec_swept(v.regions, i + 1, start, end)
                ==> !#[trigger] v.pt.contains_key(va),
{
    reveal(spec_sealed_wf);
    let s = v.regions;
    assert(s[i].spec_ok(v.base as int, v.end as int));
    if i > 0 {
        assert(s[i - 1].spec_end() <= s[i].start);
        assert(s[i - 1].spec_ok(v.base as int, v.end as int));
    }
    if s[i].spec_overlaps(start as int, end as int) {
        lemma_gap_unmapped(v, i, spec_swept(s, i, start, end), spec_part(s[i], start, end).0);
    } else {
        lemma_gap_unmapped(
            v,
            i,
            spec_swept(s, i, start, end),
            spec_swept(s, i + 1, start, end),
        );
    }
}

/// When all regions are walked, nothing is mapped between what is swept
/// and `end`.
proof fn lemma_walk_end<R: PageReader>(v: AddressSpaceView<R>, start: usize, end: usize)
    requires
        spec_sealed_wf(v),
        start < end,
    ensures
        start <= spec_swept(v.regions, v.regions.len() as int, start, end) <= end,
        forall|va: usize|
            spec_swept(v.regions, v.regions.len() as int, start, end) <= va < end
                ==> !#[trigger] v.pt.contains_key(va),
{
    reveal(spec_sealed_wf);
    let s = v.regions;
    if s.len() > 0 {
        assert(s[s.len() - 1].spec_ok(v.base as int, v.end as int));
    }
    lemma_gap_unmapped(
        v,
        s.len() as int,
        spec_swept(s, s.len() as int, start, end),
        end as int,
    );
}

/// Between two neighbouring regions nothing is mapped: no page of
/// `[lo, hi)` is, where the regions before the `i`-th end at or below `lo`
/// and the others begin at or above `hi`.
proof fn lemma_gap_unmapped<R: PageReader>(v: AddressSpaceView<R>, i: int, lo: int, hi: int)
    requires
        v.wf(),
        0 <= i <= v.regions.len(),
        lo < hi && i > 0 ==> v.regions[i - 1].spec_end() <= lo,
        lo < hi && i < v.regions.len() ==> hi <= v.regions[i].start,
    ensures
        forall|va: usize| lo <= va < hi ==> !#[trigger] v.pt.contains_key(va),
{
    let s = v.regions;
    lemma_consistent_covered(s, v.pt);
    assert forall|va: usize| lo <= va < hi implies !#[trigger] v.pt.contains_key(va) by {
        if v.pt.contains_key(va) {
            let j = choose|j: int| 0 <= j < s.len() && (#[trigger] s[j]).spec_contains(va);
            if j < i {
                if j < i - 1 {
                    assert(s[j].spec_end() <= s[i - 1].start);
                    assert(s[i - 1].spec_ok(v.base as int, v.end as int));
                }
            } else {
                if j > i {
                    assert(s[i].spec_end() <= s[j].start);
                    assert(s[i].spec_ok(v.base as int, v.end as int));
                }
            }
        }
    }
}

/// Taking one more region into account when physical pages are given
/// back.
proof fn lemma_unmap_pages_prefix<R: PageReader>(
    s: Seq<Region<R>>,
    i: int,
    pages: Map<usize, Seq<u8>>,
    pt: Map<usize, PageEntry>,
    start: usize,
    end: usize,
)
    requires
        0 <= i < s.len(),
    ensures
        spec_unmap_pages(s.subrange(0, i + 1), pages, pt, start, end) == ({
            let prev = spec_unmap_pages(s.subrange(0, i), pages, pt, start, end);
            if s[i].backend is Alloc && s[i].spec_overlaps(start as int, end as int) {
                spec_release_frames(
                    prev,
                    pt,
                    spec_part(s[i], start, end).0,
                    spec_part(s[i], start, end).1,
                )
            } else {
                prev
            }
        }),
{
    assert(s.subrange(0, i + 1).drop_last() =~= s.subrange(0, i));
    assert(s.subrange(0, i + 1).last() == s[i]);
}

/// Giving back the pages that one page table maps a range to is giving
/// back those that another maps it to, where the two agree on the range.
proof fn lemma_release_agree(
    pages: Map<usize, Seq<u8>>,
    a: Map<usize, PageEntry>,
    b: Map<usize, PageEntry>,
    lo: int,
    hi: int,
)
    requires
        forall|va: usize|
            lo <= va < hi ==> (#[trigger] a.contains_key(va) <==> b.contains_key(va)) && (
            a.contains_key(va) ==> a[va] == b[va]),
    ensures
        spec_release_frames(pages, a, lo, hi) == spec_release_frames(pages, b, lo, hi),
{
    lemma_frame_in_agree(a, b, lo, hi);
    assert(spec_release_frames(pages, a, lo, hi) =~= spec_release_frames(pages, b, lo, hi));
}

/// Page tables that agree on `[lo, hi)` map the pages of `[lo, hi)` to
/// the same physical pages.
proof fn lemma_frame_in_agree(
    a: Map<usize, PageEntry>,
    b: Map<usize, PageEntry>,
    lo: int,
    hi: int,
)
    requires
        forall|va: usize|
            lo <= va < hi ==> (#[trigger] a.contains_key(va) <==> b.contains_key(va)) && (
            a.contains_key(va) ==> a[va] == b[va]),
    ensures
        forall|p: usize| #[trigger] spec_frame_in(a, p, lo, hi) <==> spec_frame_in(b, p, lo, hi),
{
    assert forall|p: usize| #[trigger] spec_frame_in(a, p, lo, hi) <==> spec_frame_in(
        b,
        p,
        lo,
        hi,
    ) by {
        if spec_frame_in(a, p, lo, hi) {
            let w = choose|w: usize| lo <= w < hi && #[trigger] a.contains_key(w) && a[w].paddr == p;
            assert(b.contains_key(w));
        }
        if spec_frame_in(b, p, lo, hi) {
            let w = choose|w: usize| lo <= w < hi && #[trigger] b.contains_key(w) && b[w].paddr == p;
            assert(a.contains_key(w));
        }
    }
}

/// An empty page table agrees with regions that map nothing at once.
proof fn lemma_consistent_empty<R: PageReader>()
    ensures
        spec_consistent(Seq::<Region<R>>::empty(), Map::<usize, PageEntry>::empty()),
{
    reveal(spec_consistent);
}

/// Adding a region keeps the page table in agreement with the regions:
/// the pages of a region that is mapped at once are mapped to the
/// consecutive physical pages from `first` on, which for a linear region
/// lie its offset below; any other region maps nothing.
proof fn lemma_consistent_map<R: PageReader>(
    s: Seq<Region<R>>,
    pt: Map<usize, PageEntry>,
    r: Region<R>,
    k: int,
    first: int,
    base: int,
    top: int,
)
    requires
        spec_regions_wf(s, base, top),
        spec_consistent(s, pt),
        r.spec_ok(base, top),
        top <= usize::MAX,
        0 <= k <= s.len(),
        0 <= first,
        first + r.size <= usize::MAX,
        r.backend matches Backend::Linear { pa_va_offset } ==> first == r.start - pa_va_offset,
    ensures
        spec_consistent(
            s.insert(k, r),
            if r.backend.spec_is_eager() {
                spec_map_range(pt, r.start as int, r.spec_end(), r.start as int, first, r.flags)
            } else {
                pt
            },
        ),
{
    reveal(spec_consistent);
    let t = s.insert(k, r);
    let pt1 = if r.backend.spec_is_eager() {
        spec_map_range(pt, r.start as int, r.spec_end(), r.start as int, first, r.flags)
    } else {
        pt
    };
    assert forall|va: usize| #[trigger] pt1.contains_key(va) implies exists|i: int|
        0 <= i < t.len() && spec_entry_fits(#[trigger] t[i], va, pt1[va]) by {
        if r.backend.spec_is_eager() && spec_page_in(va, r.start as int, r.spec_end()) {
            assert(spec_entry_fits(t[k], va, pt1[va]));
        } else {
            assert(pt.contains_key(va));
            let i = choose|i: int| 0 <= i < s.len() && spec_entry_fits(#[trigger] s[i], va, pt[va]);
            if i < k {
                assert(spec_entry_fits(t[i], va, pt1[va]));
            } else {
                assert(spec_entry_fits(t[i + 1], va, pt1[va]));
            }
        }
    }
    assert forall|i: int, va: usize|
        0 <= i < t.len() && t[i].backend.spec_is_eager() && #[trigger] spec_page_in(
            va,
            t[i].start as int,
            t[i].spec_end(),
        ) implies pt1.contains_key(va) by {
        if i < k {
            assert(spec_page_in(va, s[i].start as int, s[i].spec_end()));
        } else if i > k {
            assert(spec_page_in(va, s[i - 1].start as int, s[i - 1].spec_end()));
        }
    }
}

/// Resolving a fault keeps the page table in agreement with the regions:
/// the faulting page of a region that is not linear gets the region's
/// flags.
proof fn lemma_consistent_fault<R: PageReader>(
    s: Seq<Region<R>>,
    pt: Map<usize, PageEntry>,
    i: int,
    va: usize,
    frame: usize,
)
    requires
        spec_consistent(s, pt),
        0 <= i < s.len(),
        s[i].spec_contains(va),
        !(s[i].backend is Linear),
    ensures
        spec_consistent(s, pt.insert(va, PageEntry { paddr: frame, flags: s[i].flags })),
{
    reveal(spec_consistent);
    let pt1 = pt.insert(va, PageEntry { paddr: frame, flags: s[i].flags });
    assert forall|x: usize| #[trigger] pt1.contains_key(x) implies exists|k: int|
        0 <= k < s.len() && spec_entry_fits(#[trigger] s[k], x, pt1[x]) by {
        if x == va {
            assert(spec_entry_fits(s[i], x, pt1[x]));
        } else {
            assert(pt.contains_key(x));
            let k = choose|k: int| 0 <= k < s.len() && spec_entry_fits(#[trigger] s[k], x, pt[x]);
            assert(spec_entry_fits(s[k], x, pt1[x]));
        }
    }
}

/// Unmapping keeps the page table in agreement with the regions.
proof fn lemma_consistent_unmap<R: PageReader>(
    s: Seq<Region<R>>,
    pt: Map<usize, PageEntry>,
    start: usize,
    end: usize,
    base: int,
    top: int,
)
    requires
        spec_regions_wf(s, base, top),
        spec_consistent(s, pt),
        top <= usize::MAX,
        spec_is_aligned_4k(start),
        spec_is_aligned_4k(end),
        start < end,
    ensures
        spec_consistent(
            spec_unmap_regions(s, start, end),
            spec_unmap_range(pt, start as int, end as int),
        ),
{
    reveal(spec_consistent);
    let t = spec_unmap_regions(s, start, end);
    let pt1 = spec_unmap_range(pt, start as int, end as int);
    lemma_unmap_regions(s, start, end, base, top);
    lemma_unmap_regions_pieces(s, start, end, base, top);
    assert forall|va: usize| #[trigger] pt1.contains_key(va) implies exists|i: int|
        0 <= i < t.len() && spec_entry_fits(#[trigger] t[i], va, pt1[va]) by {
        assert(pt.contains_key(va));
        let j = choose|j: int| 0 <= j < s.len() && spec_entry_fits(#[trigger] s[j], va, pt[va]);
        assert(s[j].spec_contains(va));
        assert(spec_covered(s, va));
        assert(spec_covered(t, va));
        let i = choose|i: int| 0 <= i < t.len() && (#[trigger] t[i]).spec_contains(va);
        let j2 = choose|j2: int| 0 <= j2 < s.len() && spec_piece_of(t[i], #[trigger] s[j2]);
        assert(s[j2].spec_contains(va));
        lemma_one_region(s, va, j, j2, base, top);
        assert(spec_entry_fits(t[i], va, pt1[va]));
    }
    assert forall|i: int, va: usize|
        0 <= i < t.len() && t[i].backend.spec_is_eager() && #[trigger] spec_page_in(
            va,
            t[i].start as int,
            t[i].spec_end(),
        ) implies pt1.contains_key(va) by {
        let j = choose|j: int| 0 <= j < s.len() && spec_piece_of(t[i], #[trigger] s[j]);
        assert(spec_page_in(va, s[j].start as int, s[j].spec_end()));
        assert(pt.contains_key(va));
        assert(t[i].spec_contains(va));
        assert(spec_covered(t, va));
    }
}

/// A change of flags keeps the page table in agreement with the regions.
proof fn lemma_consistent_protect<R: PageReader>(
    s: Seq<Region<R>>,
    pt: Map<usize, PageEntry>,
    start: usize,
    end: usize,
    flags: MappingFlags,
    base: int,
    top: int,
)
    requires
        spec_regions_wf(s, base, top),
        spec_consistent(s, pt),
        top <= usize::MAX,
        spec_is_aligned_4k(start),
        spec_is_aligned_4k(end),
        start < end,
    ensures
        spec_consistent(
            spec_protect_regions(s, start, end, flags),
            spec_protect_range(pt, start as int, end as int, flags),
        ),
{
    reveal(spec_consistent);
    let t = spec_protect_regions(s, start, end, flags);
    let pt1 = spec_protect_range(pt, start as int, end as int, flags);
    lemma_protect_regions(s, start, end, flags, base, top);
    lemma_protect_regions_pieces(s, start, end, flags, base, top);
    assert forall|va: usize| #[trigger] pt1.contains_key(va) implies exists|i: int|
        0 <= i < t.len() && spec_entry_fits(#[trigger] t[i], va, pt1[va]) by {
        assert(pt.contains_key(va));
        let j = choose|j: int| 0 <= j < s.len() && spec_entry_fits(#[trigger] s[j], va, pt[va]);
        assert(s[j].spec_contains(va));
        assert(spec_covered(s, va));
        assert(spec_covered(t, va));
        let i = choose|i: int| 0 <= i < t.len() && (#[trigger] t[i]).spec_contains(va);
        let j2 = choose|j2: int|
            0 <= j2 < s.len() && spec_protected_piece_of(
                t[i],
                #[trigger] s[j2],
                start,
                end,
                flags,
            );
        assert(s[j2].spec_contains(va));
        lemma_one_region(s, va, j, j2, base, top);
        assert(spec_entry_fits(t[i], va, pt1[va]));
    }
    assert forall|i: int, va: usize|
        0 <= i < t.len() && t[i].backend.spec_is_eager() && #[trigger] spec_page_in(
            va,
            t[i].start as int,
            t[i].spec_end(),
        ) implies pt1.contains_key(va) by {
        let j = choose|j: int|
            0 <= j < s.len() && spec_protected_piece_of(
                t[i],
                #[trigger] s[j],
                start,
                end,
                flags,
            );
        assert(spec_page_in(va, s[j].start as int, s[j].spec_end()));
        assert(pt.contains_key(va));
    }
}

} // verus!
