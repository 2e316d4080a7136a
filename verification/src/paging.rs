//! The page table: which virtual page is mapped to which physical page,
//! with which access flags.

use vstd::prelude::*;
use std::collections::HashMap;
use crate::addr::{
    lemma_align_down_4k, lemma_aligned_gap, lemma_aligned_next, lemma_aligned_sum,
    spec_align_down_4k, spec_is_aligned_4k, PhysAddr, VirtAddr, PAGE_SIZE_4K,
};
use crate::flags::MappingFlags;

verus! {

/// Why a page-table operation was turned down.
#[derive(Clone, Copy, Debug, PartialEq, Eq, Structural)]
pub enum PagingError {
    /// An address is not a multiple of the page size.
    NotAligned,
    /// The page is not mapped.
    NotMapped,
    /// The page is mapped already.
    AlreadyMapped,
}

/// One entry of the page table: the physical page and the access flags.
#[derive(Clone, Copy, Debug, PartialEq, Eq, Structural)]
pub struct PageEntry {
    pub paddr: PhysAddr,
    pub flags: MappingFlags,
}

/// Whether `va` is a page boundary in `[start, end)`.
pub open spec fn spec_page_in(va: usize, start: int, end: int) -> bool {
    start <= va < end && spec_is_aligned_4k(va)
}

/// `m` with every page in `[start, end)` mapped to consecutive physical
/// pages: the page at `anchor` to `paddr`, and so on in step.
pub open spec fn spec_map_range(
    m: Map<usize, PageEntry>,
    start: int,
    end: int,
    anchor: int,
    paddr: int,
    flags: MappingFlags,
) -> Map<usize, PageEntry> {
    Map::new(
        |va: usize| m.contains_key(va) || spec_page_in(va, start, end),
        |va: usize|
            if spec_page_in(va, start, end) {
                PageEntry { paddr: (paddr + (va - anchor)) as usize, flags }
            } else {
                m[va]
            },
    )
}

/// Whether `m1` is what mapping the pages of `[start, end)` in `m0` leaves
/// when it stops at the page at `stop`, the first of them that is mapped
/// already: the pages before `stop` are mapped, nothing else has changed.
pub open spec fn spec_mapped_until(
    m0: Map<usize, PageEntry>,
    m1: Map<usize, PageEntry>,
    start: usize,
    stop: usize,
    end: usize,
    paddr: usize,
    flags: MappingFlags,
) -> bool {
    &&& start <= stop < end
    &&& m0.contains_key(stop)
    &&& spec_range_unmapped(m0, start as int, stop as int)
    &&& m1 == spec_map_range(m0, start as int, stop as int, start as int, paddr as int, flags)
}

/// `m` without the pages in `[start, end)`.
pub open spec fn spec_unmap_range(m: Map<usize, PageEntry>, start: int, end: int) -> Map<
    usize,
    PageEntry,
> {
    Map::new(|va: usize| m.contains_key(va) && !(start <= va < end), |va: usize| m[va])
}

/// `m` with the flags of every mapped page in `[start, end)` replaced.
pub open spec fn spec_protect_range(
    m: Map<usize, PageEntry>,
    start: int,
    end: int,
    flags: MappingFlags,
) -> Map<usize, PageEntry> {
    Map::new(
        |va: usize| m.contains_key(va),
        |va: usize|
            if start <= va < end {
                PageEntry { paddr: m[va].paddr, flags }
            } else {
                m[va]
            },
    )
}

/// Whether no page in `[start, end)` is mapped in `m`.
pub open spec fn spec_range_unmapped(m: Map<usize, PageEntry>, start: int, end: int) -> bool {
    forall|va: usize| start <= va < end ==> !#[trigger] m.contains_key(va)
}

/// A page table of 4 KiB pages.
pub struct PageTable {
    entries: HashMap<usize, PageEntry>,
}

impl View for PageTable {
    type V = Map<usize, PageEntry>;

    closed spec fn view(&self) -> Map<usize, PageEntry> {
        self.entries@
    }
}

impl PageTable {
    /// The invariant: only page boundaries are mapped, and only to page
    /// boundaries.
    pub open spec fn wf(&self) -> bool {
        forall|va: usize| #[trigger]
            self@.contains_key(va) ==> spec_is_aligned_4k(va) && spec_is_aligned_4k(self@[va].paddr)
    }

    /// A page table that maps nothing.
    pub fn new() -> (r: Self)
        ensures
            r.wf(),
            r@ == Map::<usize, PageEntry>::empty(),
    {
        PageTable { entries: HashMap::new() }
    }

    /// Maps the page at `vaddr` to the physical page at `paddr`.
    pub fn map(&mut self, vaddr: VirtAddr, paddr: PhysAddr, flags: MappingFlags) -> (r: Result<
        (),
        PagingError,
    >)
        requires
            old(self).wf(),
        ensures
            final(self).wf(),
            r == if !spec_is_aligned_4k(vaddr) || !spec_is_aligned_4k(paddr) {
                Err::<(), PagingError>(PagingError::NotAligned)
            } else if old(self)@.contains_key(vaddr) {
                Err(PagingError::AlreadyMapped)
            } else {
                Ok(())
            },
            final(self)@ == if r is Ok {
                old(self)@.insert(vaddr, PageEntry { paddr, flags })
            } else {
                old(self)@
            },
    {
        broadcast use vstd::std_specs::hash::group_hash_axioms;

        if !memory_addr::is_aligned_4k(vaddr) || !memory_addr::is_aligned_4k(paddr) {
            return Err(PagingError::NotAligned);
        }
        if self.entries.contains_key(&vaddr) {
            return Err(PagingError::AlreadyMapped);
        }
        self.entries.insert(vaddr, PageEntry { paddr, flags });
        assert forall|va: usize| #[trigger] self@.contains_key(va) implies spec_is_aligned_4k(va)
            && spec_is_aligned_4k(self@[va].paddr) by {
            if va != vaddr {
                assert(old(self)@.contains_key(va));
            }
        }
        Ok(())
    }

    /// Removes the mapping of the page at `vaddr` and returns the physical
    /// page it was mapped to.
    pub fn unmap(&mut self, vaddr: VirtAddr) -> (r: Result<PhysAddr, PagingError>)
        requires
            old(self).wf(),
        ensures
            final(self).wf(),
            r == if old(self)@.contains_key(vaddr) {
                Ok::<PhysAddr, PagingError>(old(self)@[vaddr].paddr)
            } else {
                Err(PagingError::NotMapped)
            },
            final(self)@ == old(self)@.remove(vaddr),
    {
        broadcast use vstd::std_specs::hash::group_hash_axioms;

        let removed = self.entries.remove(&vaddr);
        assert forall|va: usize| #[trigger] self@.contains_key(va) implies spec_is_aligned_4k(va)
            && spec_is_aligned_4k(self@[va].paddr) by {
            assert(old(self)@.contains_key(va));
        }
        match removed {
            Some(entry) => Ok(entry.paddr),
            None => Err(PagingError::NotMapped),
        }
    }

    /// Replaces the access flags of the page at `vaddr`.
    pub fn protect(&mut self, vaddr: VirtAddr, flags: MappingFlags) -> (r: Result<
        (),
        PagingError,
    >)
        requires
            old(self).wf(),
        ensures
            final(self).wf(),
            r == if old(self)@.contains_key(vaddr) {
                Ok::<(), PagingError>(())
            } else {
                Err(PagingError::NotMapped)
            },
            final(self)@ == if r is Ok {
                old(self)@.insert(vaddr, PageEntry { paddr: old(self)@[vaddr].paddr, flags })
            } else {
                old(self)@
            },
    {
        broadcast use vstd::std_specs::hash::group_hash_axioms;

        let paddr = match self.entries.get(&vaddr) {
            Some(entry) => entry.paddr,
            None => {
                return Err(PagingError::NotMapped);
            },
        };
        self.entries.insert(vaddr, PageEntry { paddr, flags });
        assert forall|va: usize| #[trigger] self@.contains_key(va) implies spec_is_aligned_4k(va)
            && spec_is_aligned_4k(self@[va].paddr) by {
            assert(old(self)@.contains_key(va));
        }
        Ok(())
    }

    /// Looks `vaddr` up: the physical address it is mapped to and the
    /// flags of its page.
    pub fn query(&self, vaddr: VirtAddr) -> (r: Result<(PhysAddr, MappingFlags), PagingError>)
        requires
            self.wf(),
        ensures
            r == if self@.contains_key(spec_align_down_4k(vaddr)) && self@[spec_align_down_4k(
                vaddr,
            )].paddr + vaddr % PAGE_SIZE_4K <= usize::MAX {
                Ok::<(PhysAddr, MappingFlags), PagingError>(
                    (
                        (self@[spec_align_down_4k(vaddr)].paddr + vaddr % PAGE_SIZE_4K) as usize,
                        self@[spec_align_down_4k(vaddr)].flags,
                    ),
                )
            } else {
                Err(PagingError::NotMapped)
            },
    {
        broadcast use vstd::std_specs::hash::group_hash_axioms;

        let page = memory_addr::align_down_4k(vaddr);
        proof {
            lemma_align_down_4k(vaddr);
        }
        match self.entries.get(&page) {
            Some(entry) => {
                match entry.paddr.checked_add(vaddr - page) {
                    Some(paddr) => Ok((paddr, entry.flags)),
                    None => Err(PagingError::NotMapped),
                }
            },
            None => Err(PagingError::NotMapped),
        }
    }

    /// Whether the page at `vaddr` is mapped.
    pub fn is_mapped(&self, vaddr: VirtAddr) -> (r: bool)
        ensures
            r == self@.contains_key(vaddr),
    {
        broadcast use vstd::std_specs::hash::group_hash_axioms;

        self.entries.contains_key(&vaddr)
    }

    /// Maps the pages of `[start, start + size)` to the consecutive
    /// physical pages from `paddr` on. Stops at the first page that is
    /// mapped already and returns `false`; the pages before it stay mapped.
    /// What is mapped in the end is what `spec_mapped_until` says.
    pub fn map_region(
        &mut self,
        start: VirtAddr,
        size: usize,
        paddr: PhysAddr,
        flags: MappingFlags,
    ) -> (r: bool)
        requires
            old(self).wf(),
            spec_is_aligned_4k(start),
            spec_is_aligned_4k(size),
            spec_is_aligned_4k(paddr),
            start + size <= usize::MAX,
            paddr + size <= usize::MAX,
        ensures
            final(self).wf(),
            r == spec_range_unmapped(old(self)@, start as int, start + size),
            r ==> final(self)@ == spec_map_range(
                old(self)@,
                start as int,
                start + size,
                start as int,
                paddr as int,
                flags,
            ),
            !r ==> exists|stop: usize| #[trigger]
                spec_mapped_until(
                    old(self)@,
                    final(self)@,
                    start,
                    stop,
                    (start + size) as usize,
                    paddr,
                    flags,
                ),
            forall|va: usize|
                !(start <= va < start + size) ==> (#[trigger] final(self)@.contains_key(va)
                    <==> old(self)@.contains_key(va)),
            forall|va: usize| #[trigger]
                old(self)@.contains_key(va) ==> final(self)@.contains_key(va) && final(self)@[va]
                    == old(self)@[va],
    {
        let end = start + size;
        let mut va = start;
        proof {
            lemma_aligned_sum(start, size);
        }
        let ghost m0 = old(self)@;
        proof {
            assert(spec_keys_aligned(m0));
            assert(self@ =~= spec_map_range(
                m0,
                start as int,
                start as int,
                start as int,
                paddr as int,
                flags,
            ));
        }
        while va < end
            invariant
                self.wf(),
                m0 == old(self)@,
                spec_keys_aligned(m0),
                start <= va <= end,
                end == start + size,
                paddr + size <= usize::MAX,
                spec_is_aligned_4k(va),
                spec_is_aligned_4k(end),
                spec_is_aligned_4k(paddr),
                spec_is_aligned_4k(start),
                spec_range_unmapped(m0, start as int, va as int),
                self@ == spec_map_range(m0, start as int, va as int, start as int, paddr as int, flags),
            decreases end - va,
        {
            proof {
                lemma_aligned_gap(va, end);
                lemma_aligned_next(va);
                lemma_aligned_sum(va, start);
                lemma_aligned_sum(paddr, (va - start) as usize);
                lemma_map_range_page(m0, start as int, va, start as int, paddr as int, flags);
            }
            match self.map(va, paddr + (va - start), flags) {
                Ok(_) => {},
                Err(_) => {
                    assert(m0.contains_key(va));
                    assert(spec_mapped_until(
                        old(self)@,
                        self@,
                        start,
                        va,
                        (start + size) as usize,
                        paddr,
                        flags,
                    ));
                    return false;
                },
            }
            proof {
                lemma_range_unmapped_page(m0, start as int, va);
            }
            va = va + PAGE_SIZE_4K;
        }
        true
    }

    /// Whether no page of `[start, start + size)` is mapped.
    pub fn range_unmapped(&self, start: VirtAddr, size: usize) -> (r: bool)
        requires
            self.wf(),
            spec_is_aligned_4k(start),
            spec_is_aligned_4k(size),
            start + size <= usize::MAX,
        ensures
            r == spec_range_unmapped(self@, start as int, start + size),
    {
        let end = start + size;
        let mut va = start;
        proof {
            lemma_aligned_sum(start, size);
        }
        assert(spec_keys_aligned(self@));
        while va < end
            invariant
                spec_keys_aligned(self@),
                start <= va <= end,
                end == start + size,
                spec_is_aligned_4k(va),
                spec_is_aligned_4k(end),
                spec_range_unmapped(self@, start as int, va as int),
            decreases end - va,
        {
            if self.is_mapped(va) {
                return false;
            }
            proof {
                lemma_aligned_gap(va, end);
                lemma_aligned_next(va);
                lemma_range_unmapped_page(self@, start as int, va);
            }
            va = va + PAGE_SIZE_4K;
        }
        true
    }

    /// Unmaps every mapped page of `[start, start + size)`.
    pub fn unmap_region(&mut self, start: VirtAddr, size: usize)
        requires
            old(self).wf(),
            spec_is_aligned_4k(start),
            spec_is_aligned_4k(size),
            start + size <= usize::MAX,
        ensures
            final(self).wf(),
            final(self)@ == spec_unmap_range(old(self)@, start as int, start + size),
    {
        let end = start + size;
        let mut va = start;
        proof {
            lemma_aligned_sum(start, size);
        }
        let ghost m0 = old(self)@;
        proof {
            assert(spec_keys_aligned(m0));
            assert(self@ =~= spec_unmap_range(m0, start as int, va as int));
        }
        while va < end
            invariant
                self.wf(),
                spec_keys_aligned(m0),
                start <= va <= end,
                end == start + size,
                spec_is_aligned_4k(va),
                spec_is_aligned_4k(end),
                self@ == spec_unmap_range(m0, start as int, va as int),
            decreases end - va,
        {
            proof {
                lemma_aligned_gap(va, end);
                lemma_aligned_next(va);
                lemma_unmap_range_page(m0, start as int, va);
            }
            let _ = self.unmap(va);
            va = va + PAGE_SIZE_4K;
        }
    }

    /// Replaces the access flags of every mapped page of
    /// `[start, start + size)`.
    pub fn protect_region(&mut self, start: VirtAddr, size: usize, flags: MappingFlags)
        requires
            old(self).wf(),
            spec_is_aligned_4k(start),
            spec_is_aligned_4k(size),
            start + size <= usize::MAX,
        ensures
            final(self).wf(),
            final(self)@ == spec_protect_range(old(self)@, start as int, start + size, flags),
    {
        let end = start + size;
        let mut va = start;
        proof {
            lemma_aligned_sum(start, size);
        }
        let ghost m0 = old(self)@;
        proof {
            assert(spec_keys_aligned(m0));
            assert(self@ =~= spec_protect_range(m0, start as int, va as int, flags));
        }
        while va < end
            invariant
                self.wf(),
                spec_keys_aligned(m0),
                start <= va <= end,
                end == start + size,
                spec_is_aligned_4k(va),
                spec_is_aligned_4k(end),
                self@ == spec_protect_range(m0, start as int, va as int, flags),
            decreases end - va,
        {
            proof {
                lemma_aligned_gap(va, end);
                lemma_aligned_next(va);
                lemma_protect_range_page(m0, start as int, va, flags);
            }
            let _ = self.protect(va, flags);
            va = va + PAGE_SIZE_4K;
        }
    }
}

/// Whether only page boundaries are mapped in `m`.
pub open spec fn spec_keys_aligned(m: Map<usize, PageEntry>) -> bool {
    forall|va: usize| #[trigger] m.contains_key(va) ==> spec_is_aligned_4k(va)
}

/// Mapping a range page by page: mapping `[start, va)` and then the page
/// at `va` is mapping `[start, va + 4096)`.
pub(crate) proof fn lemma_map_range_page(
    m: Map<usize, PageEntry>,
    start: int,
    va: usize,
    anchor: int,
    paddr: int,
    flags: MappingFlags,
)
    requires
        start <= va,
        spec_is_aligned_4k(va),
        va + PAGE_SIZE_4K <= usize::MAX,
    ensures
        spec_map_range(m, start, va as int, anchor, paddr, flags).insert(
            va,
            PageEntry { paddr: (paddr + (va - anchor)) as usize, flags },
        ) == spec_map_range(m, start, va + PAGE_SIZE_4K, anchor, paddr, flags),
{
    lemma_aligned_next(va);
    assert(spec_map_range(m, start, va as int, anchor, paddr, flags).insert(
        va,
        PageEntry { paddr: (paddr + (va - anchor)) as usize, flags },
    ) =~= spec_map_range(m, start, va + PAGE_SIZE_4K, anchor, paddr, flags));
}

/// Looking at a range page by page: where no page of `[start, va)` is
/// mapped and the page at `va` is not mapped, no page of
/// `[start, va + 4096)` is.
pub(crate) proof fn lemma_range_unmapped_page(m: Map<usize, PageEntry>, start: int, va: usize)
    requires
        spec_keys_aligned(m),
        spec_is_aligned_4k(va),
        spec_range_unmapped(m, start, va as int),
        !m.contains_key(va),
    ensures
        spec_range_unmapped(m, start, va + PAGE_SIZE_4K),
{
    lemma_aligned_next(va);
    assert forall|x: usize| start <= x < va + PAGE_SIZE_4K implies !#[trigger] m.contains_key(
        x,
    ) by {
        if x > va && m.contains_key(x) {
            assert(spec_is_aligned_4k(x));
        }
    }
}

/// Unmapping a range page by page: unmapping `[start, va)` and then the
/// page at `va` is unmapping `[start, va + 4096)`.
pub(crate) proof fn lemma_unmap_range_page(m: Map<usize, PageEntry>, start: int, va: usize)
    requires
        spec_keys_aligned(m),
        spec_is_aligned_4k(va),
        start <= va,
    ensures
        spec_unmap_range(m, start, va as int).remove(va) == spec_unmap_range(
            m,
            start,
            va + PAGE_SIZE_4K,
        ),
{
    let a = spec_unmap_range(m, start, va as int).remove(va);
    let b = spec_unmap_range(m, start, va + PAGE_SIZE_4K);
    lemma_aligned_next(va);
    assert forall|x: usize| a.contains_key(x) <==> b.contains_key(x) by {
        if m.contains_key(x) {
            assert(spec_is_aligned_4k(x));
        }
    }
    assert(a =~= b);
}

/// Changing flags page by page: changing them on `[start, va)` and then
/// on the page at `va`, if it is mapped, is changing them on
/// `[start, va + 4096)`.
pub(crate) proof fn lemma_protect_range_page(
    m: Map<usize, PageEntry>,
    start: int,
    va: usize,
    flags: MappingFlags,
)
    requires
        spec_keys_aligned(m),
        spec_is_aligned_4k(va),
        start <= va,
    ensures
        m.contains_key(va) ==> spec_protect_range(m, start, va as int, flags).insert(
            va,
            PageEntry { paddr: m[va].paddr, flags },
        ) == spec_protect_range(m, start, va + PAGE_SIZE_4K, flags),
        !m.contains_key(va) ==> spec_protect_range(m, start, va as int, flags)
            == spec_protect_range(m, start, va + PAGE_SIZE_4K, flags),
{
    let b = spec_protect_range(m, start, va + PAGE_SIZE_4K, flags);
    let a0 = spec_protect_range(m, start, va as int, flags);
    lemma_aligned_next(va);
    assert forall|x: usize| m.contains_key(x) && va <= x < va + PAGE_SIZE_4K implies x == va by {
        assert(spec_is_aligned_4k(x));
    }
    if m.contains_key(va) {
        assert(a0.insert(va, PageEntry { paddr: m[va].paddr, flags }) =~= b);
    } else {
        assert(a0 =~= b);
    }
}

/// Unmapping in steps: unmapping `[start, lo)` and then `[a, b)` is
/// unmapping `[start, b)`, where nothing is mapped in the gap `[lo, a)`.
pub(crate) proof fn lemma_unmap_range_step(m: Map<usize, PageEntry>, start: int, lo: int, a: int, b: int)
    requires
        start <= lo <= a <= b,
        forall|va: usize| lo <= va < a ==> !#[trigger] m.contains_key(va),
    ensures
        spec_unmap_range(spec_unmap_range(m, start, lo), a, b) == spec_unmap_range(m, start, b),
        spec_unmap_range(m, start, lo) == spec_unmap_range(m, start, a),
{
    assert(spec_unmap_range(spec_unmap_range(m, start, lo), a, b) =~= spec_unmap_range(
        m,
        start,
        b,
    ));
    assert(spec_unmap_range(m, start, lo) =~= spec_unmap_range(m, start, a));
}

/// Changing flags in steps: changing them on `[start, lo)` and then on
/// `[a, b)` is changing them on `[start, b)`, where nothing is mapped in
/// the gap `[lo, a)`.
pub(crate) proof fn lemma_protect_range_step(
    m: Map<usize, PageEntry>,
    start: int,
    lo: int,
    a: int,
    b: int,
    flags: MappingFlags,
)
    requires
        start <= lo <= a <= b,
        forall|va: usize| lo <= va < a ==> !#[trigger] m.contains_key(va),
    ensures
        spec_protect_range(spec_protect_range(m, start, lo, flags), a, b, flags)
            == spec_protect_range(m, start, b, flags),
        spec_protect_range(m, start, lo, flags) == spec_protect_range(m, start, a, flags),
{
    assert(spec_protect_range(spec_protect_range(m, start, lo, flags), a, b, flags)
        =~= spec_protect_range(m, start, b, flags));
    assert(spec_protect_range(m, start, lo, flags) =~= spec_protect_range(m, start, a, flags));
}

} // verus!
