//! Mapping backends: how the pages of a region come to be mapped.

use vstd::prelude::*;
use std::sync::Arc;
use crate::addr::{
    lemma_align_down_4k, lemma_aligned_gap, lemma_aligned_next, lemma_aligned_sum,
    spec_align_down_4k, spec_is_aligned_4k, PhysAddr, VirtAddr, PAGE_SIZE_4K,
};
use crate::flags::MappingFlags;
use crate::paging::{
    lemma_map_range_page, lemma_unmap_range_page, spec_keys_aligned, spec_map_range,
    spec_mapped_until, spec_page_in, spec_protect_range, spec_range_unmapped, spec_unmap_range,
    PageEntry, PageTable,
};
use crate::phys::{
    lemma_align_up_page, lemma_next_page, lemma_pages_fit, spec_available_pages,
    spec_heap_after_page, spec_next_page, spec_zero_page, PageBuf, PhysMemory, PhysView,
};
use crate::allocator::HeapView;

verus! {

/// Reads file contents for file-backed mappings.
pub trait PageReader {
    /// Whether `data` is a page that the reader gives for the file offset
    /// `offset`. A reader that says nothing of its file accepts every
    /// page.
    open spec fn spec_gives(&self, offset: usize, data: Seq<u8>) -> bool {
        true
    }

    /// Reads the page of the file that begins at the byte `offset` into
    /// `buf`, and returns whether that succeeded.
    fn read_page(&self, offset: usize, buf: &mut PageBuf) -> (ok: bool)
        ensures
            ok ==> self.spec_gives(offset, final(buf)@),
    ;
}

/// How a region's pages are backed.
pub enum Backend<R: PageReader> {
    /// Every page is mapped when the region is created, to the physical
    /// address `pa_va_offset` bytes below its virtual address.
    Linear {
        /// The virtual address minus the physical address.
        pa_va_offset: usize,
    },
    /// Pages come from the page allocator: all of them when the region is
    /// created if `populate` is set, else one by one as they are touched.
    Alloc {
        /// Whether all pages are allocated when the region is created.
        populate: bool,
    },
    /// Pages are filled from a file as they are touched.
    FileBacked {
        /// Reads the file.
        reader: Arc<R>,
        /// The file offset of the byte at `area_start`.
        file_offset: usize,
        /// The virtual address that `file_offset` belongs to.
        area_start: VirtAddr,
    },
}

/// The file offset of the page that holds `vaddr`, for a mapping whose byte
/// at `area_start` is the file's byte `file_offset`. There is none where
/// the page lies below `area_start` or the offset is not a `usize`.
pub open spec fn spec_fault_offset(file_offset: usize, area_start: usize, vaddr: usize) -> Option<
    usize,
> {
    let va = spec_align_down_4k(vaddr);
    if va < area_start || file_offset + (va - area_start) > usize::MAX {
        None
    } else {
        Some((file_offset + (va - area_start)) as usize)
    }
}

/// The file offset of the page that holds `vaddr`.
pub fn fault_offset(file_offset: usize, area_start: VirtAddr, vaddr: VirtAddr) -> (r: Option<usize>)
    ensures
        r == spec_fault_offset(file_offset, area_start, vaddr),
{
    let va = memory_addr::align_down_4k(vaddr);
    if va < area_start {
        None
    } else {
        file_offset.checked_add(va - area_start)
    }
}

/// `pages` with a page of zeros at every page boundary in
/// `[first, first + bytes)`.
pub open spec fn spec_fresh_pages(pages: Map<usize, Seq<u8>>, first: int, bytes: int) -> Map<
    usize,
    Seq<u8>,
> {
    Map::new(
        |p: usize| pages.contains_key(p) || spec_page_in(p, first, first + bytes),
        |p: usize|
            if spec_page_in(p, first, first + bytes) {
                spec_zero_page()
            } else {
                pages[p]
            },
    )
}

/// Whether `pt` maps a page of `[start, end)` to the physical page `p`.
pub open spec fn spec_frame_in(pt: Map<usize, PageEntry>, p: usize, start: int, end: int) -> bool {
    exists|va: usize| start <= va < end && #[trigger] pt.contains_key(va) && pt[va].paddr == p
}

/// `pages` without the physical pages that `pt` maps pages of
/// `[start, end)` to.
pub open spec fn spec_release_frames(
    pages: Map<usize, Seq<u8>>,
    pt: Map<usize, PageEntry>,
    start: int,
    end: int,
) -> Map<usize, Seq<u8>> {
    Map::new(
        |p: usize| pages.contains_key(p) && !spec_frame_in(pt, p, start, end),
        |p: usize| pages[p],
    )
}

/// Fresh pages one by one: a page of zeros at every page boundary of
/// `[first, page)` and one more at the page boundary `page` are a page of
/// zeros at every page boundary of `[first, page + 4096)`.
proof fn lemma_fresh_pages_page(pages: Map<usize, Seq<u8>>, first: usize, page: usize)
    requires
        spec_is_aligned_4k(page),
        first <= page,
    ensures
        spec_fresh_pages(pages, first as int, page - first).insert(page, spec_zero_page())
            == spec_fresh_pages(pages, first as int, page - first + PAGE_SIZE_4K),
{
    lemma_aligned_next(page);
    assert(spec_fresh_pages(pages, first as int, page - first).insert(page, spec_zero_page())
        =~= spec_fresh_pages(pages, first as int, page - first + PAGE_SIZE_4K));
}

/// Pages come one behind the other: from a heap whose next page is
/// `first`, after the pages of `[first, page)` were taken, the next page
/// is the page boundary `page`, as long as it ends inside the heap.
proof fn lemma_next_page_after(heap: HeapView, first: usize, page: usize)
    requires
        heap.wf(),
        spec_next_page(heap) == Some(first),
        spec_is_aligned_4k(page),
        first <= page,
        page + PAGE_SIZE_4K <= heap.end,
    ensures
        spec_next_page(
            HeapView { current: if page == first { heap.current } else { page }, ..heap },
        ) == Some(page),
        spec_heap_after_page(
            HeapView { current: if page == first { heap.current } else { page }, ..heap },
            page,
        ) == (HeapView { current: (page + PAGE_SIZE_4K) as usize, ..heap }),
{
    reveal(spec_is_aligned_4k);
    lemma_next_page(heap);
    if page > first {
        lemma_align_up_page(page);
    }
}

/// Giving pages back one by one: giving back the physical pages of
/// `[start, va)` and then that of the page at `va`, if it is mapped, is
/// giving back those of `[start, va + 4096)`.
proof fn lemma_release_frames_page(
    pages: Map<usize, Seq<u8>>,
    pt: Map<usize, PageEntry>,
    start: int,
    va: usize,
)
    requires
        spec_keys_aligned(pt),
        spec_is_aligned_4k(va),
        start <= va,
    ensures
        pt.contains_key(va) ==> spec_release_frames(pages, pt, start, va as int).remove(
            pt[va].paddr,
        ) == spec_release_frames(pages, pt, start, va + PAGE_SIZE_4K),
        !pt.contains_key(va) ==> spec_release_frames(pages, pt, start, va as int)
            == spec_release_frames(pages, pt, start, va + PAGE_SIZE_4K),
{
    let next = va + PAGE_SIZE_4K;
    lemma_aligned_next(va);
    assert forall|x: usize| pt.contains_key(x) && va <= x < next implies x == va by {
        assert(spec_is_aligned_4k(x));
    }
    assert forall|p: usize|
        spec_frame_in(pt, p, start, next) <==> (spec_frame_in(pt, p, start, va as int) || (
        pt.contains_key(va) && pt[va].paddr == p)) by {
        if spec_frame_in(pt, p, start, next) {
            let w = choose|w: usize|
                start <= w < next && #[trigger] pt.contains_key(w) && pt[w].paddr == p;
            if w < va {
                assert(spec_frame_in(pt, p, start, va as int));
            }
        }
        if spec_frame_in(pt, p, start, va as int) {
            let w = choose|w: usize|
                start <= w < va && #[trigger] pt.contains_key(w) && pt[w].paddr == p;
            assert(start <= w < next);
        }
        if pt.contains_key(va) && pt[va].paddr == p {
            assert(start <= va < next);
        }
    }
    if pt.contains_key(va) {
        assert(spec_release_frames(pages, pt, start, va as int).remove(pt[va].paddr)
            =~= spec_release_frames(pages, pt, start, next));
    } else {
        assert(spec_release_frames(pages, pt, start, va as int) =~= spec_release_frames(
            pages,
            pt,
            start,
            next,
        ));
    }
}

/// Finishes a page fault on the page at `va`, for which the physical page
/// `frame` was allocated. With contents, the page is mapped and filled;
/// without, or where the page is mapped already, the physical page is given
/// back and nothing is mapped.
pub fn complete_fault(
    pt: &mut PageTable,
    phys: &mut PhysMemory,
    va: VirtAddr,
    frame: PhysAddr,
    flags: MappingFlags,
    content: Option<PageBuf>,
) -> (ok: bool)
    requires
        old(pt).wf(),
        old(phys).wf(),
        spec_is_aligned_4k(va),
        spec_is_aligned_4k(frame),
        old(phys)@.pages.contains_key(frame),
    ensures
        final(pt).wf(),
        final(phys).wf(),
        ok == (content is Some && !old(pt)@.contains_key(va)),
        final(phys)@.heap == old(phys)@.heap,
        final(pt)@ == if ok {
            old(pt)@.insert(va, PageEntry { paddr: frame, flags })
        } else {
            old(pt)@
        },
        final(phys)@.pages == if ok {
            old(phys)@.pages.insert(frame, content->Some_0@)
        } else {
            old(phys)@.pages.remove(frame)
        },
{
    match content {
        Some(data) => {
            match pt.map(va, frame, flags) {
                Ok(_) => {
                    phys.write_page(frame, data);
                    true
                },
                Err(_) => {
                    phys.dealloc_page(frame);
                    false
                },
            }
        },
        None => {
            phys.dealloc_page(frame);
            false
        },
    }
}

impl<R: PageReader> Clone for Backend<R> {
    fn clone(&self) -> (r: Self)
        ensures
            r == *self,
    {
        match self {
            Backend::Linear { pa_va_offset } => Backend::Linear { pa_va_offset: *pa_va_offset },
            Backend::Alloc { populate } => Backend::Alloc { populate: *populate },
            Backend::FileBacked { reader, file_offset, area_start } => Backend::FileBacked {
                reader: reader.clone(),
                file_offset: *file_offset,
                area_start: *area_start,
            },
        }
    }
}

impl<R: PageReader> Backend<R> {
    /// A linear backend.
    pub fn new_linear(pa_va_offset: usize) -> (r: Self)
        ensures
            r == (Backend::<R>::Linear { pa_va_offset }),
    {
        Backend::Linear { pa_va_offset }
    }

    /// An allocation backend.
    pub fn new_alloc(populate: bool) -> (r: Self)
        ensures
            r == (Backend::<R>::Alloc { populate }),
    {
        Backend::Alloc { populate }
    }

    /// A file-backed backend.
    pub fn new_file_backed(reader: Arc<R>, file_offset: usize, area_start: VirtAddr) -> (r: Self)
        ensures
            r == (Backend::FileBacked { reader, file_offset, area_start }),
    {
        Backend::FileBacked { reader, file_offset, area_start }
    }

    /// Whether creating a region of this backend over
    /// `[start, start + size)` succeeds: a linear backend needs an aligned
    /// offset that is not above `start`, a populated one needs a page for
    /// every page of the region, and both need the range to be unmapped.
    pub open spec fn spec_can_map(
        self,
        pt: Map<usize, PageEntry>,
        heap: HeapView,
        start: usize,
        size: usize,
    ) -> bool {
        match self {
            Backend::Linear { pa_va_offset } => {
                &&& spec_is_aligned_4k(pa_va_offset)
                &&& pa_va_offset <= start
                &&& spec_range_unmapped(pt, start as int, start + size)
            },
            Backend::Alloc { populate } => {
                populate ==> {
                    &&& spec_range_unmapped(pt, start as int, start + size)
                    &&& spec_available_pages(heap) >= size / PAGE_SIZE_4K
                }
            },
            Backend::FileBacked { .. } => true,
        }
    }

    /// Whether creating a region of this backend maps its pages at once.
    pub open spec fn spec_is_eager(self) -> bool {
        match self {
            Backend::Linear { .. } => true,
            Backend::Alloc { populate } => populate,
            Backend::FileBacked { .. } => false,
        }
    }

    /// What creating a region of this backend over `[start, start + size)`
    /// leaves behind, from the page table `pt0` and the physical memory
    /// `phys0`.
    ///
    /// A linear backend maps every page to the physical address that lies
    /// its offset below; with a bad offset it maps nothing, and where it
    /// meets a page that is mapped already it stops there. A populated
    /// allocation backend takes the next pages from the heap, one for every
    /// page of the region, zeroes them and maps them in order, or changes
    /// nothing where it fails. The other backends change nothing.
    pub open spec fn spec_map_post(
        self,
        start: usize,
        size: usize,
        flags: MappingFlags,
        pt0: Map<usize, PageEntry>,
        phys0: PhysView,
        pt1: Map<usize, PageEntry>,
        phys1: PhysView,
        ok: bool,
    ) -> bool {
        match self {
            Backend::Linear { pa_va_offset } => {
                &&& phys1 == phys0
                &&& if !spec_is_aligned_4k(pa_va_offset) || pa_va_offset > start {
                    pt1 == pt0
                } else if ok {
                    pt1 == spec_map_range(
                        pt0,
                        start as int,
                        start + size,
                        start as int,
                        start - pa_va_offset,
                        flags,
                    )
                } else {
                    exists|stop: usize| #[trigger]
                        spec_mapped_until(
                            pt0,
                            pt1,
                            start,
                            stop,
                            (start + size) as usize,
                            (start - pa_va_offset) as usize,
                            flags,
                        )
                }
            },
            Backend::Alloc { populate } => if populate && ok && size > 0 {
                let first = spec_next_page(phys0.heap)->Some_0;
                &&& pt1 == spec_map_range(
                    pt0,
                    start as int,
                    start + size,
                    start as int,
                    first as int,
                    flags,
                )
                &&& phys1.heap == HeapView { current: (first + size) as usize, ..phys0.heap }
                &&& phys1.pages == spec_fresh_pages(phys0.pages, first as int, size as int)
            } else {
                pt1 == pt0 && phys1 == phys0
            },
            Backend::FileBacked { .. } => pt1 == pt0 && phys1 == phys0,
        }
    }

    /// The physical address that the first page of a region at `start` is
    /// mapped to when the region is created: the address that lies a linear
    /// backend's offset below `start`, else the page that `heap` hands out
    /// next.
    pub open spec fn spec_first_paddr(self, heap: HeapView, start: usize) -> int {
        match self {
            Backend::Linear { pa_va_offset } => start - pa_va_offset,
            _ => spec_next_page(heap)->Some_0 as int,
        }
    }

    /// Sets up the pages of the new region `[start, start + size)`, as
    /// [`Backend::spec_map_post`] says, and returns whether that
    /// succeeded.
    pub fn map(
        &self,
        start: VirtAddr,
        size: usize,
        flags: MappingFlags,
        pt: &mut PageTable,
        phys: &mut PhysMemory,
    ) -> (ok: bool)
        requires
            old(pt).wf(),
            old(phys).wf(),
            spec_is_aligned_4k(start),
            spec_is_aligned_4k(size),
            start + size <= usize::MAX,
        ensures
            final(pt).wf(),
            final(phys).wf(),
            ok == self.spec_can_map(old(pt)@, old(phys)@.heap, start, size),
            self.spec_map_post(
                start,
                size,
                flags,
                old(pt)@,
                old(phys)@,
                final(pt)@,
                final(phys)@,
                ok,
            ),
    {
        match self {
            Backend::Linear { pa_va_offset } => {
                if !memory_addr::is_aligned_4k(*pa_va_offset) || *pa_va_offset > start {
                    return false;
                }
                proof {
                    lemma_aligned_sum(start, *pa_va_offset);
                }
                pt.map_region(start, size, start - *pa_va_offset, flags)
            },
            Backend::Alloc { populate } => {
                if *populate {
                    Self::map_populated(start, size, flags, pt, phys)
                } else {
                    true
                }
            },
            Backend::FileBacked { .. } => true,
        }
    }

    /// Allocates and maps a zeroed page for every page of
    /// `[start, start + size)`, or changes nothing where the range is not
    /// free or the pages cannot all be had.
    fn map_populated(
        start: VirtAddr,
        size: usize,
        flags: MappingFlags,
        pt: &mut PageTable,
        phys: &mut PhysMemory,
    ) -> (ok: bool)
        requires
            old(pt).wf(),
            old(phys).wf(),
            spec_is_aligned_4k(start),
            spec_is_aligned_4k(size),
            start + size <= usize::MAX,
        ensures
            final(pt).wf(),
            final(phys).wf(),
            ok == (spec_range_unmapped(old(pt)@, start as int, start + size)
                && spec_available_pages(old(phys)@.heap) >= size / PAGE_SIZE_4K),
            !ok || size == 0 ==> final(pt)@ == old(pt)@ && final(phys)@ == old(phys)@,
            ok && size > 0 ==> {
                let first = spec_next_page(old(phys)@.heap)->Some_0 as int;
                &&& final(pt)@ == spec_map_range(
                    old(pt)@,
                    start as int,
                    start + size,
                    start as int,
                    first,
                    flags,
                )
                &&& final(phys)@.heap == HeapView {
                    current: (first + size) as usize,
                    ..old(phys)@.heap
                }
                &&& final(phys)@.pages == spec_fresh_pages(old(phys)@.pages, first, size as int)
            },
    {
        if !pt.range_unmapped(start, size) || phys.available_pages() < size / PAGE_SIZE_4K {
            return false;
        }
        if size == 0 {
            return true;
        }
        let end = start + size;
        let ghost heap0 = phys@.heap;
        let ghost pages0 = phys@.pages;
        let ghost pt0 = pt@;
        let ghost first: usize = spec_next_page(heap0)->Some_0;
        proof {
            lemma_pages_fit(heap0, size);
            lemma_next_page(heap0);
            lemma_aligned_sum(start, size);
            assert(phys@.pages =~= spec_fresh_pages(pages0, first as int, 0));
            assert(pt@ =~= spec_map_range(
                pt0,
                start as int,
                start as int,
                start as int,
                first as int,
                flags,
            ));
        }
        let mut va = start;
        while va < end
            invariant
                pt.wf(),
                phys.wf(),
                heap0.wf(),
                spec_next_page(heap0) == Some(first),
                spec_is_aligned_4k(first),
                start <= va <= end,
                end == start + size,
                spec_is_aligned_4k(va),
                spec_is_aligned_4k(start),
                spec_is_aligned_4k(end),
                first + size <= heap0.end,
                spec_range_unmapped(pt0, start as int, end as int),
                phys@.heap == (HeapView {
                    current: if va == start {
                        heap0.current
                    } else {
                        (first + (va - start)) as usize
                    },
                    ..heap0
                }),
                phys@.pages == spec_fresh_pages(pages0, first as int, va - start),
                pt@ == spec_map_range(pt0, start as int, va as int, start as int, first as int, flags),
            decreases end - va,
        {
            let ghost page: usize = (first + (va - start)) as usize;
            proof {
                lemma_aligned_gap(va, end);
                lemma_aligned_next(va);
                lemma_aligned_sum(va, start);
                lemma_aligned_sum(first, (va - start) as usize);
                lemma_next_page_after(heap0, first, page);
                lemma_fresh_pages_page(pages0, first, page);
                lemma_map_range_page(pt0, start as int, va, start as int, first as int, flags);
                assert(!pt0.contains_key(va));
                assert(page - first == va - start);
            }
            let frame = match phys.alloc_page() {
                Some(frame) => frame,
                None => {
                    assert(false);
                    return false;
                },
            };
            match pt.map(va, frame, flags) {
                Ok(_) => {},
                Err(_) => {
                    assert(false);
                    return false;
                },
            }
            va = va + PAGE_SIZE_4K;
        }
        true
    }

    /// Tears down the pages of `[start, start + size)`: every mapped page
    /// is unmapped, and an allocation backend gives the physical pages
    /// back.
    pub fn unmap(&self, start: VirtAddr, size: usize, pt: &mut PageTable, phys: &mut PhysMemory) -> (ok:
        bool)
        requires
            old(pt).wf(),
            old(phys).wf(),
            spec_is_aligned_4k(start),
            spec_is_aligned_4k(size),
            start + size <= usize::MAX,
        ensures
            final(pt).wf(),
            final(phys).wf(),
            ok,
            final(pt)@ == spec_unmap_range(old(pt)@, start as int, start + size),
            final(phys)@.heap == old(phys)@.heap,
            final(phys)@.pages == if self is Alloc {
                spec_release_frames(old(phys)@.pages, old(pt)@, start as int, start + size)
            } else {
                old(phys)@.pages
            },
    {
        match self {
            Backend::Alloc { .. } => {
                let end = start + size;
                let mut va = start;
                let ghost pt0 = pt@;
                let ghost pages0 = phys@.pages;
                proof {
                    lemma_aligned_sum(start, size);
                    assert(spec_keys_aligned(pt0));
                    assert(pt@ =~= spec_unmap_range(pt0, start as int, va as int));
                    assert(phys@.pages =~= spec_release_frames(
                        pages0,
                        pt0,
                        start as int,
                        va as int,
                    ));
                }
                while va < end
                    invariant
                        pt.wf(),
                        phys.wf(),
                        spec_keys_aligned(pt0),
                        start <= va <= end,
                        end == start + size,
                        spec_is_aligned_4k(va),
                        spec_is_aligned_4k(end),
                        pt@ == spec_unmap_range(pt0, start as int, va as int),
                        phys@.heap == old(phys)@.heap,
                        phys@.pages == spec_release_frames(pages0, pt0, start as int, va as int),
                    decreases end - va,
                {
                    proof {
                        lemma_aligned_gap(va, end);
                        lemma_aligned_next(va);
                        lemma_unmap_range_page(pt0, start as int, va);
                        lemma_release_frames_page(pages0, pt0, start as int, va);
                    }
                    match pt.unmap(va) {
                        Ok(frame) => {
                            phys.dealloc_page(frame);
                        },
                        Err(_) => {},
                    }
                    va = va + PAGE_SIZE_4K;
                }
                true
            },
            _ => {
                pt.unmap_region(start, size);
                true
            },
        }
    }

    /// Replaces the access flags of the mapped pages of
    /// `[start, start + size)`.
    pub fn protect(&self, start: VirtAddr, size: usize, new_flags: MappingFlags, pt: &mut PageTable) -> (ok:
        bool)
        requires
            old(pt).wf(),
            spec_is_aligned_4k(start),
            spec_is_aligned_4k(size),
            start + size <= usize::MAX,
        ensures
            final(pt).wf(),
            ok,
            final(pt)@ == spec_protect_range(old(pt)@, start as int, start + size, new_flags),
    {
        pt.protect_region(start, size, new_flags);
        true
    }

    /// Whether a fault on a region of this backend can be resolved at all:
    /// never for a linear or a populated region, whose pages are all mapped
    /// from the start.
    pub open spec fn spec_is_lazy(self) -> bool {
        match self {
            Backend::Linear { .. } => false,
            Backend::Alloc { populate } => !populate,
            Backend::FileBacked { .. } => true,
        }
    }

    /// The physical page that resolving a fault at `vaddr` takes from
    /// `heap`, if the fault gets that far: the backend must be lazy, a
    /// file-backed one must have a file offset for the page, and the heap
    /// must have a page left.
    pub open spec fn spec_fault_frame(self, heap: HeapView, vaddr: usize) -> Option<usize> {
        match self {
            Backend::Linear { .. } => None,
            Backend::Alloc { populate } => if populate {
                None
            } else {
                spec_next_page(heap)
            },
            Backend::FileBacked { file_offset, area_start, .. } => if spec_fault_offset(
                file_offset,
                area_start,
                vaddr,
            ) is Some {
                spec_next_page(heap)
            } else {
                None
            },
        }
    }

    /// What a fault at `vaddr` on a region of this backend with the flags
    /// `flags` leaves behind, from the page table `pt0` and the physical
    /// memory `phys0`.
    ///
    /// Where the fault takes no physical page, it is unresolved and nothing
    /// changes. Where it takes the page `frame`, the heap has handed it
    /// out; a resolved fault has mapped the faulting page, which was not
    /// mapped before, to `frame` with `flags`, and `frame` holds a page of
    /// contents; an unresolved one has mapped nothing and given `frame`
    /// back. An allocation backend resolves the fault unless the faulting
    /// page is mapped already, and leaves `frame` zeroed; a file-backed one
    /// may also fail because its reader does, and leaves in `frame` a page
    /// that its reader gave for the file offset of the faulting page.
    pub open spec fn spec_fault_post(
        self,
        vaddr: usize,
        flags: MappingFlags,
        pt0: Map<usize, PageEntry>,
        phys0: PhysView,
        pt1: Map<usize, PageEntry>,
        phys1: PhysView,
        ok: bool,
    ) -> bool {
        match self.spec_fault_frame(phys0.heap, vaddr) {
            None => !ok && pt1 == pt0 && phys1 == phys0,
            Some(frame) => {
                let va = spec_align_down_4k(vaddr);
                &&& phys1.heap == spec_heap_after_page(phys0.heap, frame)
                &&& ok ==> {
                    &&& !pt0.contains_key(va)
                    &&& pt1 == pt0.insert(va, PageEntry { paddr: frame, flags })
                    &&& phys1.pages.contains_key(frame)
                    &&& phys1.pages.remove(frame) == phys0.pages.remove(frame)
                }
                &&& !ok ==> {
                    &&& pt1 == pt0
                    &&& phys1.pages == phys0.pages.remove(frame)
                }
                &&& self is Alloc ==> {
                    &&& ok == !pt0.contains_key(va)
                    &&& ok ==> phys1.pages[frame] == spec_zero_page()
                }
                &&& self matches Backend::FileBacked { reader, file_offset, area_start } ==> (ok
                    ==> reader.spec_gives(
                    spec_fault_offset(file_offset, area_start, vaddr)->Some_0,
                    phys1.pages[frame],
                ))
                &&& pt0.contains_key(va) ==> !ok
            },
        }
    }

    /// Resolves a page fault at `vaddr` in a region with the flags
    /// `orig_flags`.
    ///
    /// A linear or populated backend never resolves a fault. A lazy one
    /// takes one page from `phys`; an allocation backend leaves it zeroed,
    /// a file-backed one has its reader fill it from the file offset of the
    /// faulting page. The page is then mapped at the faulting page with
    /// `orig_flags`. Where no page can be had, the reader fails or the
    /// faulting page is mapped already, nothing is mapped and the fault is
    /// unresolved.
    pub fn handle_page_fault(
        &self,
        vaddr: VirtAddr,
        orig_flags: MappingFlags,
        pt: &mut PageTable,
        phys: &mut PhysMemory,
    ) -> (ok: bool)
        requires
            old(pt).wf(),
            old(phys).wf(),
        ensures
            final(pt).wf(),
            final(phys).wf(),
            self.spec_fault_post(
                vaddr,
                orig_flags,
                old(pt)@,
                old(phys)@,
                final(pt)@,
                final(phys)@,
                ok,
            ),
    {
        match self {
            Backend::Linear { .. } => false,
            Backend::Alloc { populate } => {
                if *populate {
                    return false;
                }
                let va = memory_addr::align_down_4k(vaddr);
                proof {
                    lemma_align_down_4k(vaddr);
                }
                let frame = match phys.alloc_page() {
                    Some(frame) => frame,
                    None => {
                        return false;
                    },
                };
                proof {
                    lemma_next_page(old(phys)@.heap);
                }
                let ok = complete_fault(pt, phys, va, frame, orig_flags, Some(PageBuf::zeroed()));
                proof {
                    if ok {
                        assert(phys@.pages.remove(frame) =~= old(phys)@.pages.remove(frame));
                    } else {
                        assert(phys@.pages =~= old(phys)@.pages.remove(frame));
                    }
                }
                ok
            },
            Backend::FileBacked { reader, file_offset, area_start } => {
                let va = memory_addr::align_down_4k(vaddr);
                proof {
                    lemma_align_down_4k(vaddr);
                }
                let offset = match fault_offset(*file_offset, *area_start, vaddr) {
                    Some(offset) => offset,
                    None => {
                        return false;
                    },
                };
                let frame = match phys.alloc_page() {
                    Some(frame) => frame,
                    None => {
                        return false;
                    },
                };
                proof {
                    lemma_next_page(old(phys)@.heap);
                }
                let mut buf = PageBuf::zeroed();
                let content = if reader.read_page(offset, &mut buf) {
                    Some(buf)
                } else {
                    None
                };
                let ok = complete_fault(pt, phys, va, frame, orig_flags, content);
                proof {
                    if ok {
                        assert(phys@.pages.remove(frame) =~= old(phys)@.pages.remove(frame));
                    } else {
                        assert(phys@.pages =~= old(phys)@.pages.remove(frame));
                    }
                }
                ok
            },
        }
    }
}

} // verus!
