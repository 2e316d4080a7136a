//! Physical pages: where they come from and what they hold.

use vstd::prelude::*;
use std::collections::HashMap;
use crate::addr::{spec_align_up_4k, spec_is_aligned_4k, PhysAddr, PAGE_SIZE_4K};
use crate::allocator::{
    lemma_align_up, spec_align_up, spec_is_pow2, HeapView, LabByteAllocator,
};

verus! {

/// The bytes of one page.
pub struct PageBuf {
    bytes: Vec<u8>,
}

impl View for PageBuf {
    type V = Seq<u8>;

    closed spec fn view(&self) -> Seq<u8> {
        self.bytes@
    }
}

/// A page of zeros.
pub open spec fn spec_zero_page() -> Seq<u8> {
    Seq::new(PAGE_SIZE_4K as nat, |i: int| 0u8)
}

impl PageBuf {
    #[verifier::type_invariant]
    spec fn inv(&self) -> bool {
        self.bytes@.len() == PAGE_SIZE_4K
    }

    /// A page of zeros.
    pub fn zeroed() -> (r: Self)
        ensures
            r@ == spec_zero_page(),
    {
        let mut bytes: Vec<u8> = Vec::new();
        let mut i: usize = 0;
        while i < PAGE_SIZE_4K
            invariant
                i <= PAGE_SIZE_4K,
                bytes@.len() == i,
                forall|k: int| 0 <= k < i ==> bytes@[k] == 0u8,
            decreases PAGE_SIZE_4K - i,
        {
            bytes.push(0u8);
            i += 1;
        }
        assert(bytes@ =~= spec_zero_page());
        PageBuf { bytes }
    }

    /// The number of bytes in a page.
    pub fn len(&self) -> (r: usize)
        ensures
            r == PAGE_SIZE_4K,
            r == self@.len(),
    {
        proof {
            use_type_invariant(self);
        }
        self.bytes.len()
    }

    /// The byte at `index`, or `None` past the end of the page.
    pub fn get(&self, index: usize) -> (r: Option<u8>)
        ensures
            r == if index < PAGE_SIZE_4K { Some(self@[index as int]) } else { None },
    {
        proof {
            use_type_invariant(self);
        }
        if index < self.bytes.len() {
            Some(self.bytes[index])
        } else {
            None
        }
    }

    /// Writes `value` at `index`. Returns `false`, and writes nothing, past
    /// the end of the page.
    pub fn set(&mut self, index: usize, value: u8) -> (r: bool)
        ensures
            r == (index < PAGE_SIZE_4K),
            final(self)@ == if index < PAGE_SIZE_4K {
                old(self)@.update(index as int, value)
            } else {
                old(self)@
            },
    {
        proof {
            use_type_invariant(&*self);
        }
        if index < self.bytes.len() {
            self.bytes[index] = value;
            true
        } else {
            false
        }
    }

    /// A copy of the page.
    pub fn duplicate(&self) -> (r: Self)
        ensures
            r@ == self@,
    {
        proof {
            use_type_invariant(self);
        }
        let mut bytes: Vec<u8> = Vec::new();
        let mut i: usize = 0;
        while i < PAGE_SIZE_4K
            invariant
                i <= PAGE_SIZE_4K,
                self.bytes@.len() == PAGE_SIZE_4K,
                bytes@.len() == i,
                forall|k: int| 0 <= k < i ==> bytes@[k] == self.bytes@[k],
            decreases PAGE_SIZE_4K - i,
        {
            bytes.push(self.bytes[i]);
            i += 1;
        }
        assert(bytes@ =~= self.bytes@);
        PageBuf { bytes }
    }
}

/// Physical memory as a mathematical value.
pub struct PhysView {
    /// The heap that pages are taken from.
    pub heap: HeapView,
    /// What every allocated page holds, by the page's address.
    pub pages: Map<usize, Seq<u8>>,
}

/// The address of the page that the next allocation returns, if the heap
/// has room for one.
pub open spec fn spec_next_page(heap: HeapView) -> Option<usize> {
    if heap.current + PAGE_SIZE_4K - 1 > usize::MAX {
        None
    } else if spec_align_up(heap.current, PAGE_SIZE_4K) + PAGE_SIZE_4K > heap.end {
        None
    } else {
        Some(spec_align_up(heap.current, PAGE_SIZE_4K))
    }
}

/// The heap after `page` was taken from it.
pub open spec fn spec_heap_after_page(heap: HeapView, page: usize) -> HeapView {
    HeapView { current: (page + PAGE_SIZE_4K) as usize, ..heap }
}

/// The page that is handed out next is aligned, lies at or behind the
/// bump pointer, and ends inside the heap.
pub proof fn lemma_next_page(heap: HeapView)
    requires
        heap.wf(),
        spec_next_page(heap) is Some,
    ensures
        spec_is_aligned_4k(spec_next_page(heap)->Some_0),
        heap.current <= spec_next_page(heap)->Some_0,
        spec_next_page(heap)->Some_0 + PAGE_SIZE_4K <= heap.end,
{
    reveal(spec_is_aligned_4k);
    assert(4096usize & 4095usize == 0) by (bit_vector);
    lemma_align_up(heap.current, PAGE_SIZE_4K);
    let p = spec_next_page(heap)->Some_0;
    assert(p & 4095usize == 0 ==> p % 4096usize == 0) by (bit_vector);
}

/// The source of physical pages, and their contents. Pages are taken from
/// a byte allocator, one page-aligned page at a time.
pub struct PhysMemory {
    heap: LabByteAllocator,
    pages: HashMap<usize, PageBuf>,
}

impl View for PhysMemory {
    type V = PhysView;

    closed spec fn view(&self) -> PhysView {
        PhysView { heap: self.heap@, pages: self.pages@.map_values(|b: PageBuf| b@) }
    }
}

impl PhysMemory {
    /// The invariant: the heap's own, no small allocation is live in the
    /// heap, and every page holds 4096 bytes.
    pub open spec fn wf(&self) -> bool {
        &&& self@.heap.wf()
        &&& self@.heap.live == Map::<usize, usize>::empty()
        &&& forall|p: usize| #[trigger]
            self@.pages.contains_key(p) ==> self@.pages[p].len() == PAGE_SIZE_4K
    }

    /// Physical memory over the heap `[start, start + size)`, with no page
    /// allocated.
    pub fn new(start: PhysAddr, size: usize) -> (r: Self)
        requires
            start + size <= usize::MAX,
        ensures
            r.wf(),
            r@.heap == HeapView::fresh(start, (start + size) as usize),
            r@.pages == Map::<usize, Seq<u8>>::empty(),
    {
        let mut heap = LabByteAllocator::new();
        heap.init(start, size);
        let r = PhysMemory { heap, pages: HashMap::new() };
        assert(r@.pages =~= Map::<usize, Seq<u8>>::empty());
        r
    }

    /// Takes one page from the heap and fills it with zeros.
    pub fn alloc_page(&mut self) -> (r: Option<PhysAddr>)
        requires
            old(self).wf(),
        ensures
            final(self).wf(),
            r == spec_next_page(old(self)@.heap),
            match r {
                Some(page) => {
                    &&& final(self)@.heap == spec_heap_after_page(old(self)@.heap, page)
                    &&& final(self)@.pages == old(self)@.pages.insert(page, spec_zero_page())
                },
                None => final(self)@ == old(self)@,
            },
    {
        broadcast use vstd::std_specs::hash::group_hash_axioms;

        assert(spec_is_pow2(PAGE_SIZE_4K)) by {
            assert(4096usize & 4095usize == 0) by (bit_vector);
        }
        let ghost before = self@;
        match self.heap.allocate(PAGE_SIZE_4K, PAGE_SIZE_4K) {
            Ok(page) => {
                self.pages.insert(page, PageBuf::zeroed());
                assert(self@.pages =~= before.pages.insert(page, spec_zero_page()));
                Some(page)
            },
            Err(_) => {
                assert(self@.pages =~= before.pages);
                None
            },
        }
    }

    /// Gives the page at `paddr` back. The heap does not reclaim it; its
    /// contents are dropped.
    pub fn dealloc_page(&mut self, paddr: PhysAddr)
        requires
            old(self).wf(),
        ensures
            final(self).wf(),
            final(self)@.heap == old(self)@.heap,
            final(self)@.pages == old(self)@.pages.remove(paddr),
    {
        broadcast use vstd::std_specs::hash::group_hash_axioms;

        let ghost before = self@;
        self.heap.deallocate(paddr, PAGE_SIZE_4K, PAGE_SIZE_4K);
        self.pages.remove(&paddr);
        assert(self@.pages =~= before.pages.remove(paddr));
    }

    /// Replaces what the allocated page at `paddr` holds. Returns `false`,
    /// and changes nothing, where no page is allocated at `paddr`.
    pub fn write_page(&mut self, paddr: PhysAddr, data: PageBuf) -> (r: bool)
        requires
            old(self).wf(),
        ensures
            final(self).wf(),
            r == old(self)@.pages.contains_key(paddr),
            final(self)@.heap == old(self)@.heap,
            final(self)@.pages == if r {
                old(self)@.pages.insert(paddr, data@)
            } else {
                old(self)@.pages
            },
    {
        broadcast use vstd::std_specs::hash::group_hash_axioms;

        let ghost before = self@;
        if self.pages.contains_key(&paddr) {
            let _ = data.len();
            self.pages.insert(paddr, data);
            assert(self@.pages =~= before.pages.insert(paddr, data@));
            true
        } else {
            assert(self@.pages =~= before.pages);
            false
        }
    }

    /// A copy of what the page at `paddr` holds, if a page is allocated
    /// there.
    pub fn read_page(&self, paddr: PhysAddr) -> (r: Option<PageBuf>)
        requires
            self.wf(),
        ensures
            match r {
                Some(page) => self@.pages.contains_key(paddr) && page@ == self@.pages[paddr],
                None => !self@.pages.contains_key(paddr),
            },
    {
        broadcast use vstd::std_specs::hash::group_hash_axioms;

        match self.pages.get(&paddr) {
            Some(page) => Some(page.duplicate()),
            None => None,
        }
    }

    /// The number of pages that can still be allocated.
    pub fn available_pages(&self) -> (r: usize)
        requires
            self.wf(),
        ensures
            r == spec_available_pages(self@.heap),
    {
        let available = self.heap.available_bytes();
        // The gap between the bump pointer and the next page boundary is
        // lost to alignment.
        let current = self.heap.current();
        let rest = current % PAGE_SIZE_4K;
        let gap = if rest == 0 {
            0
        } else {
            PAGE_SIZE_4K - rest
        };
        if available < gap {
            0
        } else {
            (available - gap) / PAGE_SIZE_4K
        }
    }
}

/// The number of whole pages between the next page boundary at or behind
/// the bump pointer and the end of the heap.
pub open spec fn spec_available_pages(heap: HeapView) -> int {
    let rest = heap.current % PAGE_SIZE_4K;
    let gap = if rest == 0 { 0 } else { PAGE_SIZE_4K - rest };
    if heap.end - heap.current < gap {
        0
    } else {
        (heap.end - heap.current - gap) / (PAGE_SIZE_4K as int)
    }
}

/// Rounding up to the alignment 4096 gives the first page boundary at or
/// above `x`.
pub proof fn lemma_align_up_page(x: usize)
    requires
        x + PAGE_SIZE_4K - 1 <= usize::MAX,
    ensures
        spec_align_up(x, PAGE_SIZE_4K) == spec_align_up_4k(x),
{
    let y: usize = (x + 4095) as usize;
    assert(y == x + 4095 && x <= y ==> (y & !4095usize) == if x % 4096usize == 0 {
        x as int
    } else {
        x + 4096 - x % 4096usize
    }) by (bit_vector);
}

/// Pages can be counted: while a page is available the next allocation
/// succeeds and leaves one page fewer, and when none is available it
/// fails.
pub proof fn lemma_available_pages(heap: HeapView)
    requires
        heap.wf(),
    ensures
        spec_available_pages(heap) >= 0,
        spec_available_pages(heap) >= 1 <==> spec_next_page(heap) is Some,
        spec_next_page(heap) matches Some(page) ==> spec_available_pages(
            spec_heap_after_page(heap, page),
        ) == spec_available_pages(heap) - 1,
{
    if heap.current + PAGE_SIZE_4K - 1 <= usize::MAX {
        lemma_align_up_page(heap.current);
    }
}

/// A heap that has `bytes / 4096` pages available holds the `bytes` bytes
/// from its next page on.
pub proof fn lemma_pages_fit(heap: HeapView, bytes: usize)
    requires
        heap.wf(),
        bytes > 0,
        spec_is_aligned_4k(bytes),
        spec_available_pages(heap) >= bytes / PAGE_SIZE_4K,
    ensures
        spec_next_page(heap) matches Some(first) && first + bytes <= heap.end,
{
    reveal(spec_is_aligned_4k);
    lemma_available_pages(heap);
    lemma_align_up_page(heap.current);
}

} // verus!
