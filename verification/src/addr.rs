//! Addresses, page granularity and address ranges.

use vstd::prelude::*;

verus! {

/// A virtual address.
pub type VirtAddr = usize;

/// A physical address.
pub type PhysAddr = usize;

/// The size of a 4 KiB page, in bytes.
pub const PAGE_SIZE_4K: usize = 0x1000;

/// The start of the page that holds `addr`.
pub open spec fn spec_align_down_4k(addr: usize) -> usize {
    (addr - addr % PAGE_SIZE_4K) as usize
}

/// Whether `addr` lies on a page boundary.
#[verifier::opaque]
pub open spec fn spec_is_aligned_4k(addr: usize) -> bool {
    addr % PAGE_SIZE_4K == 0
}

/// The sum and the difference of two page boundaries are page boundaries.
pub proof fn lemma_aligned_sum(a: usize, b: usize)
    requires
        spec_is_aligned_4k(a),
        spec_is_aligned_4k(b),
    ensures
        a + b <= usize::MAX ==> spec_is_aligned_4k((a + b) as usize),
        b <= a ==> spec_is_aligned_4k((a - b) as usize),
{
    reveal(spec_is_aligned_4k);
}

/// The page boundary that follows the page boundary `a` lies one page
/// above it.
pub proof fn lemma_aligned_next(a: usize)
    requires
        spec_is_aligned_4k(a),
    ensures
        a + PAGE_SIZE_4K <= usize::MAX ==> spec_is_aligned_4k((a + PAGE_SIZE_4K) as usize),
        forall|x: usize| a < x < a + PAGE_SIZE_4K ==> !#[trigger] spec_is_aligned_4k(x),
{
    reveal(spec_is_aligned_4k);
}

/// Two page boundaries lie a page apart at least.
pub proof fn lemma_aligned_gap(a: usize, b: usize)
    requires
        spec_is_aligned_4k(a),
        spec_is_aligned_4k(b),
        a < b,
    ensures
        a + PAGE_SIZE_4K <= b,
{
    reveal(spec_is_aligned_4k);
}

/// Rounding down gives the page boundary at or below `addr` that lies
/// less than a page below it.
pub proof fn lemma_align_down_4k(addr: usize)
    ensures
        spec_is_aligned_4k(spec_align_down_4k(addr)),
        spec_align_down_4k(addr) <= addr < spec_align_down_4k(addr) + PAGE_SIZE_4K,
        spec_is_aligned_4k(addr) ==> spec_align_down_4k(addr) == addr && addr % PAGE_SIZE_4K == 0,
        forall|a: usize| #[trigger]
            spec_is_aligned_4k(a) && a <= addr ==> a <= spec_align_down_4k(addr),
{
    reveal(spec_is_aligned_4k);
}

/// Rounding up gives the page boundary at or above `addr` that lies less
/// than a page above it.
pub proof fn lemma_align_up_4k(addr: usize)
    ensures
        addr <= spec_align_up_4k(addr) < addr + PAGE_SIZE_4K,
        spec_align_up_4k(addr) <= usize::MAX ==> spec_is_aligned_4k(
            spec_align_up_4k(addr) as usize,
        ),
        spec_is_aligned_4k(addr) ==> spec_align_up_4k(addr) == addr,
        forall|b: usize| #[trigger]
            spec_is_aligned_4k(b) && addr <= b ==> spec_align_up_4k(addr) <= b,
{
    reveal(spec_is_aligned_4k);
}

/// `memory_addr::align_down_4k` clears the twelve low bits of `addr`: the
/// result is the greatest multiple of 4096 that does not exceed `addr`.
pub assume_specification[ memory_addr::align_down_4k ](addr: usize) -> (r: usize)
    ensures
        r == spec_align_down_4k(addr),
;

/// `memory_addr::is_aligned_4k` tests whether the twelve low bits of `addr`
/// are all zero, that is whether `addr` is a multiple of 4096.
pub assume_specification[ memory_addr::is_aligned_4k ](addr: usize) -> (r: bool)
    ensures
        r == spec_is_aligned_4k(addr),
;

/// The first page boundary at or above `addr`.
pub open spec fn spec_align_up_4k(addr: usize) -> int {
    if addr % PAGE_SIZE_4K == 0 {
        addr as int
    } else {
        addr + PAGE_SIZE_4K - addr % PAGE_SIZE_4K
    }
}

/// `memory_addr::align_up_4k` adds 4096 to `addr`, takes one off and clears
/// the twelve low bits: the result is the least multiple of 4096 that is
/// not below `addr`. The first sum must not overflow.
pub assume_specification[ memory_addr::align_up_4k ](addr: usize) -> (r: usize)
    requires
        addr + PAGE_SIZE_4K <= usize::MAX,
    ensures
        r == spec_align_up_4k(addr),
;

/// A half-open range `[start, end)` of virtual addresses.
#[derive(Clone, Copy, Debug)]
pub struct VirtAddrRange {
    pub start: VirtAddr,
    pub end: VirtAddr,
}

impl VirtAddrRange {
    /// Whether `addr` lies in the range.
    pub open spec fn spec_contains(&self, addr: usize) -> bool {
        self.start <= addr < self.end
    }

    /// Whether the bytes `[start, start + size)` all lie in the range.
    pub open spec fn spec_contains_range(&self, start: usize, size: usize) -> bool {
        self.start <= start && start + size <= self.end
    }

    /// The range `[start, start + size)`.
    pub fn from_start_size(start: VirtAddr, size: usize) -> (r: Self)
        requires
            start + size <= usize::MAX,
        ensures
            r.start == start,
            r.end == start + size,
    {
        VirtAddrRange { start, end: start + size }
    }

    /// Whether `addr` lies in the range.
    #[verifier::when_used_as_spec(spec_contains)]
    pub fn contains(&self, addr: VirtAddr) -> (r: bool)
        ensures
            r == self.spec_contains(addr),
    {
        self.start <= addr && addr < self.end
    }

    /// Whether the bytes `[start, start + size)` all lie in the range.
    #[verifier::when_used_as_spec(spec_contains_range)]
    pub fn contains_range(&self, start: VirtAddr, size: usize) -> (r: bool)
        ensures
            r == self.spec_contains_range(start, size),
    {
        self.start <= start && size <= self.end && start <= self.end - size
    }
}

} // verus!
