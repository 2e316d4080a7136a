//! Regions: contiguous ranges of virtual addresses with uniform flags and
//! one backend, and what mapping, unmapping and changing flags do to an
//! ordered sequence of them.

use vstd::prelude::*;
use crate::addr::{lemma_aligned_sum, spec_is_aligned_4k, VirtAddr, VirtAddrRange};
use crate::backend::{Backend, PageReader};
use crate::flags::MappingFlags;

verus! {

/// A contiguous range of virtual addresses with uniform access flags and
/// one backend.
pub struct Region<R: PageReader> {
    /// First address of the region.
    pub start: VirtAddr,
    /// Number of bytes in the region.
    pub size: usize,
    /// Access flags of the region's pages.
    pub flags: MappingFlags,
    /// How the region's pages are backed.
    pub backend: Backend<R>,
}

impl<R: PageReader> Region<R> {
    /// One past the last address of the region.
    pub open spec fn spec_end(self) -> int {
        self.start + self.size
    }

    /// Whether `addr` lies in the region.
    pub open spec fn spec_contains(self, addr: usize) -> bool {
        self.start <= addr < self.spec_end()
    }

    /// Whether the region shares an address with `[start, end)`.
    pub open spec fn spec_overlaps(self, start: int, end: int) -> bool {
        self.start < end && start < self.spec_end()
    }

    /// Whether the region is page-aligned, not empty, and inside
    /// `[base, top)`.
    pub open spec fn spec_ok(self, base: int, top: int) -> bool {
        &&& spec_is_aligned_4k(self.start)
        &&& spec_is_aligned_4k(self.size)
        &&& self.size > 0
        &&& base <= self.start
        &&& self.spec_end() <= top
    }

    /// The part of the region below `addr`.
    pub open spec fn spec_left(self, addr: usize) -> Region<R> {
        Region { size: (addr - self.start) as usize, ..self }
    }

    /// The part of the region from `addr` on.
    pub open spec fn spec_right(self, addr: usize) -> Region<R> {
        Region { start: addr, size: (self.spec_end() - addr) as usize, ..self }
    }

    /// One past the last address of the region.
    pub fn end(&self) -> (r: usize)
        requires
            self.spec_end() <= usize::MAX,
        ensures
            r == self.spec_end(),
    {
        self.start + self.size
    }
}

impl<R: PageReader> Clone for Region<R> {
    fn clone(&self) -> (r: Self)
        ensures
            r == *self,
    {
        Region {
            start: self.start,
            size: self.size,
            flags: self.flags,
            backend: self.backend.clone(),
        }
    }
}

/// Whether the regions of `s` are page-aligned, not empty, inside
/// `[base, top)`, in ascending order, and share no address.
pub open spec fn spec_regions_wf<R: PageReader>(s: Seq<Region<R>>, base: int, top: int) -> bool {
    &&& forall|i: int| 0 <= i < s.len() ==> (#[trigger] s[i]).spec_ok(base, top)
    &&& forall|i: int, j: int|
        0 <= i < j < s.len() ==> (#[trigger] s[i]).spec_end() <= (#[trigger] s[j]).start
}

/// Whether `addr` lies in a region of `s`.
pub open spec fn spec_covered<R: PageReader>(s: Seq<Region<R>>, addr: usize) -> bool {
    exists|i: int| 0 <= i < s.len() && (#[trigger] s[i]).spec_contains(addr)
}

/// Whether a region of `s` shares an address with `[start, end)`.
pub open spec fn spec_overlaps<R: PageReader>(s: Seq<Region<R>>, start: int, end: int) -> bool {
    exists|i: int| 0 <= i < s.len() && (#[trigger] s[i]).spec_overlaps(start, end)
}

/// The index of the region of `s` that holds `addr`, if there is one.
pub open spec fn spec_find<R: PageReader>(s: Seq<Region<R>>, addr: usize) -> Option<int> {
    if spec_covered(s, addr) {
        Some(choose|i: int| 0 <= i < s.len() && (#[trigger] s[i]).spec_contains(addr))
    } else {
        None
    }
}

/// The number of regions of `s` that begin below `addr`, for regions in
/// ascending order.
pub open spec fn spec_rank<R: PageReader>(s: Seq<Region<R>>, addr: usize) -> int
    decreases s.len(),
{
    if s.len() == 0 {
        0
    } else if s.last().start < addr {
        s.len() as int
    } else {
        spec_rank(s.drop_last(), addr)
    }
}

/// Whether `[addr, addr + size)` is page-aligned, inside `limit`, and free
/// of the regions of `s`.
pub open spec fn spec_is_free_at<R: PageReader>(
    s: Seq<Region<R>>,
    addr: usize,
    size: usize,
    limit: VirtAddrRange,
) -> bool {
    &&& spec_is_aligned_4k(addr)
    &&& limit.start <= addr
    &&& addr + size <= limit.end
    &&& !spec_overlaps(s, addr as int, addr + size)
}

/// Whether `addr` is the lowest address at or above `hint` at which `size`
/// bytes are free inside `limit`.
pub open spec fn spec_is_first_free<R: PageReader>(
    s: Seq<Region<R>>,
    addr: usize,
    hint: usize,
    size: usize,
    limit: VirtAddrRange,
) -> bool {
    &&& hint <= addr
    &&& spec_is_free_at(s, addr, size, limit)
    &&& forall|b: usize| hint <= b < addr ==> !#[trigger] spec_is_free_at(s, b, size, limit)
}

/// The lowest address at or above `hint` at which `size` bytes are free
/// inside `limit`, if there is such an address.
pub open spec fn spec_first_free<R: PageReader>(
    s: Seq<Region<R>>,
    hint: usize,
    size: usize,
    limit: VirtAddrRange,
) -> Option<usize> {
    if exists|a: usize| spec_is_first_free(s, a, hint, size, limit) {
        Some(choose|a: usize| spec_is_first_free(s, a, hint, size, limit))
    } else {
        None
    }
}

/// The part of `[start, end)` that the region `r` covers, as its first
/// address and one past its last.
pub open spec fn spec_part<R: PageReader>(r: Region<R>, start: usize, end: usize) -> (int, int) {
    (
        if r.start >= start { r.start as int } else { start as int },
        if r.spec_end() <= end { r.spec_end() } else { end as int },
    )
}

/// What is left of the region `r` when `[start, end)` is unmapped: the
/// region itself where the two do not meet, else the part below `start`
/// and the part from `end` on, as far as there are such parts.
pub open spec fn spec_unmap_pieces<R: PageReader>(r: Region<R>, start: usize, end: usize) -> Seq<
    Region<R>,
> {
    if !r.spec_overlaps(start as int, end as int) {
        seq![r]
    } else {
        (if r.start < start {
            seq![r.spec_left(start)]
        } else {
            Seq::empty()
        }) + (if end < r.spec_end() {
            seq![r.spec_right(end)]
        } else {
            Seq::empty()
        })
    }
}

/// The regions that are left of `s` when `[start, end)` is unmapped.
pub open spec fn spec_unmap_regions<R: PageReader>(s: Seq<Region<R>>, start: usize, end: usize) -> Seq<
    Region<R>,
>
    decreases s.len(),
{
    if s.len() == 0 {
        Seq::empty()
    } else {
        spec_unmap_regions(s.drop_last(), start, end) + spec_unmap_pieces(s.last(), start, end)
    }
}

/// What becomes of the region `r` when the flags of `[start, end)` are
/// replaced by `flags`: the region itself where the two do not meet, else
/// the part below `start` as it was, the part inside `[start, end)` with
/// the new flags, and the part from `end` on as it was.
pub open spec fn spec_protect_pieces<R: PageReader>(
    r: Region<R>,
    start: usize,
    end: usize,
    flags: MappingFlags,
) -> Seq<Region<R>> {
    if !r.spec_overlaps(start as int, end as int) {
        seq![r]
    } else {
        (if r.start < start {
            seq![r.spec_left(start)]
        } else {
            Seq::empty()
        }) + seq![
            Region {
                start: spec_part(r, start, end).0 as usize,
                size: (spec_part(r, start, end).1 - spec_part(r, start, end).0) as usize,
                flags,
                backend: r.backend,
            },
        ] + (if end < r.spec_end() {
            seq![r.spec_right(end)]
        } else {
            Seq::empty()
        })
    }
}

/// The regions of `s` after the flags of `[start, end)` were replaced by
/// `flags`.
pub open spec fn spec_protect_regions<R: PageReader>(
    s: Seq<Region<R>>,
    start: usize,
    end: usize,
    flags: MappingFlags,
) -> Seq<Region<R>>
    decreases s.len(),
{
    if s.len() == 0 {
        Seq::empty()
    } else {
        spec_protect_regions(s.drop_last(), start, end, flags) + spec_protect_pieces(
            s.last(),
            start,
            end,
            flags,
        )
    }
}

/// Whether the region `p` is a part of the region `r`, with the flags and
/// the backend of `r`.
pub open spec fn spec_piece_of<R: PageReader>(p: Region<R>, r: Region<R>) -> bool {
    &&& r.start <= p.start
    &&& p.spec_end() <= r.spec_end()
    &&& p.flags == r.flags
    &&& p.backend == r.backend
}

/// Whether the region `p` is a part of the region `r` after the flags of
/// `[start, end)` were replaced by `flags`: it has the backend of `r`, it
/// lies inside `[start, end)` or outside of it, and it has the new flags
/// inside and the flags of `r` outside.
pub open spec fn spec_protected_piece_of<R: PageReader>(
    p: Region<R>,
    r: Region<R>,
    start: usize,
    end: usize,
    flags: MappingFlags,
) -> bool {
    &&& r.start <= p.start
    &&& p.spec_end() <= r.spec_end()
    &&& p.backend == r.backend
    &&& if start <= p.start && p.spec_end() <= end {
        p.flags == flags
    } else {
        p.flags == r.flags && (p.spec_end() <= start || end <= p.start)
    }
}

/// There is at most one lowest free address, and there is one as soon as
/// any address at or above `hint` is free.
pub proof fn lemma_first_free<R: PageReader>(
    s: Seq<Region<R>>,
    hint: usize,
    size: usize,
    limit: VirtAddrRange,
)
    ensures
        forall|a: usize| #[trigger]
            spec_is_first_free(s, a, hint, size, limit) ==> spec_first_free(s, hint, size, limit)
                == Some(a),
        spec_first_free(s, hint, size, limit) is None ==> forall|b: usize|
            hint <= b ==> !#[trigger] spec_is_free_at(s, b, size, limit),
        spec_first_free(s, hint, size, limit) matches Some(a) ==> spec_is_first_free(
            s,
            a,
            hint,
            size,
            limit,
        ),
{
    assert forall|a: usize| #[trigger] spec_is_first_free(s, a, hint, size, limit) implies spec_first_free(
        s,
        hint,
        size,
        limit,
    ) == Some(a) by {
        let c = choose|c: usize| spec_is_first_free(s, c, hint, size, limit);
        assert(spec_is_first_free(s, c, hint, size, limit));
        if c < a {
            assert(!spec_is_free_at(s, c, size, limit));
        } else if a < c {
            assert(!spec_is_free_at(s, a, size, limit));
        }
    }
    if spec_first_free(s, hint, size, limit) is None {
        assert forall|b: usize| hint <= b implies !#[trigger] spec_is_free_at(s, b, size, limit) by {
            if spec_is_free_at(s, b, size, limit) {
                lemma_least_free(s, hint, size, limit, b, b as int - hint as int);
            }
        }
    }
}

/// Where a new region goes: inserting a region that overlaps none of `s`
/// behind all regions that begin below it keeps the regions in order, puts
/// it at its rank, and adds exactly its addresses to those covered.
pub proof fn lemma_insert_region<R: PageReader>(
    s: Seq<Region<R>>,
    k: int,
    r: Region<R>,
    base: int,
    top: int,
)
    requires
        spec_regions_wf(s, base, top),
        r.spec_ok(base, top),
        !spec_overlaps(s, r.start as int, r.spec_end()),
        0 <= k <= s.len(),
        forall|i: int| 0 <= i < k ==> (#[trigger] s[i]).start < r.start,
        forall|i: int| k <= i < s.len() ==> (#[trigger] s[i]).start >= r.start,
    ensures
        spec_regions_wf(s.insert(k, r), base, top),
        spec_rank(s, r.start) == k,
        forall|va: usize|
            spec_covered(s.insert(k, r), va) <==> spec_covered(s, va) || r.spec_contains(va),
    decreases s.len(),
{
    let t = s.insert(k, r);
    assert forall|i: int, j: int| 0 <= i < j < t.len() implies (#[trigger] t[i]).spec_end() <= (
    #[trigger] t[j]).start by {
        if i == k {
            assert(!s[j - 1].spec_overlaps(r.start as int, r.spec_end()));
        } else if j == k {
            assert(!s[i].spec_overlaps(r.start as int, r.spec_end()));
        } else {
            let i0 = if i < k { i } else { i - 1 };
            let j0 = if j < k { j } else { j - 1 };
            assert(s[i0].spec_end() <= s[j0].start);
        }
    }
    assert forall|i: int| 0 <= i < t.len() implies (#[trigger] t[i]).spec_ok(base, top) by {
        if i < k {
            assert(s[i].spec_ok(base, top));
        } else if i > k {
            assert(s[i - 1].spec_ok(base, top));
        }
    }
    assert forall|va: usize|
        spec_covered(t, va) <==> spec_covered(s, va) || r.spec_contains(va) by {
        if spec_covered(t, va) {
            let i = choose|i: int| 0 <= i < t.len() && (#[trigger] t[i]).spec_contains(va);
            if i < k {
                assert(s[i].spec_contains(va));
            } else if i > k {
                assert(s[i - 1].spec_contains(va));
            }
        }
        if spec_covered(s, va) {
            let i = choose|i: int| 0 <= i < s.len() && (#[trigger] s[i]).spec_contains(va);
            if i < k {
                assert(t[i].spec_contains(va));
            } else {
                assert(t[i + 1].spec_contains(va));
            }
        }
        if r.spec_contains(va) {
            assert(t[k].spec_contains(va));
        }
    }
    if s.len() > 0 {
        if s.last().start < r.start {
            assert(k == s.len());
        } else {
            let p = s.drop_last();
            assert forall|i: int| 0 <= i < p.len() implies (#[trigger] p[i]).spec_ok(base, top) by {
                assert(s[i].spec_ok(base, top));
            }
            assert forall|i: int, j: int| 0 <= i < j < p.len() implies (#[trigger] p[i]).spec_end()
                <= (#[trigger] p[j]).start by {
                assert(s[i].spec_end() <= s[j].start);
            }
            assert(!spec_overlaps(p, r.start as int, r.spec_end())) by {
                if spec_overlaps(p, r.start as int, r.spec_end()) {
                    let i = choose|i: int|
                        0 <= i < p.len() && (#[trigger] p[i]).spec_overlaps(
                            r.start as int,
                            r.spec_end(),
                        );
                    assert(s[i].spec_overlaps(r.start as int, r.spec_end()));
                }
            }
            assert forall|i: int| 0 <= i < k implies (#[trigger] p[i]).start < r.start by {
                assert(s[i].start < r.start);
            }
            assert forall|i: int| k <= i < p.len() implies (#[trigger] p[i]).start >= r.start by {
                assert(s[i].start >= r.start);
            }
            lemma_insert_region(p, k, r, base, top);
        }
    }
}

/// Unmapping keeps the regions in order and uncovers exactly the
/// addresses of `[start, end)`.
pub proof fn lemma_unmap_regions<R: PageReader>(
    s: Seq<Region<R>>,
    start: usize,
    end: usize,
    base: int,
    top: int,
)
    requires
        spec_regions_wf(s, base, top),
        top <= usize::MAX,
        spec_is_aligned_4k(start),
        spec_is_aligned_4k(end),
        start < end,
    ensures
        spec_regions_wf(spec_unmap_regions(s, start, end), base, top),
        forall|va: usize|
            #![trigger spec_covered(spec_unmap_regions(s, start, end), va)]
            #![trigger spec_covered(s, va)]
            spec_covered(spec_unmap_regions(s, start, end), va) <==> spec_covered(s, va) && !(start
                <= va < end),
        forall|i: int|
            0 <= i < spec_unmap_regions(s, start, end).len() ==> s.len() > 0 && (
            #[trigger] spec_unmap_regions(s, start, end)[i]).spec_end() <= s.last().spec_end(),
    decreases s.len(),
{
    let t = spec_unmap_regions(s, start, end);
    if s.len() > 0 {
        let p = s.drop_last();
        let r = s.last();
        let tp = spec_unmap_regions(p, start, end);
        let pieces = spec_unmap_pieces(r, start, end);
        lemma_drop_last_wf(s, base, top);
        lemma_unmap_regions(p, start, end, base, top);
        lemma_unmap_pieces(r, start, end, base, top);
        assert forall|i: int| 0 <= i < tp.len() implies (#[trigger] tp[i]).spec_end() <= r.start by {
            assert(tp[i].spec_end() <= p.last().spec_end());
            assert(p[p.len() - 1].spec_end() <= s.last().start);
        }
        lemma_append_pieces(tp, pieces, r.start as int, base, top);
        assert(t == tp + pieces);
        assert forall|i: int| 0 <= i < t.len() implies (#[trigger] t[i]).spec_end()
            <= s.last().spec_end() by {
            if i < tp.len() {
                assert(tp[i].spec_end() <= r.start);
            } else {
                assert(t[i] == pieces[i - tp.len()]);
            }
        }
        assert forall|va: usize|
            #![trigger spec_covered(t, va)]
            #![trigger spec_covered(s, va)]
            spec_covered(t, va) <==> spec_covered(s, va) && !(start <= va < end) by {
            assert(spec_covered(t, va) <==> spec_covered(tp, va) || spec_covered(pieces, va));
            assert(spec_covered(tp, va) <==> spec_covered(p, va) && !(start <= va < end));
            assert(spec_covered(pieces, va) <==> r.spec_contains(va) && !(start <= va < end));
            assert(spec_covered(s, va) <==> spec_covered(p, va) || r.spec_contains(va));
        }
    } else {
        assert forall|va: usize|
            #![trigger spec_covered(t, va)]
            #![trigger spec_covered(s, va)]
            spec_covered(t, va) <==> spec_covered(s, va) && !(start <= va < end) by {}
    }
}

/// A change of flags keeps the regions in order and covers the same
/// addresses as before.
pub proof fn lemma_protect_regions<R: PageReader>(
    s: Seq<Region<R>>,
    start: usize,
    end: usize,
    flags: MappingFlags,
    base: int,
    top: int,
)
    requires
        spec_regions_wf(s, base, top),
        top <= usize::MAX,
        spec_is_aligned_4k(start),
        spec_is_aligned_4k(end),
        start < end,
    ensures
        spec_regions_wf(spec_protect_regions(s, start, end, flags), base, top),
        forall|va: usize|
            #![trigger spec_covered(spec_protect_regions(s, start, end, flags), va)]
            #![trigger spec_covered(s, va)]
            spec_covered(spec_protect_regions(s, start, end, flags), va) <==> spec_covered(s, va),
        forall|i: int|
            0 <= i < spec_protect_regions(s, start, end, flags).len() ==> s.len() > 0 && (
            #[trigger] spec_protect_regions(s, start, end, flags)[i]).spec_end()
                <= s.last().spec_end(),
    decreases s.len(),
{
    let t = spec_protect_regions(s, start, end, flags);
    if s.len() > 0 {
        let p = s.drop_last();
        let r = s.last();
        let tp = spec_protect_regions(p, start, end, flags);
        let pieces = spec_protect_pieces(r, start, end, flags);
        lemma_drop_last_wf(s, base, top);
        lemma_protect_regions(p, start, end, flags, base, top);
        lemma_protect_pieces(r, start, end, flags, base, top);
        assert forall|i: int| 0 <= i < tp.len() implies (#[trigger] tp[i]).spec_end() <= r.start by {
            assert(tp[i].spec_end() <= p.last().spec_end());
            assert(p[p.len() - 1].spec_end() <= s.last().start);
        }
        lemma_append_pieces(tp, pieces, r.start as int, base, top);
        assert(t == tp + pieces);
        assert forall|i: int| 0 <= i < t.len() implies (#[trigger] t[i]).spec_end()
            <= s.last().spec_end() by {
            if i < tp.len() {
                assert(tp[i].spec_end() <= r.start);
            } else {
                assert(t[i] == pieces[i - tp.len()]);
            }
        }
        assert forall|va: usize|
            #![trigger spec_covered(t, va)]
            #![trigger spec_covered(s, va)]
            spec_covered(t, va) <==> spec_covered(s, va) by {
            assert(spec_covered(t, va) <==> spec_covered(tp, va) || spec_covered(pieces, va));
            assert(spec_covered(tp, va) <==> spec_covered(p, va));
            assert(spec_covered(pieces, va) <==> r.spec_contains(va));
            assert(spec_covered(s, va) <==> spec_covered(p, va) || r.spec_contains(va));
        }
    } else {
        assert forall|va: usize|
            #![trigger spec_covered(t, va)]
            #![trigger spec_covered(s, va)]
            spec_covered(t, va) <==> spec_covered(s, va) by {}
    }
}

/// Every region that is left after unmapping is a part of a region from
/// before.
pub(crate) proof fn lemma_unmap_regions_pieces<R: PageReader>(
    s: Seq<Region<R>>,
    start: usize,
    end: usize,
    base: int,
    top: int,
)
    requires
        spec_regions_wf(s, base, top),
        top <= usize::MAX,
        start < end,
    ensures
        forall|i: int|
            0 <= i < spec_unmap_regions(s, start, end).len() ==> exists|j: int|
                0 <= j < s.len() && spec_piece_of(
                    #[trigger] spec_unmap_regions(s, start, end)[i],
                    #[trigger] s[j],
                ),
    decreases s.len(),
{
    let t = spec_unmap_regions(s, start, end);
    if s.len() > 0 {
        let p = s.drop_last();
        let r = s.last();
        let tp = spec_unmap_regions(p, start, end);
        let pieces = spec_unmap_pieces(r, start, end);
        lemma_drop_last_wf(s, base, top);
        lemma_unmap_regions_pieces(p, start, end, base, top);
        assert(t == tp + pieces);
        assert forall|i: int| 0 <= i < t.len() implies exists|j: int|
            0 <= j < s.len() && spec_piece_of(#[trigger] t[i], #[trigger] s[j]) by {
            if i < tp.len() {
                let j = choose|j: int| 0 <= j < p.len() && spec_piece_of(tp[i], #[trigger] p[j]);
                assert(spec_piece_of(t[i], s[j]));
            } else {
                assert(t[i] == pieces[i - tp.len()]);
                assert(spec_piece_of(t[i], s[s.len() - 1]));
            }
        }
    }
}

/// Every region after a change of flags is a part of a region from
/// before, with the new flags inside `[start, end)` and the old ones
/// outside.
pub(crate) proof fn lemma_protect_regions_pieces<R: PageReader>(
    s: Seq<Region<R>>,
    start: usize,
    end: usize,
    flags: MappingFlags,
    base: int,
    top: int,
)
    requires
        spec_regions_wf(s, base, top),
        top <= usize::MAX,
        start < end,
    ensures
        forall|i: int|
            0 <= i < spec_protect_regions(s, start, end, flags).len() ==> exists|j: int|
                0 <= j < s.len() && spec_protected_piece_of(
                    #[trigger] spec_protect_regions(s, start, end, flags)[i],
                    #[trigger] s[j],
                    start,
                    end,
                    flags,
                ),
    decreases s.len(),
{
    let t = spec_protect_regions(s, start, end, flags);
    if s.len() > 0 {
        let p = s.drop_last();
        let r = s.last();
        let tp = spec_protect_regions(p, start, end, flags);
        let pieces = spec_protect_pieces(r, start, end, flags);
        lemma_drop_last_wf(s, base, top);
        lemma_protect_regions_pieces(p, start, end, flags, base, top);
        assert(t == tp + pieces);
        assert forall|i: int| 0 <= i < t.len() implies exists|j: int|
            0 <= j < s.len() && spec_protected_piece_of(
                #[trigger] t[i],
                #[trigger] s[j],
                start,
                end,
                flags,
            ) by {
            if i < tp.len() {
                let j = choose|j: int|
                    0 <= j < p.len() && spec_protected_piece_of(
                        tp[i],
                        #[trigger] p[j],
                        start,
                        end,
                        flags,
                    );
                assert(spec_protected_piece_of(t[i], s[j], start, end, flags));
            } else {
                assert(t[i] == pieces[i - tp.len()]);
                assert(spec_protected_piece_of(t[i], s[s.len() - 1], start, end, flags));
            }
        }
    }
}

/// An address lies in one region at most.
pub(crate) proof fn lemma_one_region<R: PageReader>(
    s: Seq<Region<R>>,
    va: usize,
    i: int,
    j: int,
    base: int,
    top: int,
)
    requires
        spec_regions_wf(s, base, top),
        0 <= i < s.len(),
        0 <= j < s.len(),
        s[i].spec_contains(va),
        s[j].spec_contains(va),
    ensures
        i == j,
{
    if i < j {
        assert(s[i].spec_end() <= s[j].start);
    } else if j < i {
        assert(s[j].spec_end() <= s[i].start);
    }
}

/// The parts that a region is cut into at `start` and `end` are regions
/// themselves, where the cuts fall inside the region.
pub(crate) proof fn lemma_parts_ok<R: PageReader>(r: Region<R>, start: usize, end: usize, base: int, top: int)
    requires
        r.spec_ok(base, top),
        top <= usize::MAX,
        spec_is_aligned_4k(start),
        spec_is_aligned_4k(end),
        start < end,
    ensures
        r.start < start < r.spec_end() ==> r.spec_left(start).spec_ok(base, top) && r.spec_left(
            start,
        ).spec_end() == start,
        r.start < end < r.spec_end() ==> r.spec_right(end).spec_ok(base, top) && r.spec_right(
            end,
        ).spec_end() == r.spec_end(),
        r.spec_overlaps(start as int, end as int) ==> {
            let part = spec_part(r, start, end);
            &&& r.start <= part.0 < part.1 <= r.spec_end()
            &&& start <= part.0
            &&& part.1 <= end
            &&& spec_is_aligned_4k(part.0 as usize)
            &&& spec_is_aligned_4k((part.1 - part.0) as usize)
        },
{
    let r_end = (r.start + r.size) as usize;
    lemma_aligned_sum(r.start, r.size);
    if r.start < start {
        lemma_aligned_sum(start, r.start);
    }
    if end < r_end {
        lemma_aligned_sum(r_end, end);
    }
    lemma_aligned_sum(end, start);
    if r.start < end {
        lemma_aligned_sum(end, r.start);
    }
    if start < r_end {
        lemma_aligned_sum(r_end, start);
    }
}

/// Taking one more region into account: what is left of the first `i + 1`
/// regions is what is left of the first `i`, followed by what is left of
/// the `i`-th.
pub(crate) proof fn lemma_unmap_prefix<R: PageReader>(s: Seq<Region<R>>, i: int, start: usize, end: usize)
    requires
        0 <= i < s.len(),
    ensures
        spec_unmap_regions(s.subrange(0, i + 1), start, end) == spec_unmap_regions(
            s.subrange(0, i),
            start,
            end,
        ) + spec_unmap_pieces(s[i], start, end),
{
    assert(s.subrange(0, i + 1).drop_last() =~= s.subrange(0, i));
    assert(s.subrange(0, i + 1).last() == s[i]);
}

/// Taking one more region into account when flags change.
pub(crate) proof fn lemma_protect_prefix<R: PageReader>(
    s: Seq<Region<R>>,
    i: int,
    start: usize,
    end: usize,
    flags: MappingFlags,
)
    requires
        0 <= i < s.len(),
    ensures
        spec_protect_regions(s.subrange(0, i + 1), start, end, flags) == spec_protect_regions(
            s.subrange(0, i),
            start,
            end,
            flags,
        ) + spec_protect_pieces(s[i], start, end, flags),
{
    assert(s.subrange(0, i + 1).drop_last() =~= s.subrange(0, i));
    assert(s.subrange(0, i + 1).last() == s[i]);
}

/// Among the addresses from `hint` up to a free address `b` there is a
/// lowest free one.
proof fn lemma_least_free<R: PageReader>(
    s: Seq<Region<R>>,
    hint: usize,
    size: usize,
    limit: VirtAddrRange,
    b: usize,
    distance: int,
)
    requires
        hint <= b,
        distance == b - hint,
        spec_is_free_at(s, b, size, limit),
    ensures
        exists|a: usize| spec_is_first_free(s, a, hint, size, limit),
    decreases distance,
{
    if exists|c: usize| hint <= c < b && spec_is_free_at(s, c, size, limit) {
        let c = choose|c: usize| hint <= c < b && spec_is_free_at(s, c, size, limit);
        lemma_least_free(s, hint, size, limit, c, c as int - hint as int);
    } else {
        assert(spec_is_first_free(s, b, hint, size, limit));
    }
}

/// What is left of one region lies inside the region, in order, and
/// covers the region's addresses outside `[start, end)`.
proof fn lemma_unmap_pieces<R: PageReader>(
    r: Region<R>,
    start: usize,
    end: usize,
    base: int,
    top: int,
)
    requires
        r.spec_ok(base, top),
        top <= usize::MAX,
        spec_is_aligned_4k(start),
        spec_is_aligned_4k(end),
        start < end,
    ensures
        spec_regions_wf(spec_unmap_pieces(r, start, end), base, top),
        forall|k: int|
            0 <= k < spec_unmap_pieces(r, start, end).len() ==> {
                &&& r.start <= (#[trigger] spec_unmap_pieces(r, start, end)[k]).start
                &&& spec_unmap_pieces(r, start, end)[k].spec_end() <= r.spec_end()
                &&& spec_unmap_pieces(r, start, end)[k].flags == r.flags
                &&& spec_unmap_pieces(r, start, end)[k].backend == r.backend
            },
        forall|va: usize|
            #![trigger spec_covered(spec_unmap_pieces(r, start, end), va)]
            spec_covered(spec_unmap_pieces(r, start, end), va) <==> r.spec_contains(va) && !(start
                <= va < end),
{
    let pieces = spec_unmap_pieces(r, start, end);
    let left = r.spec_left(start);
    let right = r.spec_right(end);
    lemma_parts_ok(r, start, end, base, top);
    if !r.spec_overlaps(start as int, end as int) {
        assert(pieces =~= seq![r]);
    } else if r.start < start && end < r.spec_end() {
        assert(pieces =~= seq![left, right]);
    } else if r.start < start {
        assert(pieces =~= seq![left]);
    } else if end < r.spec_end() {
        assert(pieces =~= seq![right]);
    } else {
        assert(pieces =~= Seq::<Region<R>>::empty());
    }
    assert forall|k: int| 0 <= k < pieces.len() implies (#[trigger] pieces[k] == r || pieces[k]
        == left || pieces[k] == right) by {}
    assert forall|va: usize|
        #![trigger spec_covered(pieces, va)]
        spec_covered(pieces, va) <==> r.spec_contains(va) && !(start <= va < end) by {
        if spec_covered(pieces, va) {
            let k = choose|k: int| 0 <= k < pieces.len() && (#[trigger] pieces[k]).spec_contains(va);
            assert(pieces[k] == r || pieces[k] == left || pieces[k] == right);
        }
        if r.spec_contains(va) && !(start <= va < end) {
            if !r.spec_overlaps(start as int, end as int) || va < start {
                assert(pieces[0].spec_contains(va));
            } else {
                assert(pieces[pieces.len() - 1].spec_contains(va));
            }
        }
    }
}

/// The parts of one region after a change of flags lie inside the region,
/// in order, and cover the region exactly.
proof fn lemma_protect_pieces<R: PageReader>(
    r: Region<R>,
    start: usize,
    end: usize,
    flags: MappingFlags,
    base: int,
    top: int,
)
    requires
        r.spec_ok(base, top),
        top <= usize::MAX,
        spec_is_aligned_4k(start),
        spec_is_aligned_4k(end),
        start < end,
    ensures
        spec_regions_wf(spec_protect_pieces(r, start, end, flags), base, top),
        forall|k: int|
            0 <= k < spec_protect_pieces(r, start, end, flags).len() ==> {
                &&& r.start <= (#[trigger] spec_protect_pieces(r, start, end, flags)[k]).start
                &&& spec_protect_pieces(r, start, end, flags)[k].spec_end() <= r.spec_end()
                &&& spec_protect_pieces(r, start, end, flags)[k].backend == r.backend
            },
        forall|va: usize|
            #![trigger spec_covered(spec_protect_pieces(r, start, end, flags), va)]
            spec_covered(spec_protect_pieces(r, start, end, flags), va) <==> r.spec_contains(va),
{
    let pieces = spec_protect_pieces(r, start, end, flags);
    let left = r.spec_left(start);
    let right = r.spec_right(end);
    let part = spec_part(r, start, end);
    let middle = Region {
        start: part.0 as usize,
        size: (part.1 - part.0) as usize,
        flags,
        backend: r.backend,
    };
    lemma_parts_ok(r, start, end, base, top);
    if !r.spec_overlaps(start as int, end as int) {
        assert(pieces =~= seq![r]);
    } else {
        assert(middle.spec_ok(base, top));
        assert(middle.start == part.0 && middle.spec_end() == part.1);
        if r.start < start && end < r.spec_end() {
            assert(pieces =~= seq![left, middle, right]);
        } else if r.start < start {
            assert(pieces =~= seq![left, middle]);
        } else if end < r.spec_end() {
            assert(pieces =~= seq![middle, right]);
        } else {
            assert(pieces =~= seq![middle]);
        }
    }
    assert forall|k: int| 0 <= k < pieces.len() implies (#[trigger] pieces[k] == r || pieces[k]
        == left || pieces[k] == right || pieces[k] == middle) by {}
    assert forall|va: usize|
        #![trigger spec_covered(pieces, va)]
        spec_covered(pieces, va) <==> r.spec_contains(va) by {
        if spec_covered(pieces, va) {
            let k = choose|k: int| 0 <= k < pieces.len() && (#[trigger] pieces[k]).spec_contains(va);
            assert(pieces[k] == r || pieces[k] == left || pieces[k] == right || pieces[k]
                == middle);
        }
        if r.spec_contains(va) {
            if !r.spec_overlaps(start as int, end as int) {
                assert(pieces[0].spec_contains(va));
            } else if va < start {
                assert(pieces[0].spec_contains(va));
            } else if va >= end {
                assert(pieces[pieces.len() - 1].spec_contains(va));
            } else {
                let k = if r.start < start { 1int } else { 0int };
                assert(pieces[k].spec_contains(va));
            }
        }
    }
}

/// Regions that are in order stay in order when each is replaced by
/// parts of itself.
proof fn lemma_append_pieces<R: PageReader>(
    tp: Seq<Region<R>>,
    pieces: Seq<Region<R>>,
    bound: int,
    base: int,
    top: int,
)
    requires
        spec_regions_wf(tp, base, top),
        spec_regions_wf(pieces, base, top),
        forall|i: int| 0 <= i < tp.len() ==> (#[trigger] tp[i]).spec_end() <= bound,
        forall|k: int| 0 <= k < pieces.len() ==> bound <= (#[trigger] pieces[k]).start,
    ensures
        spec_regions_wf(tp + pieces, base, top),
        forall|va: usize|
            #![trigger spec_covered(tp + pieces, va)]
            spec_covered(tp + pieces, va) <==> spec_covered(tp, va) || spec_covered(pieces, va),
{
    let t = tp + pieces;
    assert forall|i: int| 0 <= i < t.len() implies (#[trigger] t[i]).spec_ok(base, top) by {
        if i < tp.len() {
            assert(tp[i].spec_ok(base, top));
        } else {
            assert(pieces[i - tp.len()].spec_ok(base, top));
        }
    }
    assert forall|i: int, j: int| 0 <= i < j < t.len() implies (#[trigger] t[i]).spec_end() <= (
    #[trigger] t[j]).start by {
        if j < tp.len() {
            assert(tp[i].spec_end() <= tp[j].start);
        } else if i < tp.len() {
            assert(tp[i].spec_end() <= bound);
            assert(bound <= pieces[j - tp.len()].start);
        } else {
            assert(pieces[i - tp.len()].spec_end() <= pieces[j - tp.len()].start);
        }
    }
    assert forall|va: usize|
        #![trigger spec_covered(t, va)]
        spec_covered(t, va) <==> spec_covered(tp, va) || spec_covered(pieces, va) by {
        if spec_covered(t, va) {
            let i = choose|i: int| 0 <= i < t.len() && (#[trigger] t[i]).spec_contains(va);
            if i < tp.len() {
                assert(tp[i].spec_contains(va));
            } else {
                assert(pieces[i - tp.len()].spec_contains(va));
            }
        }
        if spec_covered(tp, va) {
            let i = choose|i: int| 0 <= i < tp.len() && (#[trigger] tp[i]).spec_contains(va);
            assert(t[i].spec_contains(va));
        }
        if spec_covered(pieces, va) {
            let k = choose|k: int| 0 <= k < pieces.len() && (#[trigger] pieces[k]).spec_contains(va);
            assert(t[tp.len() + k].spec_contains(va));
        }
    }
}

/// A prefix of regions in order is in order, and every region of it
/// ends where the next region begins or before.
proof fn lemma_drop_last_wf<R: PageReader>(s: Seq<Region<R>>, base: int, top: int)
    requires
        spec_regions_wf(s, base, top),
        s.len() > 0,
    ensures
        spec_regions_wf(s.drop_last(), base, top),
        s.last().spec_ok(base, top),
        forall|i: int| 0 <= i < s.len() - 1 ==> (#[trigger] s.drop_last()[i]).spec_end() <= s.last().start,
        forall|va: usize|
            #![trigger spec_covered(s, va)]
            spec_covered(s, va) <==> spec_covered(s.drop_last(), va) || s.last().spec_contains(va),
{
    let p = s.drop_last();
    assert(s[s.len() - 1].spec_ok(base, top));
    assert forall|i: int| 0 <= i < p.len() implies (#[trigger] p[i]).spec_ok(base, top) by {
        assert(s[i].spec_ok(base, top));
    }
    assert forall|i: int, j: int| 0 <= i < j < p.len() implies (#[trigger] p[i]).spec_end() <= (
    #[trigger] p[j]).start by {
        assert(s[i].spec_end() <= s[j].start);
    }
    assert forall|i: int| 0 <= i < s.len() - 1 implies (#[trigger] p[i]).spec_end()
        <= s.last().start by {
        assert(s[i].spec_end() <= s[s.len() - 1].start);
    }
    assert forall|va: usize|
        #![trigger spec_covered(s, va)]
        spec_covered(s, va) <==> spec_covered(p, va) || s.last().spec_contains(va) by {
        if spec_covered(s, va) {
            let i = choose|i: int| 0 <= i < s.len() && (#[trigger] s[i]).spec_contains(va);
            if i < p.len() {
                assert(p[i].spec_contains(va));
            }
        }
        if spec_covered(p, va) {
            let i = choose|i: int| 0 <= i < p.len() && (#[trigger] p[i]).spec_contains(va);
            assert(s[i].spec_contains(va));
        }
        if s.last().spec_contains(va) {
            assert(s[s.len() - 1].spec_contains(va));
        }
    }
}

/// Appends to `rest` what is left of `area` when `[start, end)` is
/// unmapped.
pub(crate) fn push_unmap_pieces<R: PageReader>(
    area: &Region<R>,
    start: VirtAddr,
    end: VirtAddr,
    rest: &mut Vec<Region<R>>,
)
    requires
        area.start + area.size <= usize::MAX,
        start < end,
    ensures
        final(rest)@ == old(rest)@ + spec_unmap_pieces(*area, start, end),
{
    let area_end = area.start + area.size;
    let ghost pieces = spec_unmap_pieces(*area, start, end);
    let ghost left = area.spec_left(start);
    let ghost right = area.spec_right(end);
    if area.start < end && start < area_end {
        if area.start < start {
            rest.push(
                Region {
                    start: area.start,
                    size: start - area.start,
                    flags: area.flags,
                    backend: area.backend.clone(),
                },
            );
        }
        if end < area_end {
            rest.push(
                Region {
                    start: end,
                    size: area_end - end,
                    flags: area.flags,
                    backend: area.backend.clone(),
                },
            );
        }
        proof {
            if area.start < start && end < area_end {
                assert(pieces =~= seq![left, right]);
                assert(rest@ =~= old(rest)@.push(left).push(right));
            } else if area.start < start {
                assert(pieces =~= seq![left]);
                assert(rest@ =~= old(rest)@.push(left));
            } else if end < area_end {
                assert(pieces =~= seq![right]);
                assert(rest@ =~= old(rest)@.push(right));
            } else {
                assert(pieces =~= Seq::<Region<R>>::empty());
                assert(rest@ =~= old(rest)@);
            }
            assert(rest@ =~= old(rest)@ + pieces);
        }
    } else {
        rest.push(area.clone());
        proof {
            assert(pieces =~= seq![*area]);
            assert(rest@ =~= old(rest)@ + pieces);
        }
    }
}

/// Appends to `rest` the parts of `area` after the flags of
/// `[start, end)` were replaced by `new_flags`.
pub(crate) fn push_protect_pieces<R: PageReader>(
    area: &Region<R>,
    start: VirtAddr,
    end: VirtAddr,
    new_flags: MappingFlags,
    rest: &mut Vec<Region<R>>,
)
    requires
        area.start + area.size <= usize::MAX,
        start < end,
    ensures
        final(rest)@ == old(rest)@ + spec_protect_pieces(*area, start, end, new_flags),
{
    let area_end = area.start + area.size;
    let ghost pieces = spec_protect_pieces(*area, start, end, new_flags);
    let ghost left = area.spec_left(start);
    let ghost right = area.spec_right(end);
    if area.start < end && start < area_end {
        let part_start = if area.start >= start {
            area.start
        } else {
            start
        };
        let part_end = if area_end <= end {
            area_end
        } else {
            end
        };
        let ghost middle = Region {
            start: part_start,
            size: (part_end - part_start) as usize,
            flags: new_flags,
            backend: area.backend,
        };
        if area.start < start {
            rest.push(
                Region {
                    start: area.start,
                    size: start - area.start,
                    flags: area.flags,
                    backend: area.backend.clone(),
                },
            );
        }
        rest.push(
            Region {
                start: part_start,
                size: part_end - part_start,
                flags: new_flags,
                backend: area.backend.clone(),
            },
        );
        if end < area_end {
            rest.push(
                Region {
                    start: end,
                    size: area_end - end,
                    flags: area.flags,
                    backend: area.backend.clone(),
                },
            );
        }
        proof {
            if area.start < start && end < area_end {
                assert(pieces =~= seq![left, middle, right]);
                assert(rest@ =~= old(rest)@.push(left).push(middle).push(right));
            } else if area.start < start {
                assert(pieces =~= seq![left, middle]);
                assert(rest@ =~= old(rest)@.push(left).push(middle));
            } else if end < area_end {
                assert(pieces =~= seq![middle, right]);
                assert(rest@ =~= old(rest)@.push(middle).push(right));
            } else {
                assert(pieces =~= seq![middle]);
                assert(rest@ =~= old(rest)@.push(middle));
            }
            assert(rest@ =~= old(rest)@ + pieces);
        }
    } else {
        rest.push(area.clone());
        proof {
            assert(pieces =~= seq![*area]);
            assert(rest@ =~= old(rest)@ + pieces);
        }
    }
}

} // verus!
