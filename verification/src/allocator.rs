//! A bucketed byte allocator: small requests are served from power-of-two
//! size classes with LIFO recycling, everything else is bump-allocated and
//! never reclaimed.

use vstd::prelude::*;
use vstd::arithmetic::power2::{lemma2_to64, pow2};
use vstd::bits::{lemma_usize_pow2_no_overflow, lemma_usize_shl_is_mul};
use std::collections::HashMap;

verus! {

/// Binary logarithm of the smallest size class (32 bytes).
pub const MIN_BUCKET: usize = 5;

/// Binary logarithm of the largest size class (4096 bytes).
pub const MAX_BUCKET: usize = 12;

/// Number of size classes.
pub const BUCKET_COUNT: usize = MAX_BUCKET - MIN_BUCKET + 1;

/// Bytes of bookkeeping that precede every small allocation.
pub const META_SIZE: usize = 1;

/// Why an allocator request was turned down.
#[derive(Clone, Copy, Debug, PartialEq, Eq, Structural)]
pub enum AllocError {
    /// A malformed request: a bad alignment, a non-contiguous extension, or
    /// an end address that does not fit the address space.
    InvalidParam,
    /// The heap has no room left for the request.
    NoMemory,
}

/// Whether `align` is a power of two.
pub open spec fn spec_is_pow2(align: usize) -> bool {
    align > 0 && align & ((align - 1) as usize) == 0
}

/// `x` rounded up to the alignment `align`, for a power of two `align`.
pub open spec fn spec_align_up(x: usize, align: usize) -> usize {
    ((x + align - 1) as usize) & !((align - 1) as usize)
}

/// The size class of a request of `size` bytes: the least class whose
/// blocks hold `size` bytes and the bookkeeping byte. Requests that round
/// to less than the smallest class or to more than the largest have none.
pub open spec fn spec_bucket_index(size: int) -> Option<usize> {
    let total = size + META_SIZE;
    if total <= 16 || total > 4096 {
        None
    } else if total <= 32 {
        Some(0)
    } else if total <= 64 {
        Some(1)
    } else if total <= 128 {
        Some(2)
    } else if total <= 256 {
        Some(3)
    } else if total <= 512 {
        Some(4)
    } else if total <= 1024 {
        Some(5)
    } else if total <= 2048 {
        Some(6)
    } else {
        Some(7)
    }
}

/// The block size of the class `index`, in bytes.
pub open spec fn spec_bucket_size(index: int) -> int {
    pow2((index + MIN_BUCKET) as nat) as int
}

/// What rounding up means for a power of two: the result is the one
/// aligned address in `[x, x + align)`.
pub proof fn lemma_align_up(x: usize, align: usize)
    requires
        spec_is_pow2(align),
        x + align - 1 <= usize::MAX,
    ensures
        x <= spec_align_up(x, align) < x + align,
        spec_align_up(x, align) & ((align - 1) as usize) == 0,
        x & ((align - 1) as usize) == 0 ==> spec_align_up(x, align) == x,
{
    let m: usize = (align - 1) as usize;
    let y: usize = (x + m) as usize;
    assert(align > 0 && align & m == 0 && m == align - 1 && y == x + m && x <= y ==> {
        &&& x <= (y & !m)
        &&& (y & !m) - x < align
        &&& (y & !m) & m == 0
        &&& (x & m == 0 ==> (y & !m) == x)
    }) by (bit_vector);
}


/// The allocator as a mathematical value.
pub struct HeapView {
    /// First byte of the heap.
    pub start: usize,
    /// One past the last byte of the heap.
    pub end: usize,
    /// The bump pointer: everything below it has been handed out once.
    pub current: usize,
    /// Per class, the stack of free blocks; the last one was freed last.
    pub free: Seq<Seq<usize>>,
    /// The class of every live small allocation, by the address handed out.
    pub live: Map<usize, usize>,
}

/// Whether the block of class `c1` at `b1` and the block of class `c2` at
/// `b2` share no byte.
pub open spec fn spec_disjoint(b1: usize, c1: usize, b2: usize, c2: usize) -> bool {
    b1 + spec_bucket_size(c1 as int) <= b2 || b2 + spec_bucket_size(c2 as int) <= b1
}

impl HeapView {
    /// The state right after `init(start, size)`.
    pub open spec fn fresh(start: usize, end: usize) -> HeapView {
        HeapView {
            start,
            end,
            current: start,
            free: Seq::new(BUCKET_COUNT as nat, |i: int| Seq::<usize>::empty()),
            live: Map::empty(),
        }
    }

    /// Whether the block of class `class` at `block` lies in the part of
    /// the heap that the bump pointer has passed.
    pub open spec fn block_in_heap(self, block: usize, class: usize) -> bool {
        self.start <= block && block + spec_bucket_size(class as int) <= self.current
    }

    /// Whether `j` indexes a free block of class `i`.
    pub open spec fn is_free_slot(self, i: int, j: int) -> bool {
        0 <= i < BUCKET_COUNT && 0 <= j < self.free[i].len()
    }

    /// The invariant of the allocator: the bump pointer lies in the heap,
    /// every recorded block lies below it, and no two recorded blocks, free
    /// or live, share a byte.
    pub open spec fn wf(self) -> bool {
        &&& self.start <= self.current <= self.end
        &&& self.free.len() == BUCKET_COUNT
        &&& forall|i: int, j: int|
            self.is_free_slot(i, j) ==> self.block_in_heap(#[trigger] self.free[i][j], i as usize)
        &&& forall|p: usize| #[trigger]
            self.live.contains_key(p) ==> {
                &&& self.live[p] < BUCKET_COUNT
                &&& p >= META_SIZE
                &&& self.block_in_heap((p - META_SIZE) as usize, self.live[p])
            }
        &&& forall|i: int, j: int, i2: int, j2: int|
            self.is_free_slot(i, j) && self.is_free_slot(i2, j2) && (i != i2 || j != j2)
                ==> spec_disjoint(
                #[trigger] self.free[i][j],
                i as usize,
                #[trigger] self.free[i2][j2],
                i2 as usize,
            )
        &&& forall|p: usize, q: usize|
            #[trigger] self.live.contains_key(p) && #[trigger] self.live.contains_key(q) && p != q
                ==> spec_disjoint(
                (p - META_SIZE) as usize,
                self.live[p],
                (q - META_SIZE) as usize,
                self.live[q],
            )
        &&& forall|i: int, j: int, p: usize|
            self.is_free_slot(i, j) && #[trigger] self.live.contains_key(p) ==> spec_disjoint(
                #[trigger] self.free[i][j],
                i as usize,
                (p - META_SIZE) as usize,
                self.live[p],
            )
    }

    /// Bump allocation of `bytes` bytes at the alignment `align`; a small
    /// allocation records its class and hands out the address behind the
    /// bookkeeping byte.
    pub open spec fn spec_bump(self, bytes: int, align: usize, class: Option<usize>) -> (
        HeapView,
        Result<usize, AllocError>,
    ) {
        if self.current + align - 1 > usize::MAX {
            (self, Err(AllocError::InvalidParam))
        } else {
            let start = spec_align_up(self.current, align);
            let end = start + bytes;
            if end > usize::MAX {
                (self, Err(AllocError::InvalidParam))
            } else if end > self.end {
                (self, Err(AllocError::NoMemory))
            } else {
                match class {
                    Some(index) => (
                        HeapView {
                            current: end as usize,
                            live: self.live.insert((start + META_SIZE) as usize, index),
                            ..self
                        },
                        Ok((start + META_SIZE) as usize),
                    ),
                    None => (HeapView { current: end as usize, ..self }, Ok(start)),
                }
            }
        }
    }

    /// What `allocate(size, align)` does to the allocator and returns.
    pub open spec fn spec_allocate(self, size: usize, align: usize) -> (
        HeapView,
        Result<usize, AllocError>,
    ) {
        let class_size = if size >= align { size } else { align };
        if !spec_is_pow2(align) {
            (self, Err(AllocError::InvalidParam))
        } else {
            match spec_bucket_index(class_size as int) {
                Some(index) => {
                    if self.free[index as int].len() > 0 {
                        let block = self.free[index as int].last();
                        (
                            HeapView {
                                free: self.free.update(
                                    index as int,
                                    self.free[index as int].drop_last(),
                                ),
                                live: self.live.insert((block + META_SIZE) as usize, index),
                                ..self
                            },
                            Ok((block + META_SIZE) as usize),
                        )
                    } else {
                        self.spec_bump(spec_bucket_size(index as int), align, Some(index))
                    }
                },
                None => self.spec_bump(size as int, align, None),
            }
        }
    }

    /// What `deallocate(ptr, ..)` does to the allocator: a live small
    /// allocation goes back on top of its class's stack; any other address
    /// changes nothing.
    pub open spec fn spec_deallocate(self, ptr: usize) -> HeapView {
        if self.live.contains_key(ptr) {
            let index = self.live[ptr] as int;
            HeapView {
                free: self.free.update(index, self.free[index].push((ptr - META_SIZE) as usize)),
                live: self.live.remove(ptr),
                ..self
            }
        } else {
            self
        }
    }
}

/// Every class's blocks are between 32 and 4096 bytes long.
pub proof fn lemma_bucket_size_bounds(index: usize)
    requires
        index < BUCKET_COUNT,
    ensures
        32 <= spec_bucket_size(index as int) <= 4096,
{
    lemma2_to64();
}

/// The byte allocator.
pub struct LabByteAllocator {
    heap_start: usize,
    heap_end: usize,
    current: usize,
    buckets: Vec<Vec<usize>>,
    live: HashMap<usize, usize>,
}

impl View for LabByteAllocator {
    type V = HeapView;

    closed spec fn view(&self) -> HeapView {
        HeapView {
            start: self.heap_start,
            end: self.heap_end,
            current: self.current,
            free: Seq::new(self.buckets@.len(), |i: int| self.buckets@[i]@),
            live: self.live@,
        }
    }
}

impl LabByteAllocator {
    /// The allocator's invariant; see [`HeapView::wf`].
    pub open spec fn wf(&self) -> bool {
        self@.wf()
    }

    /// An allocator without memory.
    pub fn new() -> (r: Self)
        ensures
            r.wf(),
            r@ == HeapView::fresh(0, 0),
    {
        let mut buckets: Vec<Vec<usize>> = Vec::new();
        let mut i: usize = 0;
        while i < BUCKET_COUNT
            invariant
                i <= BUCKET_COUNT,
                buckets@.len() == i,
                forall|k: int| 0 <= k < i ==> (#[trigger] buckets@[k])@ == Seq::<usize>::empty(),
            decreases BUCKET_COUNT - i,
        {
            buckets.push(Vec::new());
            i += 1;
        }
        let r = LabByteAllocator { heap_start: 0, heap_end: 0, current: 0, buckets, live: HashMap::new() };
        assert(r@.free =~= HeapView::fresh(0, 0).free);
        assert(r@.live =~= HeapView::fresh(0, 0).live);
        r
    }

    /// `x` rounded up to a multiple of the power of two `align`.
    pub fn align_up(x: usize, align: usize) -> (r: usize)
        requires
            align >= 1,
            x + align - 1 <= usize::MAX,
        ensures
            r == spec_align_up(x, align),
            spec_is_pow2(align) ==> x <= r < x + align && r & ((align - 1) as usize) == 0,
    {
        proof {
            if spec_is_pow2(align) {
                lemma_align_up(x, align);
            }
        }
        (x + (align - 1)) & !(align - 1)
    }

    /// The size class of a request of `size` bytes, if it has one.
    pub fn bucket_index(size: usize) -> (r: Option<usize>)
        ensures
            r == spec_bucket_index(size as int),
    {
        if size >= (1usize << MAX_BUCKET) {
            assert((1usize << 12) == 4096) by (bit_vector);
            return None;
        }
        assert((1usize << 12) == 4096) by (bit_vector);
        let total = size + META_SIZE;
        if total <= 16 {
            return None;
        }
        let mut index: usize = 0;
        let mut cap: usize = 32;
        proof {
            lemma2_to64();
        }
        while cap < total
            invariant
                total <= 4096,
                index <= 7,
                cap == spec_bucket_size(index as int),
                index > 0 ==> total > cap / 2,
            decreases 4096 - cap,
        {
            proof {
                lemma2_to64();
            }
            cap = cap * 2;
            index = index + 1;
        }
        proof {
            lemma2_to64();
        }
        Some(index)
    }

    /// The block size of the class `index`.
    pub fn bucket_size(index: usize) -> (r: usize)
        requires
            index + MIN_BUCKET < usize::BITS,
        ensures
            r == spec_bucket_size(index as int),
    {
        proof {
            lemma_usize_pow2_no_overflow((index + MIN_BUCKET) as nat);
            lemma_usize_shl_is_mul(1usize, (index + MIN_BUCKET) as usize);
        }
        1 << (index + MIN_BUCKET)
    }

    /// Takes `[start, start + size)` as the heap and forgets every block
    /// recorded before.
    pub fn init(&mut self, start: usize, size: usize)
        requires
            start + size <= usize::MAX,
        ensures
            final(self).wf(),
            final(self)@ == HeapView::fresh(start, (start + size) as usize),
    {
        let fresh = Self::new();
        self.buckets = fresh.buckets;
        self.live = fresh.live;
        self.heap_start = start;
        self.current = start;
        self.heap_end = start + size;
        assert(self@.free =~= HeapView::fresh(start, (start + size) as usize).free);
    }

    /// Extends the heap by `size` bytes. The extension has to begin where
    /// the heap ends, and the new end has to be an address.
    pub fn add_memory(&mut self, start: usize, size: usize) -> (r: Result<(), AllocError>)
        requires
            old(self).wf(),
        ensures
            final(self).wf(),
            r is Ok <==> start == old(self)@.end && start + size <= usize::MAX,
            r is Ok ==> final(self)@ == (HeapView { end: (start + size) as usize, ..old(self)@ }),
            r is Err ==> r == Err::<(), AllocError>(AllocError::InvalidParam) && final(self)@
                == old(self)@,
    {
        if start == self.heap_end {
            match self.heap_end.checked_add(size) {
                Some(end) => {
                    self.heap_end = end;
                    Ok(())
                },
                None => Err(AllocError::InvalidParam),
            }
        } else {
            Err(AllocError::InvalidParam)
        }
    }

    /// Bump-allocates `bytes` bytes at the alignment `align`.
    fn bump(&mut self, bytes: usize, align: usize, class: Option<usize>) -> (r: Result<
        usize,
        AllocError,
    >)
        requires
            old(self).wf(),
            spec_is_pow2(align),
            match class {
                Some(index) => index < BUCKET_COUNT && bytes == spec_bucket_size(index as int),
                None => true,
            },
        ensures
            final(self).wf(),
            (final(self)@, r) == old(self)@.spec_bump(bytes as int, align, class),
    {
        broadcast use vstd::std_specs::hash::group_hash_axioms;

        proof {
            lemma_bump_wf(self@, bytes as int, align, class);
        }
        if self.current > usize::MAX - (align - 1) {
            return Err(AllocError::InvalidParam);
        }
        let alloc_start = Self::align_up(self.current, align);
        let alloc_end = match alloc_start.checked_add(bytes) {
            Some(end) => end,
            None => {
                return Err(AllocError::InvalidParam);
            },
        };
        if alloc_end > self.heap_end {
            return Err(AllocError::NoMemory);
        }
        self.current = alloc_end;
        match class {
            Some(index) => {
                proof {
                    lemma_bucket_size_bounds(index);
                }
                let user = alloc_start + META_SIZE;
                self.live.insert(user, index);
                assert(self@.free =~= old(self)@.free);
                Ok(user)
            },
            None => {
                assert(self@.free =~= old(self)@.free);
                Ok(alloc_start)
            },
        }
    }

    /// Allocates `size` bytes at the alignment `align`.
    ///
    /// A request with a size class takes the block freed last in that
    /// class, or a fresh block of the class's size from the bump pointer;
    /// the address handed out lies one byte into the block. A request
    /// without a class is bump-allocated as it stands.
    pub fn allocate(&mut self, size: usize, align: usize) -> (r: Result<usize, AllocError>)
        requires
            old(self).wf(),
        ensures
            final(self).wf(),
            (final(self)@, r) == old(self)@.spec_allocate(size, align),
    {
        broadcast use vstd::std_specs::hash::group_hash_axioms;

        proof {
            lemma_allocate_wf(self@, size, align);
        }
        if align == 0 || align & (align - 1) != 0 {
            return Err(AllocError::InvalidParam);
        }
        let class_size = if size >= align {
            size
        } else {
            align
        };
        match Self::bucket_index(class_size) {
            Some(index) => {
                let alloc_size = Self::bucket_size(index);
                let ghost before = self@;
                match self.buckets[index].pop() {
                    Some(block) => {
                        assert(before.is_free_slot(index as int, before.free[index as int].len() - 1));
                        assert(block == before.free[index as int].last());
                        proof {
                            lemma_bucket_size_bounds(index);
                        }
                        let user = block + META_SIZE;
                        self.live.insert(user, index);
                        assert(self@.free =~= before.free.update(
                            index as int,
                            before.free[index as int].drop_last(),
                        ));
                        Ok(user)
                    },
                    None => {
                        assert(self@.free =~= before.free);
                        assert(self@ == before);
                        self.bump(alloc_size, align, Some(index))
                    },
                }
            },
            None => self.bump(size, align, None),
        }
    }

    /// Releases the allocation at `ptr`. A live small allocation goes back
    /// to its class's free blocks; any other address is left alone, so
    /// bump-allocated memory is never reclaimed.
    pub fn deallocate(&mut self, ptr: usize, _size: usize, _align: usize)
        requires
            old(self).wf(),
        ensures
            final(self).wf(),
            final(self)@ == old(self)@.spec_deallocate(ptr),
    {
        broadcast use vstd::std_specs::hash::group_hash_axioms;

        proof {
            lemma_deallocate_wf(self@, ptr);
        }
        let ghost before = self@;
        match self.live.remove(&ptr) {
            Some(index) => {
                self.buckets[index].push(ptr - META_SIZE);
                assert(self@.free =~= before.free.update(
                    index as int,
                    before.free[index as int].push((ptr - META_SIZE) as usize),
                ));
            },
            None => {
                assert(self@.free =~= before.free);
                assert(self@.live =~= before.live);
            },
        }
    }

    /// The bump pointer.
    pub fn current(&self) -> (r: usize)
        ensures
            r == self@.current,
    {
        self.current
    }

    /// Bytes in the heap.
    pub fn total_bytes(&self) -> (r: usize)
        requires
            self.wf(),
        ensures
            r == self@.end - self@.start,
    {
        self.heap_end - self.heap_start
    }

    /// Bytes that the bump pointer has passed. Blocks that went back to a
    /// free list still count as used.
    pub fn used_bytes(&self) -> (r: usize)
        requires
            self.wf(),
        ensures
            r == self@.current - self@.start,
    {
        self.current - self.heap_start
    }

    /// Bytes that the bump pointer has not reached yet.
    pub fn available_bytes(&self) -> (r: usize)
        requires
            self.wf(),
        ensures
            r == self@.end - self@.current,
    {
        self.heap_end - self.current
    }
}

/// Bump allocation keeps the allocator's invariant.
pub proof fn lemma_bump_wf(h: HeapView, bytes: int, align: usize, class: Option<usize>)
    requires
        h.wf(),
        spec_is_pow2(align),
        bytes >= 0,
        match class {
            Some(index) => index < BUCKET_COUNT && bytes == spec_bucket_size(index as int),
            None => true,
        },
    ensures
        h.spec_bump(bytes, align, class).0.wf(),
{
    let h2 = h.spec_bump(bytes, align, class).0;
    if h2 != h {
        lemma_align_up(h.current, align);
        let start = spec_align_up(h.current, align);
        assert forall|i: int, j: int| h2.is_free_slot(i, j) implies h2.block_in_heap(
            #[trigger] h2.free[i][j],
            i as usize,
        ) by {
            assert(h.is_free_slot(i, j));
        }
        match class {
            Some(index) => {
                lemma_bucket_size_bounds(index);
                let user = (start + META_SIZE) as usize;
                assert(!h.live.contains_key(user)) by {
                    if h.live.contains_key(user) {
                        lemma_bucket_size_bounds(h.live[user]);
                    }
                }
                assert forall|p: usize| #[trigger] h2.live.contains_key(p) implies {
                    &&& h2.live[p] < BUCKET_COUNT
                    &&& p >= META_SIZE
                    &&& h2.block_in_heap((p - META_SIZE) as usize, h2.live[p])
                } by {
                    if p != user {
                        assert(h.live.contains_key(p));
                    }
                }
                assert forall|p: usize, q: usize|
                    #[trigger] h2.live.contains_key(p) && #[trigger] h2.live.contains_key(q) && p
                        != q implies spec_disjoint(
                    (p - META_SIZE) as usize,
                    h2.live[p],
                    (q - META_SIZE) as usize,
                    h2.live[q],
                ) by {
                    if p != user {
                        assert(h.live.contains_key(p));
                    }
                    if q != user {
                        assert(h.live.contains_key(q));
                    }
                }
                assert forall|i: int, j: int, p: usize|
                    h2.is_free_slot(i, j) && #[trigger] h2.live.contains_key(p) implies spec_disjoint(
                    #[trigger] h2.free[i][j],
                    i as usize,
                    (p - META_SIZE) as usize,
                    h2.live[p],
                ) by {
                    assert(h.is_free_slot(i, j));
                    if p != user {
                        assert(h.live.contains_key(p));
                    }
                }
            },
            None => {},
        }
    }
}

/// Allocation keeps the allocator's invariant.
pub proof fn lemma_allocate_wf(h: HeapView, size: usize, align: usize)
    requires
        h.wf(),
    ensures
        h.spec_allocate(size, align).0.wf(),
{
    let h2 = h.spec_allocate(size, align).0;
    let class_size = if size >= align { size } else { align };
    if spec_is_pow2(align) {
        match spec_bucket_index(class_size as int) {
            Some(index) => {
                lemma_bucket_size_bounds(index);
                if h.free[index as int].len() > 0 {
                    let last = h.free[index as int].len() - 1;
                    let block = h.free[index as int].last();
                    let user = (block + META_SIZE) as usize;
                    assert(h.is_free_slot(index as int, last));
                    assert(h.block_in_heap(h.free[index as int][last], index));
                    assert(!h.live.contains_key(user)) by {
                        if h.live.contains_key(user) {
                            assert(spec_disjoint(
                                h.free[index as int][last],
                                index,
                                (user - META_SIZE) as usize,
                                h.live[user],
                            ));
                            lemma_bucket_size_bounds(h.live[user]);
                        }
                    }
                    assert forall|i: int, j: int| h2.is_free_slot(i, j) implies h.is_free_slot(i, j)
                        && h2.free[i][j] == h.free[i][j] && (i != index || j != last) by {}
                    assert forall|i: int, j: int| h2.is_free_slot(i, j) implies h2.block_in_heap(
                        #[trigger] h2.free[i][j],
                        i as usize,
                    ) by {
                        assert(h.block_in_heap(h.free[i][j], i as usize));
                    }
                    assert forall|p: usize| #[trigger] h2.live.contains_key(p) implies {
                        &&& h2.live[p] < BUCKET_COUNT
                        &&& p >= META_SIZE
                        &&& h2.block_in_heap((p - META_SIZE) as usize, h2.live[p])
                    } by {
                        if p != user {
                            assert(h.live.contains_key(p));
                        }
                    }
                    assert forall|i: int, j: int, i2: int, j2: int|
                        h2.is_free_slot(i, j) && h2.is_free_slot(i2, j2) && (i != i2 || j
                            != j2) implies spec_disjoint(
                        #[trigger] h2.free[i][j],
                        i as usize,
                        #[trigger] h2.free[i2][j2],
                        i2 as usize,
                    ) by {
                        assert(spec_disjoint(h.free[i][j], i as usize, h.free[i2][j2], i2 as usize));
                    }
                    assert forall|p: usize, q: usize|
                        #[trigger] h2.live.contains_key(p) && #[trigger] h2.live.contains_key(q)
                            && p != q implies spec_disjoint(
                        (p - META_SIZE) as usize,
                        h2.live[p],
                        (q - META_SIZE) as usize,
                        h2.live[q],
                    ) by {
                        if p == user {
                            assert(h.live.contains_key(q));
                            assert(spec_disjoint(
                                h.free[index as int][last],
                                index,
                                (q - META_SIZE) as usize,
                                h.live[q],
                            ));
                        } else if q == user {
                            assert(h.live.contains_key(p));
                            assert(spec_disjoint(
                                h.free[index as int][last],
                                index,
                                (p - META_SIZE) as usize,
                                h.live[p],
                            ));
                        } else {
                            assert(h.live.contains_key(p) && h.live.contains_key(q));
                        }
                    }
                    assert forall|i: int, j: int, p: usize|
                        h2.is_free_slot(i, j) && #[trigger] h2.live.contains_key(
                            p,
                        ) implies spec_disjoint(
                        #[trigger] h2.free[i][j],
                        i as usize,
                        (p - META_SIZE) as usize,
                        h2.live[p],
                    ) by {
                        if p == user {
                            assert(spec_disjoint(
                                h.free[i][j],
                                i as usize,
                                h.free[index as int][last],
                                index,
                            ));
                        } else {
                            assert(h.live.contains_key(p));
                            assert(spec_disjoint(
                                h.free[i][j],
                                i as usize,
                                (p - META_SIZE) as usize,
                                h.live[p],
                            ));
                        }
                    }
                } else {
                    lemma_bump_wf(h, spec_bucket_size(index as int), align, Some(index));
                }
            },
            None => {
                lemma_bump_wf(h, size as int, align, None);
            },
        }
    }
}

/// Releasing an allocation keeps the allocator's invariant.
pub proof fn lemma_deallocate_wf(h: HeapView, ptr: usize)
    requires
        h.wf(),
    ensures
        h.spec_deallocate(ptr).wf(),
{
    let h2 = h.spec_deallocate(ptr);
    if h.live.contains_key(ptr) {
        let index = h.live[ptr];
        let block = (ptr - META_SIZE) as usize;
        let top = h.free[index as int].len() as int;
        assert forall|i: int, j: int| h2.is_free_slot(i, j) implies (if i == index && j == top {
            h2.free[i][j] == block
        } else {
            h.is_free_slot(i, j) && h2.free[i][j] == h.free[i][j]
        }) by {}
        assert forall|i: int, j: int| h2.is_free_slot(i, j) implies h2.block_in_heap(
            #[trigger] h2.free[i][j],
            i as usize,
        ) by {
            if !(i == index && j == top) {
                assert(h.block_in_heap(h.free[i][j], i as usize));
            }
        }
        assert forall|p: usize| #[trigger] h2.live.contains_key(p) implies {
            &&& h2.live[p] < BUCKET_COUNT
            &&& p >= META_SIZE
            &&& h2.block_in_heap((p - META_SIZE) as usize, h2.live[p])
        } by {
            assert(h.live.contains_key(p));
        }
        assert forall|i: int, j: int, i2: int, j2: int|
            h2.is_free_slot(i, j) && h2.is_free_slot(i2, j2) && (i != i2 || j != j2) implies spec_disjoint(
            #[trigger] h2.free[i][j],
            i as usize,
            #[trigger] h2.free[i2][j2],
            i2 as usize,
        ) by {
            if i == index && j == top {
                assert(spec_disjoint(h.free[i2][j2], i2 as usize, block, index));
            } else if i2 == index && j2 == top {
                assert(spec_disjoint(h.free[i][j], i as usize, block, index));
            } else {
                assert(spec_disjoint(h.free[i][j], i as usize, h.free[i2][j2], i2 as usize));
            }
        }
        assert forall|p: usize, q: usize|
            #[trigger] h2.live.contains_key(p) && #[trigger] h2.live.contains_key(q) && p
                != q implies spec_disjoint(
            (p - META_SIZE) as usize,
            h2.live[p],
            (q - META_SIZE) as usize,
            h2.live[q],
        ) by {
            assert(h.live.contains_key(p) && h.live.contains_key(q));
        }
        assert forall|i: int, j: int, p: usize|
            h2.is_free_slot(i, j) && #[trigger] h2.live.contains_key(p) implies spec_disjoint(
            #[trigger] h2.free[i][j],
            i as usize,
            (p - META_SIZE) as usize,
            h2.live[p],
        ) by {
            assert(h.live.contains_key(p));
            if i == index && j == top {
                assert(h.live.contains_key(ptr));
                assert(spec_disjoint(block, index, (p - META_SIZE) as usize, h.live[p]));
            } else {
                assert(spec_disjoint(h.free[i][j], i as usize, (p - META_SIZE) as usize, h.live[p]));
            }
        }
    }
}

/// The size class that `allocate(size, align)` serves the request from.
pub open spec fn spec_class_of(size: usize, align: usize) -> Option<usize> {
    spec_bucket_index((if size >= align { size } else { align }) as int)
}

/// The number of bytes that `allocate(size, align)` takes from the heap
/// when it cannot recycle a block.
pub open spec fn spec_bytes_needed(size: usize, align: usize) -> int {
    match spec_class_of(size, align) {
        Some(index) => spec_bucket_size(index as int),
        None => size as int,
    }
}

/// Which sizes fall into which class: 16 to 31 bytes share the 32-byte
/// class, 32 bytes already need the 64-byte class, 4089 bytes need the
/// 4096-byte class, which also takes every size up to 4095; smaller and
/// larger requests have no class.
pub proof fn lemma_bucket_classification(size: usize)
    ensures
        size <= 15 ==> spec_bucket_index(size as int) is None,
        16 <= size <= 31 ==> spec_bucket_index(size as int) == Some(0usize),
        size == 32 ==> spec_bucket_index(size as int) == Some(1usize),
        2048 <= size <= 4095 ==> spec_bucket_index(size as int) == Some(7usize),
        size >= 4096 ==> spec_bucket_index(size as int) is None,
        spec_bucket_index(size as int) matches Some(index) ==> {
            &&& index < BUCKET_COUNT
            &&& size + META_SIZE <= spec_bucket_size(index as int)
            &&& index > 0 ==> size + META_SIZE > spec_bucket_size(index - 1)
        },
{
    lemma2_to64();
}

/// Free-list reuse: when a small allocation is released right after it was
/// made, the next allocation of the same class gets the same address.
pub proof fn lemma_release_then_reuse(
    h: HeapView,
    size: usize,
    align: usize,
    size2: usize,
    align2: usize,
)
    requires
        h.wf(),
        spec_is_pow2(align2),
        spec_class_of(size, align) is Some,
        spec_class_of(size2, align2) == spec_class_of(size, align),
        h.spec_allocate(size, align).1 is Ok,
    ensures
        ({
            let (h1, r1) = h.spec_allocate(size, align);
            let h2 = h1.spec_deallocate(r1->Ok_0);
            h2.spec_allocate(size2, align2).1 == r1
        }),
{
    let (h1, r1) = h.spec_allocate(size, align);
    let ptr = r1->Ok_0;
    let index = spec_class_of(size, align)->Some_0;
    lemma_allocate_wf(h, size, align);
    lemma_bucket_classification(if size >= align { size } else { align });
    assert(h1.live.contains_key(ptr) && h1.live[ptr] == index);
    let h2 = h1.spec_deallocate(ptr);
    assert(h2.free[index as int].last() == (ptr - META_SIZE) as usize);
}

/// Exhaustion: a request that cannot recycle a block and needs more bytes
/// than lie between the aligned bump pointer and the end of the heap fails
/// with `NoMemory` and leaves the allocator as it was.
pub proof fn lemma_heap_exhausted(h: HeapView, size: usize, align: usize)
    requires
        h.wf(),
        spec_is_pow2(align),
        spec_class_of(size, align) matches Some(index) ==> h.free[index as int].len() == 0,
        h.current + align - 1 <= usize::MAX,
        spec_align_up(h.current, align) + spec_bytes_needed(size, align) <= usize::MAX,
        spec_align_up(h.current, align) + spec_bytes_needed(size, align) > h.end,
    ensures
        h.spec_allocate(size, align) == (h, Err::<usize, AllocError>(AllocError::NoMemory)),
{
}

/// Where a block comes from: a successful allocation that does not recycle
/// a block takes its bytes from between the old bump pointer and the end
/// of the heap, at the alignment asked for, and moves the bump pointer to
/// the end of those bytes.
pub proof fn lemma_fresh_block_in_heap(h: HeapView, size: usize, align: usize)
    requires
        h.wf(),
        spec_class_of(size, align) matches Some(index) ==> h.free[index as int].len() == 0,
        h.spec_allocate(size, align).1 is Ok,
    ensures
        ({
            let (h1, r) = h.spec_allocate(size, align);
            let meta = if spec_class_of(size, align) is Some { META_SIZE as int } else { 0 };
            let block = r->Ok_0 - meta;
            &&& h.current <= block < h.current + align
            &&& (block as usize) & ((align - 1) as usize) == 0
            &&& h1.current == block + spec_bytes_needed(size, align)
            &&& h1.current <= h.end
        }),
{
    assert(spec_is_pow2(align));
    lemma_align_up(h.current, align);
    let (h1, r) = h.spec_allocate(size, align);
    let start = spec_align_up(h.current, align);
    match spec_class_of(size, align) {
        Some(index) => {
            lemma_bucket_size_bounds(index);
            assert((h1, r) == h.spec_bump(spec_bucket_size(index as int), align, Some(index)));
            assert(r->Ok_0 - META_SIZE == start);
        },
        None => {
            assert((h1, r) == h.spec_bump(size as int, align, None));
            assert(r->Ok_0 == start);
        },
    }
}

} // verus!
