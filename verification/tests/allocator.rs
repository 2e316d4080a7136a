use vm_core::allocator::{AllocError, LabByteAllocator, BUCKET_COUNT, META_SIZE};

fn heap(start: usize, size: usize) -> LabByteAllocator {
    let mut a = LabByteAllocator::new();
    a.init(start, size);
    a
}

#[test]
fn new_allocator_is_empty() {
    let mut a = LabByteAllocator::new();
    assert_eq!(a.total_bytes(), 0);
    assert_eq!(a.used_bytes(), 0);
    assert_eq!(a.available_bytes(), 0);
    assert_eq!(a.allocate(1, 1), Err(AllocError::NoMemory));
}

#[test]
fn align_up_rounds_to_the_next_multiple() {
    assert_eq!(LabByteAllocator::align_up(0, 8), 0);
    assert_eq!(LabByteAllocator::align_up(1, 8), 8);
    assert_eq!(LabByteAllocator::align_up(8, 8), 8);
    assert_eq!(LabByteAllocator::align_up(9, 8), 16);
    assert_eq!(LabByteAllocator::align_up(0x1001, 0x1000), 0x2000);
    assert_eq!(LabByteAllocator::align_up(77, 1), 77);
}

#[test]
fn bucket_index_follows_the_size_classes() {
    // Sizes that round to less than 32 bytes have no class.
    assert_eq!(LabByteAllocator::bucket_index(0), None);
    assert_eq!(LabByteAllocator::bucket_index(1), None);
    assert_eq!(LabByteAllocator::bucket_index(15), None);
    for size in 16..32 {
        assert_eq!(LabByteAllocator::bucket_index(size), Some(0));
    }
    assert_eq!(LabByteAllocator::bucket_index(32), Some(1));
    assert_eq!(LabByteAllocator::bucket_index(63), Some(1));
    assert_eq!(LabByteAllocator::bucket_index(64), Some(2));
    assert_eq!(LabByteAllocator::bucket_index(127), Some(2));
    assert_eq!(LabByteAllocator::bucket_index(128), Some(3));
    assert_eq!(LabByteAllocator::bucket_index(255), Some(3));
    assert_eq!(LabByteAllocator::bucket_index(511), Some(4));
    assert_eq!(LabByteAllocator::bucket_index(1023), Some(5));
    assert_eq!(LabByteAllocator::bucket_index(2047), Some(6));
    assert_eq!(LabByteAllocator::bucket_index(2048), Some(7));
    assert_eq!(LabByteAllocator::bucket_index(4089), Some(7));
    assert_eq!(LabByteAllocator::bucket_index(4095), Some(7));
    assert_eq!(LabByteAllocator::bucket_index(4096), None);
    assert_eq!(LabByteAllocator::bucket_index(1 << 20), None);
    assert_eq!(LabByteAllocator::bucket_index(usize::MAX), None);
}

#[test]
fn bucket_size_is_a_power_of_two() {
    let expected = [32usize, 64, 128, 256, 512, 1024, 2048, 4096];
    assert_eq!(BUCKET_COUNT, 8);
    for (index, size) in expected.iter().enumerate() {
        assert_eq!(LabByteAllocator::bucket_size(index), *size);
    }
}

#[test]
fn init_sets_the_accounting() {
    let a = heap(0x1000, 0x4000);
    assert_eq!(a.total_bytes(), 0x4000);
    assert_eq!(a.used_bytes(), 0);
    assert_eq!(a.available_bytes(), 0x4000);
    assert_eq!(a.current(), 0x1000);
}

#[test]
fn small_allocation_takes_a_whole_block() {
    let mut a = heap(0x1000, 0x4000);
    // 20 bytes and the bookkeeping byte fit the 32-byte class.
    let p = a.allocate(20, 8).unwrap();
    assert_eq!(p, 0x1000 + META_SIZE);
    assert_eq!(a.used_bytes(), 32);
    assert_eq!(a.available_bytes(), 0x4000 - 32);
    // 32 bytes need the 64-byte class.
    let q = a.allocate(32, 8).unwrap();
    assert_eq!(q, 0x1000 + 32 + META_SIZE);
    assert_eq!(a.used_bytes(), 32 + 64);
}

#[test]
fn class_is_chosen_by_the_larger_of_size_and_align() {
    let mut a = heap(0x1000, 0x4000);
    // One byte at the alignment 64 is served like 64 bytes: class 128.
    let p = a.allocate(1, 64).unwrap();
    assert_eq!(p, 0x1000 + META_SIZE);
    assert_eq!(a.used_bytes(), 128);
}

#[test]
fn bump_allocation_honours_the_alignment() {
    let mut a = heap(0x1008, 0x4000);
    let p = a.allocate(5000, 0x1000).unwrap();
    assert_eq!(p, 0x2000);
    assert_eq!(a.current(), 0x2000 + 5000);
    assert_eq!(a.used_bytes(), 0x2000 + 5000 - 0x1008);
}

#[test]
fn allocate_32_free_allocate_32_returns_the_same_address() {
    let mut a = heap(0x10000, 0x10000);
    let first = a.allocate(32, 8).unwrap();
    a.deallocate(first, 32, 8);
    let second = a.allocate(32, 8).unwrap();
    assert_eq!(first, second);
}

#[test]
fn freed_block_is_reused_by_the_same_class_only() {
    let mut a = heap(0x10000, 0x10000);
    let p = a.allocate(20, 1).unwrap();
    let used = a.used_bytes();
    a.deallocate(p, 20, 1);
    // Another class does not see the block.
    let q = a.allocate(100, 1).unwrap();
    assert_ne!(p, q);
    // A different size of the same class does.
    let r = a.allocate(31, 1).unwrap();
    assert_eq!(r, p);
    assert_eq!(a.used_bytes(), used + 128);
}

#[test]
fn free_list_is_last_in_first_out() {
    let mut a = heap(0x10000, 0x10000);
    let first = a.allocate(40, 8).unwrap();
    let second = a.allocate(40, 8).unwrap();
    let third = a.allocate(40, 8).unwrap();
    a.deallocate(first, 40, 8);
    a.deallocate(third, 40, 8);
    a.deallocate(second, 40, 8);
    assert_eq!(a.allocate(40, 8), Ok(second));
    assert_eq!(a.allocate(40, 8), Ok(third));
    assert_eq!(a.allocate(40, 8), Ok(first));
}

#[test]
fn used_bytes_ignores_recycled_blocks() {
    let mut a = heap(0x10000, 0x10000);
    let p = a.allocate(100, 8).unwrap();
    assert_eq!(a.used_bytes(), 128);
    a.deallocate(p, 100, 8);
    assert_eq!(a.used_bytes(), 128);
    assert_eq!(a.available_bytes(), 0x10000 - 128);
}

#[test]
fn large_allocation_is_never_recycled() {
    let mut a = heap(0x10000, 0x10000);
    let p = a.allocate(5000, 8).unwrap();
    assert_eq!(p, 0x10000);
    a.deallocate(p, 5000, 8);
    let q = a.allocate(5000, 8).unwrap();
    assert_eq!(q, 0x10000 + 5000 + 0);
    assert_ne!(p, q);
}

#[test]
fn size_4096_takes_the_large_path() {
    let mut a = heap(0x10000, 0x10000);
    let p = a.allocate(4096, 1).unwrap();
    // No bookkeeping byte in front of a large allocation.
    assert_eq!(p, 0x10000);
    assert_eq!(a.used_bytes(), 4096);
    // 4095 bytes still belong to the 4096-byte class.
    let q = a.allocate(4095, 1).unwrap();
    assert_eq!(q, 0x10000 + 4096 + META_SIZE);
    assert_eq!(a.used_bytes(), 8192);
}

#[test]
fn tiny_allocation_takes_the_large_path() {
    let mut a = heap(0x10000, 0x10000);
    let p = a.allocate(3, 1).unwrap();
    assert_eq!(p, 0x10000);
    assert_eq!(a.used_bytes(), 3);
    a.deallocate(p, 3, 1);
    assert_eq!(a.allocate(3, 1), Ok(0x10003));
}

#[test]
fn second_page_sized_allocation_in_a_4096_byte_heap_fails() {
    let mut a = heap(0x8000, 4096);
    assert_eq!(a.allocate(4096, 8), Ok(0x8000));
    assert_eq!(a.allocate(4096, 8), Err(AllocError::NoMemory));
    assert_eq!(a.used_bytes(), 4096);
    assert_eq!(a.available_bytes(), 0);
}

#[test]
fn small_allocation_fails_when_the_block_does_not_fit() {
    let mut a = heap(0x8000, 40);
    assert_eq!(a.allocate(20, 1), Ok(0x8001));
    assert_eq!(a.allocate(20, 1), Err(AllocError::NoMemory));
    assert_eq!(a.used_bytes(), 32);
}

#[test]
fn failed_allocation_changes_nothing() {
    let mut a = heap(0x8000, 100);
    assert_eq!(a.allocate(200, 8), Err(AllocError::NoMemory));
    assert_eq!(a.used_bytes(), 0);
    // 60 bytes need a block of 64, which still fits.
    assert_eq!(a.allocate(60, 1), Ok(0x8001));
    assert_eq!(a.used_bytes(), 64);
}

#[test]
fn alignment_that_is_no_power_of_two_is_rejected() {
    let mut a = heap(0x8000, 0x1000);
    assert_eq!(a.allocate(16, 0), Err(AllocError::InvalidParam));
    assert_eq!(a.allocate(16, 3), Err(AllocError::InvalidParam));
    assert_eq!(a.allocate(16, 24), Err(AllocError::InvalidParam));
    assert_eq!(a.used_bytes(), 0);
}

#[test]
fn overflowing_end_address_is_rejected() {
    let mut a = heap(usize::MAX - 0x2000, 0x2000);
    assert_eq!(a.allocate(usize::MAX, 1), Err(AllocError::InvalidParam));
    assert_eq!(a.allocate(0x3000, 1), Err(AllocError::InvalidParam));
    assert_eq!(a.allocate(0x1000, 1 << (usize::BITS - 1)), Err(AllocError::InvalidParam));
    assert_eq!(a.used_bytes(), 0);
}

#[test]
fn add_memory_extends_a_contiguous_heap() {
    let mut a = heap(0x8000, 0x1000);
    assert_eq!(a.add_memory(0x9000, 0x2000), Ok(()));
    assert_eq!(a.total_bytes(), 0x3000);
    assert_eq!(a.available_bytes(), 0x3000);
    assert_eq!(a.allocate(0x3000, 8), Ok(0x8000));
}

#[test]
fn add_memory_rejects_a_gap() {
    let mut a = heap(0x8000, 0x1000);
    assert_eq!(a.add_memory(0xa000, 0x1000), Err(AllocError::InvalidParam));
    assert_eq!(a.add_memory(0x8000, 0x1000), Err(AllocError::InvalidParam));
    assert_eq!(a.add_memory(0, 0x1000), Err(AllocError::InvalidParam));
    assert_eq!(a.total_bytes(), 0x1000);
}

#[test]
fn add_memory_rejects_an_end_past_the_address_space() {
    let mut a = heap(usize::MAX - 0xfff, 0x800);
    assert_eq!(a.add_memory(usize::MAX - 0x7ff, 0x1000), Err(AllocError::InvalidParam));
    assert_eq!(a.total_bytes(), 0x800);
    assert_eq!(a.add_memory(usize::MAX - 0x7ff, 0x7ff), Ok(()));
    assert_eq!(a.total_bytes(), 0xfff);
}

#[test]
fn deallocating_an_unknown_address_changes_nothing() {
    let mut a = heap(0x8000, 0x1000);
    let p = a.allocate(20, 1).unwrap();
    a.deallocate(p + 1, 20, 1);
    a.deallocate(0, 20, 1);
    // Nothing was recycled: the next block is a fresh one.
    assert_eq!(a.allocate(20, 1), Ok(p + 32));
    // Releasing twice recycles once.
    a.deallocate(p, 20, 1);
    a.deallocate(p, 20, 1);
    assert_eq!(a.allocate(20, 1), Ok(p));
    assert_eq!(a.allocate(20, 1), Ok(p + 64));
}

#[test]
fn init_forgets_earlier_blocks() {
    let mut a = heap(0x8000, 0x1000);
    let p = a.allocate(20, 1).unwrap();
    a.deallocate(p, 20, 1);
    a.init(0x20000, 0x1000);
    assert_eq!(a.used_bytes(), 0);
    assert_eq!(a.allocate(20, 1), Ok(0x20001));
}

#[test]
fn live_blocks_never_overlap() {
    let mut a = heap(0x10000, 0x8000);
    let sizes = [20usize, 33, 100, 20, 500, 33, 20, 1000, 100];
    let classes = [32usize, 64, 128, 32, 512, 64, 32, 1024, 128];
    let mut live: Vec<(usize, usize)> = Vec::new();
    for round in 0..4 {
        for (k, size) in sizes.iter().enumerate() {
            let p = a.allocate(*size, 1).unwrap();
            live.push((p - META_SIZE, classes[k]));
        }
        for (i, (b1, s1)) in live.iter().enumerate() {
            assert!(*b1 >= 0x10000 && b1 + s1 <= 0x10000 + a.used_bytes());
            for (b2, s2) in live.iter().skip(i + 1) {
                assert!(b1 + s1 <= *b2 || b2 + s2 <= *b1);
            }
        }
        // Release every other block before the next round.
        let mut kept = Vec::new();
        for (i, (b, s)) in live.iter().enumerate() {
            if (i + round) % 2 == 0 {
                a.deallocate(b + META_SIZE, *s - 1, 1);
            } else {
                kept.push((*b, *s));
            }
        }
        live = kept;
    }
}
