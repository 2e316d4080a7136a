use std::cell::RefCell;
use std::sync::Arc;

use vm_core::addr::{VirtAddrRange, PAGE_SIZE_4K};
use vm_core::aspace::{AddressSpace, MappingError};
use vm_core::backend::{fault_offset, Backend, PageReader};
use vm_core::flags::{MappingFlags, EXECUTE, READ, USER, WRITE};
use vm_core::paging::{PageEntry, PageTable, PagingError};
use vm_core::phys::{PageBuf, PhysMemory};

const BASE: usize = 0x10_0000;
const SIZE: usize = 0x100_0000;
const PHYS: usize = 0x8000_0000;

/// A reader that fills pages with a pattern of the offset and records
/// which offsets were asked for.
struct TestReader {
    calls: RefCell<Vec<usize>>,
    fail: bool,
}

impl TestReader {
    fn new(fail: bool) -> Arc<TestReader> {
        Arc::new(TestReader { calls: RefCell::new(Vec::new()), fail })
    }
}

impl PageReader for TestReader {
    fn read_page(&self, offset: usize, buf: &mut PageBuf) -> bool {
        self.calls.borrow_mut().push(offset);
        if self.fail {
            return false;
        }
        for i in 0..PAGE_SIZE_4K {
            buf.set(i, ((offset / PAGE_SIZE_4K + i) % 251) as u8);
        }
        true
    }
}

fn flags(bits: usize) -> MappingFlags {
    MappingFlags::from_bits_truncate(bits)
}

fn space() -> (AddressSpace<TestReader>, PhysMemory) {
    (AddressSpace::new_empty(BASE, SIZE).unwrap(), PhysMemory::new(PHYS, 64 * PAGE_SIZE_4K))
}

fn whole() -> VirtAddrRange {
    VirtAddrRange { start: BASE, end: BASE + SIZE }
}

/// The regions of the address space, found by probing every page.
fn regions(a: &AddressSpace<TestReader>) -> Vec<(usize, usize, usize)> {
    let mut out: Vec<(usize, usize, usize)> = Vec::new();
    let mut va = a.base();
    while va < a.end() {
        match a.find_region(va) {
            Some((start, size, f)) => {
                out.push((start, size, f.bits()));
                va = start + size;
            }
            None => va += PAGE_SIZE_4K,
        }
    }
    assert_eq!(out.len(), a.region_count());
    out
}

#[test]
fn new_address_space_is_empty() {
    let (a, _) = space();
    assert_eq!(a.base(), BASE);
    assert_eq!(a.end(), BASE + SIZE);
    assert_eq!(a.size(), SIZE);
    assert_eq!(a.region_count(), 0);
    assert_eq!(a.find_region(BASE), None);
    assert!(a.contains_range(BASE, SIZE));
    assert!(!a.contains_range(BASE, SIZE + 1));
    assert!(!a.contains_range(BASE - 1, 2));
}

#[test]
fn new_address_space_needs_an_end_address() {
    assert!(AddressSpace::<TestReader>::new_empty(usize::MAX, 1).is_none());
    assert!(AddressSpace::<TestReader>::new_empty(usize::MAX - 1, 1).is_some());
}

#[test]
fn find_free_area_prefers_the_hint() {
    let (mut a, mut p) = space();
    a.map_alloc(BASE, 0x4000, flags(READ), false, &mut p).unwrap();
    assert_eq!(a.find_free_area(BASE + 0x8000, 0x2000, whole()), Some(BASE + 0x8000));
}

#[test]
fn find_free_area_starts_at_the_range_when_the_hint_is_below() {
    let (a, _) = space();
    assert_eq!(a.find_free_area(0, 0x2000, whole()), Some(BASE));
    let inner = VirtAddrRange { start: BASE + 0x3000, end: BASE + 0x9000 };
    assert_eq!(a.find_free_area(0, 0x2000, inner), Some(BASE + 0x3000));
}

#[test]
fn find_free_area_skips_regions() {
    let (mut a, mut p) = space();
    a.map_alloc(BASE, 0x4000, flags(READ), false, &mut p).unwrap();
    a.map_alloc(BASE + 0x5000, 0x3000, flags(READ), false, &mut p).unwrap();
    // The hint lies in the first region; the gap behind it holds one page.
    assert_eq!(a.find_free_area(BASE + 0x1000, 0x1000, whole()), Some(BASE + 0x4000));
    // Two pages do not fit the gap.
    assert_eq!(a.find_free_area(BASE + 0x1000, 0x2000, whole()), Some(BASE + 0x8000));
    assert_eq!(a.find_free_area(0, 0x2000, whole()), Some(BASE + 0x8000));
}

#[test]
fn find_free_area_rounds_the_hint_up() {
    let (a, _) = space();
    assert_eq!(a.find_free_area(BASE + 1, 0x1000, whole()), Some(BASE + 0x1000));
    assert_eq!(a.find_free_area(BASE + 0x1fff, 0x1000, whole()), Some(BASE + 0x2000));
}

#[test]
fn find_free_area_stays_inside_the_search_range() {
    let (mut a, mut p) = space();
    a.map_alloc(BASE + 0x2000, 0x1000, flags(READ), false, &mut p).unwrap();
    let limit = VirtAddrRange { start: BASE, end: BASE + 0x4000 };
    assert_eq!(a.find_free_area(0, 0x2000, limit), Some(BASE));
    assert_eq!(a.find_free_area(BASE + 0x1000, 0x1000, limit), Some(BASE + 0x1000));
    assert_eq!(a.find_free_area(BASE + 0x1000, 0x2000, limit), None);
    assert_eq!(a.find_free_area(BASE + 0x3000, 0x1000, limit), Some(BASE + 0x3000));
    assert_eq!(a.find_free_area(BASE + 0x3000, 0x1001, limit), None);
    assert_eq!(a.find_free_area(BASE + 0x4000, 0x1000, limit), None);
    assert_eq!(a.find_free_area(0, 0x5000, limit), None);
}

#[test]
fn find_free_area_never_returns_an_overlapping_range() {
    let (mut a, mut p) = space();
    let starts = [0x0usize, 0x3000, 0x4000, 0x9000, 0x10000];
    let sizes = [0x2000usize, 0x1000, 0x3000, 0x1000, 0x8000];
    for (s, z) in starts.iter().zip(sizes.iter()) {
        a.map_alloc(BASE + s, *z, flags(READ), false, &mut p).unwrap();
    }
    let limit = VirtAddrRange { start: BASE, end: BASE + 0x20000 };
    for hint in (0..0x21).map(|k| BASE + k * 0x1000) {
        for len in [0x1usize, 0x1000, 0x2000, 0x5000, 0x8000] {
            if let Some(addr) = a.find_free_area(hint, len, limit) {
                assert!(addr >= hint && addr >= limit.start && addr + len <= limit.end);
                assert_eq!(addr % PAGE_SIZE_4K, 0);
                for (s, z) in starts.iter().zip(sizes.iter()) {
                    assert!(addr + len <= BASE + s || BASE + s + z <= addr);
                }
            }
        }
    }
}

#[test]
fn find_free_area_near_the_top_of_the_address_space() {
    let (a, _) = space();
    let limit = VirtAddrRange { start: 0, end: usize::MAX };
    assert_eq!(a.find_free_area(usize::MAX - 10, 1, limit), None);
    assert_eq!(a.find_free_area(usize::MAX - 0x1fff, usize::MAX, limit), None);
    // The topmost page boundary is still found.
    assert_eq!(a.find_free_area(usize::MAX - 0xfff, 0xfff, limit), Some(usize::MAX - 0xfff));
    assert_eq!(a.find_free_area(usize::MAX - 0x1000, 0xfff, limit), Some(usize::MAX - 0xfff));
    assert_eq!(a.find_free_area(usize::MAX - 0xffe, 1, limit), None);
}

#[test]
fn map_alloc_registers_a_region() {
    let (mut a, mut p) = space();
    assert_eq!(a.map_alloc(BASE + 0x1000, 0x3000, flags(READ | WRITE), false, &mut p), Ok(()));
    assert_eq!(a.region_count(), 1);
    assert_eq!(a.find_region(BASE + 0x1000), Some((BASE + 0x1000, 0x3000, flags(READ | WRITE))));
    assert_eq!(a.find_region(BASE + 0x3fff), Some((BASE + 0x1000, 0x3000, flags(READ | WRITE))));
    assert_eq!(a.find_region(BASE + 0x4000), None);
    assert_eq!(a.find_region(BASE + 0xfff), None);
    // Lazy: nothing is mapped and no page is taken.
    assert_eq!(a.page_entry(BASE + 0x1000), None);
    assert_eq!(p.available_pages(), 64);
}

#[test]
fn map_rejects_misaligned_empty_and_outside_ranges() {
    let (mut a, mut p) = space();
    let f = flags(READ);
    assert_eq!(a.map_alloc(BASE + 1, 0x1000, f, false, &mut p), Err(MappingError::InvalidParam));
    assert_eq!(a.map_alloc(BASE, 0x1001, f, false, &mut p), Err(MappingError::InvalidParam));
    assert_eq!(a.map_alloc(BASE, 0, f, false, &mut p), Err(MappingError::InvalidParam));
    assert_eq!(a.map_alloc(BASE - 0x1000, 0x2000, f, false, &mut p), Err(MappingError::InvalidParam));
    assert_eq!(
        a.map_alloc(BASE + SIZE - 0x1000, 0x2000, f, false, &mut p),
        Err(MappingError::InvalidParam)
    );
    assert_eq!(a.map_alloc(usize::MAX - 0xfff, 0x1000, f, false, &mut p), Err(MappingError::InvalidParam));
    assert_eq!(a.region_count(), 0);
    assert_eq!(a.map_alloc(BASE + SIZE - 0x1000, 0x1000, f, false, &mut p), Ok(()));
}

#[test]
fn map_rejects_overlapping_ranges() {
    let (mut a, mut p) = space();
    let f = flags(READ);
    a.map_alloc(BASE + 0x2000, 0x2000, f, false, &mut p).unwrap();
    for (start, size) in [
        (0x2000usize, 0x2000usize),
        (0x1000, 0x2000),
        (0x3000, 0x2000),
        (0x1000, 0x4000),
        (0x3000, 0x1000),
    ] {
        assert_eq!(
            a.map_alloc(BASE + start, size, f, false, &mut p),
            Err(MappingError::InvalidParam)
        );
        assert_eq!(
            a.map_linear(BASE + start, 0x1000, size, f, &mut p),
            Err(MappingError::InvalidParam)
        );
        assert_eq!(
            a.map_file_backed(BASE + start, size, f, 0, TestReader::new(false), &mut p),
            Err(MappingError::InvalidParam)
        );
    }
    assert_eq!(a.region_count(), 1);
    // Touching ranges do not overlap.
    assert_eq!(a.map_alloc(BASE + 0x1000, 0x1000, f, false, &mut p), Ok(()));
    assert_eq!(a.map_alloc(BASE + 0x4000, 0x1000, f, false, &mut p), Ok(()));
    assert_eq!(a.region_count(), 3);
}

#[test]
fn regions_never_overlap() {
    let (mut a, mut p) = space();
    let f = flags(READ | WRITE);
    let requests = [
        (0x8000usize, 0x4000usize),
        (0x0, 0x2000),
        (0x1000, 0x2000),
        (0x4000, 0x4000),
        (0x2000, 0x2000),
        (0xb000, 0x2000),
        (0xc000, 0x1000),
        (0x7000, 0x2000),
    ];
    for (k, (start, size)) in requests.iter().enumerate() {
        let _ = match k % 3 {
            0 => a.map_alloc(BASE + start, *size, f, false, &mut p),
            1 => a.map_linear(BASE + start, *start, *size, f, &mut p),
            _ => a.map_file_backed(BASE + start, *size, f, 0, TestReader::new(false), &mut p),
        };
    }
    a.unmap(BASE + 0x5000, 0x4000, &mut p).unwrap();
    a.protect(BASE + 0x1000, 0x9000, flags(READ)).unwrap();
    let rs = regions(&a);
    assert!(rs.len() >= 4);
    for (i, (s1, z1, _)) in rs.iter().enumerate() {
        assert_eq!(s1 % PAGE_SIZE_4K, 0);
        assert_eq!(z1 % PAGE_SIZE_4K, 0);
        assert!(*z1 > 0 && *s1 >= BASE && s1 + z1 <= BASE + SIZE);
        for (s2, z2, _) in rs.iter().skip(i + 1) {
            assert!(s1 + z1 <= *s2);
        }
    }
}

#[test]
fn map_linear_maps_every_page_at_once() {
    let (mut a, mut p) = space();
    let f = flags(READ | EXECUTE);
    assert_eq!(a.map_linear(BASE + 0x2000, 0x4_2000, 0x3000, f, &mut p), Ok(()));
    for k in 0..3 {
        assert_eq!(
            a.page_entry(BASE + 0x2000 + k * PAGE_SIZE_4K),
            Some(PageEntry { paddr: 0x4_2000 + k * PAGE_SIZE_4K, flags: f })
        );
    }
    assert_eq!(a.page_entry(BASE + 0x1000), None);
    assert_eq!(a.page_entry(BASE + 0x5000), None);
    assert_eq!(p.available_pages(), 64);
}

#[test]
fn map_linear_rejects_bad_physical_addresses() {
    let (mut a, mut p) = space();
    let f = flags(READ);
    assert_eq!(a.map_linear(BASE, 0x4_0001, 0x1000, f, &mut p), Err(MappingError::InvalidParam));
    assert_eq!(a.map_linear(BASE, BASE + 0x1000, 0x1000, f, &mut p), Err(MappingError::InvalidParam));
    assert_eq!(a.region_count(), 0);
    assert_eq!(a.map_linear(BASE, BASE, 0x1000, f, &mut p), Ok(()));
    assert_eq!(a.page_entry(BASE), Some(PageEntry { paddr: BASE, flags: f }));
}

#[test]
fn populated_region_is_mapped_to_zeroed_pages() {
    let (mut a, mut p) = space();
    let f = flags(READ | WRITE | USER);
    assert_eq!(a.map_alloc(BASE + 0x4000, 0x3000, f, true, &mut p), Ok(()));
    assert_eq!(p.available_pages(), 61);
    for k in 0..3 {
        let entry = a.page_entry(BASE + 0x4000 + k * PAGE_SIZE_4K).unwrap();
        assert_eq!(entry, PageEntry { paddr: PHYS + k * PAGE_SIZE_4K, flags: f });
        let page = p.read_page(entry.paddr).unwrap();
        for i in 0..PAGE_SIZE_4K {
            assert_eq!(page.get(i), Some(0));
        }
    }
}

#[test]
fn populated_region_needs_all_its_pages() {
    let mut a: AddressSpace<TestReader> = AddressSpace::new_empty(BASE, SIZE).unwrap();
    let mut p = PhysMemory::new(PHYS, 2 * PAGE_SIZE_4K);
    let f = flags(READ);
    assert_eq!(a.map_alloc(BASE, 0x3000, f, true, &mut p), Err(MappingError::NoMemory));
    assert_eq!(a.region_count(), 0);
    assert_eq!(a.page_entry(BASE), None);
    assert_eq!(p.available_pages(), 2);
    assert_eq!(a.map_alloc(BASE, 0x2000, f, true, &mut p), Ok(()));
    assert_eq!(p.available_pages(), 0);
    // Without pages a lazy region can still be created.
    assert_eq!(a.map_alloc(BASE + 0x2000, 0x2000, f, false, &mut p), Ok(()));
}

#[test]
fn file_backed_region_is_created_without_pages() {
    let (mut a, mut p) = space();
    let reader = TestReader::new(false);
    assert_eq!(a.map_file_backed(BASE, 0x4000, flags(READ), 0x2000, reader.clone(), &mut p), Ok(()));
    assert!(reader.calls.borrow().is_empty());
    assert_eq!(a.page_entry(BASE), None);
    assert_eq!(p.available_pages(), 64);
}

#[test]
fn fault_outside_any_region_is_unresolved() {
    let (mut a, mut p) = space();
    a.map_alloc(BASE + 0x1000, 0x1000, flags(READ), false, &mut p).unwrap();
    assert!(!a.handle_page_fault(BASE, flags(READ), &mut p));
    assert!(!a.handle_page_fault(BASE + 0x2000, flags(READ), &mut p));
    assert!(!a.handle_page_fault(0, flags(READ), &mut p));
    assert!(!a.handle_page_fault(usize::MAX, flags(READ), &mut p));
    assert_eq!(p.available_pages(), 64);
}

#[test]
fn fault_with_a_forbidden_access_is_unresolved() {
    let (mut a, mut p) = space();
    a.map_alloc(BASE, 0x1000, flags(READ | USER), false, &mut p).unwrap();
    assert!(!a.handle_page_fault(BASE, flags(WRITE), &mut p));
    assert!(!a.handle_page_fault(BASE, flags(READ | WRITE), &mut p));
    assert!(!a.handle_page_fault(BASE, flags(EXECUTE), &mut p));
    assert_eq!(a.page_entry(BASE), None);
    assert_eq!(p.available_pages(), 64);
    assert!(a.handle_page_fault(BASE, flags(READ), &mut p));
}

#[test]
fn fault_in_a_linear_region_is_always_unresolved() {
    let (mut a, mut p) = space();
    a.map_linear(BASE, 0x1000, 0x2000, flags(READ | WRITE | EXECUTE | USER), &mut p).unwrap();
    for bits in 0..16 {
        assert!(!a.handle_page_fault(BASE, flags(bits), &mut p));
        assert!(!a.handle_page_fault(BASE + 0x1234, flags(bits), &mut p));
    }
    assert_eq!(p.available_pages(), 64);
    assert_eq!(a.page_entry(BASE), Some(PageEntry { paddr: 0x1000, flags: flags(15) }));
}

#[test]
fn fault_in_a_populated_region_is_unresolved() {
    let (mut a, mut p) = space();
    a.map_alloc(BASE, 0x2000, flags(READ), true, &mut p).unwrap();
    assert!(!a.handle_page_fault(BASE + 0x1000, flags(READ), &mut p));
    assert_eq!(p.available_pages(), 62);
}

#[test]
fn fault_in_a_lazy_region_maps_one_zeroed_page() {
    let (mut a, mut p) = space();
    let f = flags(READ | WRITE | USER);
    a.map_alloc(BASE, 0x4000, f, false, &mut p).unwrap();
    assert!(a.handle_page_fault(BASE + 0x2abc, flags(WRITE), &mut p));
    assert_eq!(a.page_entry(BASE + 0x2000), Some(PageEntry { paddr: PHYS, flags: f }));
    assert_eq!(a.page_entry(BASE + 0x1000), None);
    assert_eq!(a.page_entry(BASE + 0x3000), None);
    assert_eq!(p.available_pages(), 63);
    let page = p.read_page(PHYS).unwrap();
    assert!((0..PAGE_SIZE_4K).all(|i| page.get(i) == Some(0)));
    assert_eq!(a.region_count(), 1);
}

#[test]
fn fault_without_a_free_page_is_unresolved() {
    let mut a: AddressSpace<TestReader> = AddressSpace::new_empty(BASE, SIZE).unwrap();
    let mut p = PhysMemory::new(PHYS, PAGE_SIZE_4K);
    a.map_alloc(BASE, 0x2000, flags(READ), false, &mut p).unwrap();
    assert!(a.handle_page_fault(BASE, flags(READ), &mut p));
    assert!(!a.handle_page_fault(BASE + 0x1000, flags(READ), &mut p));
    assert_eq!(a.page_entry(BASE + 0x1000), None);
}

#[test]
fn fault_on_a_mapped_page_is_unresolved() {
    let (mut a, mut p) = space();
    a.map_alloc(BASE, 0x1000, flags(READ), false, &mut p).unwrap();
    assert!(a.handle_page_fault(BASE, flags(READ), &mut p));
    let entry = a.page_entry(BASE);
    assert!(!a.handle_page_fault(BASE + 8, flags(READ), &mut p));
    assert_eq!(a.page_entry(BASE), entry);
}

#[test]
fn fault_offset_follows_the_faulting_page() {
    assert_eq!(fault_offset(0x2000, 0x1000, 0x1000 + 3 * 4096), Some(0x2000 + 3 * 4096));
    assert_eq!(fault_offset(0x2000, 0x1000, 0x1000 + 3 * 4096 + 77), Some(0x2000 + 3 * 4096));
    assert_eq!(fault_offset(0x2000, 0x1000, 0x1000), Some(0x2000));
    assert_eq!(fault_offset(0, 0x1000, 0x1fff), Some(0));
    // Below the start of the mapping there is no offset.
    assert_eq!(fault_offset(0x2000, 0x1000, 0xfff), None);
    assert_eq!(fault_offset(usize::MAX, 0x1000, 0x2000), None);
}

#[test]
fn file_backed_fault_reads_the_faulting_page_of_the_file() {
    let mut a: AddressSpace<TestReader> = AddressSpace::new_empty(0, 0x100_0000).unwrap();
    let mut p = PhysMemory::new(PHYS, 8 * PAGE_SIZE_4K);
    let reader = TestReader::new(false);
    let f = flags(READ | USER);
    a.map_file_backed(0x1000, 0x8000, f, 0x2000, reader.clone(), &mut p).unwrap();
    assert!(a.handle_page_fault(0x1000 + 3 * 4096, flags(READ), &mut p));
    assert_eq!(*reader.calls.borrow(), vec![0x2000 + 3 * 4096]);
    let entry = a.page_entry(0x1000 + 3 * 4096).unwrap();
    assert_eq!(entry, PageEntry { paddr: PHYS, flags: f });
    // The page holds what the reader wrote.
    let page = p.read_page(entry.paddr).unwrap();
    for i in [0usize, 1, 100, 4095] {
        assert_eq!(page.get(i), Some(((5 + i) % 251) as u8));
    }
    // A fault in the middle of another page asks for that page's offset.
    assert!(a.handle_page_fault(0x1000 + 0x1234, flags(READ), &mut p));
    assert_eq!(*reader.calls.borrow(), vec![0x2000 + 3 * 4096, 0x2000 + 0x1000]);
}

#[test]
fn file_backed_fault_with_a_failing_reader_maps_nothing() {
    let (mut a, mut p) = space();
    let reader = TestReader::new(true);
    a.map_file_backed(BASE, 0x2000, flags(READ), 0, reader.clone(), &mut p).unwrap();
    assert!(!a.handle_page_fault(BASE + 0x1000, flags(READ), &mut p));
    assert_eq!(*reader.calls.borrow(), vec![0x1000]);
    assert_eq!(a.page_entry(BASE + 0x1000), None);
    // The page that was taken is given back: nothing is kept of it.
    assert_eq!(p.read_page(PHYS).map(|b| b.len()), None);
}

#[test]
fn file_backed_fault_without_a_free_page_does_not_read() {
    let mut a: AddressSpace<TestReader> = AddressSpace::new_empty(BASE, SIZE).unwrap();
    let mut p = PhysMemory::new(PHYS, 0);
    let reader = TestReader::new(false);
    a.map_file_backed(BASE, 0x2000, flags(READ), 0, reader.clone(), &mut p).unwrap();
    assert!(!a.handle_page_fault(BASE, flags(READ), &mut p));
    assert!(reader.calls.borrow().is_empty());
}

#[test]
fn unmap_removes_a_whole_region() {
    let (mut a, mut p) = space();
    a.map_alloc(BASE, 0x2000, flags(READ), true, &mut p).unwrap();
    a.map_alloc(BASE + 0x4000, 0x2000, flags(READ), false, &mut p).unwrap();
    assert_eq!(a.unmap(BASE, 0x2000, &mut p), Ok(()));
    assert_eq!(regions(&a), vec![(BASE + 0x4000, 0x2000, READ)]);
    assert_eq!(a.page_entry(BASE), None);
    assert_eq!(a.page_entry(BASE + 0x1000), None);
    // The physical pages are given back, with their contents.
    assert_eq!(p.read_page(PHYS).map(|b| b.len()), None);
    assert_eq!(p.read_page(PHYS + 0x1000).map(|b| b.len()), None);
}

#[test]
fn unmap_cuts_and_splits_regions() {
    let (mut a, mut p) = space();
    let f = flags(READ | WRITE);
    a.map_linear(BASE, 0x8000, 0x4000, f, &mut p).unwrap();
    a.map_linear(BASE + 0x4000, 0x2_0000, 0x4000, f, &mut p).unwrap();
    a.map_linear(BASE + 0x8000, 0x4_0000, 0x4000, f, &mut p).unwrap();
    // Cut the tail of the first, drop the second, cut the head of the third.
    assert_eq!(a.unmap(BASE + 0x3000, 0x6000, &mut p), Ok(()));
    assert_eq!(
        regions(&a),
        vec![(BASE, 0x3000, f.bits()), (BASE + 0x9000, 0x3000, f.bits())]
    );
    assert_eq!(a.page_entry(BASE + 0x2000), Some(PageEntry { paddr: 0xa000, flags: f }));
    for va in (0x3000..0x9000).step_by(PAGE_SIZE_4K) {
        assert_eq!(a.page_entry(BASE + va), None);
    }
    assert_eq!(a.page_entry(BASE + 0x9000), Some(PageEntry { paddr: 0x4_1000, flags: f }));
    // Unmap the middle of what is left of the first.
    assert_eq!(a.unmap(BASE + 0x1000, 0x1000, &mut p), Ok(()));
    assert_eq!(
        regions(&a),
        vec![
            (BASE, 0x1000, f.bits()),
            (BASE + 0x2000, 0x1000, f.bits()),
            (BASE + 0x9000, 0x3000, f.bits())
        ]
    );
    assert_eq!(a.page_entry(BASE), Some(PageEntry { paddr: 0x8000, flags: f }));
    assert_eq!(a.page_entry(BASE + 0x1000), None);
    assert_eq!(a.page_entry(BASE + 0x2000), Some(PageEntry { paddr: 0xa000, flags: f }));
}

#[test]
fn unmap_of_an_empty_or_unmapped_range_changes_nothing() {
    let (mut a, mut p) = space();
    a.map_alloc(BASE, 0x3000, flags(READ), true, &mut p).unwrap();
    assert_eq!(a.unmap(BASE + 0x1000, 0, &mut p), Ok(()));
    assert_eq!(a.unmap(BASE + 0x3000, 0x5000, &mut p), Ok(()));
    assert_eq!(regions(&a), vec![(BASE, 0x3000, READ)]);
    assert!(a.page_entry(BASE + 0x1000).is_some());
}

#[test]
fn unmap_rejects_misaligned_and_outside_ranges() {
    let (mut a, mut p) = space();
    a.map_alloc(BASE, 0x3000, flags(READ), true, &mut p).unwrap();
    assert_eq!(a.unmap(BASE + 1, 0x1000, &mut p), Err(MappingError::InvalidParam));
    assert_eq!(a.unmap(BASE, 0x1001, &mut p), Err(MappingError::InvalidParam));
    assert_eq!(a.unmap(BASE - 0x1000, 0x2000, &mut p), Err(MappingError::InvalidParam));
    assert_eq!(a.unmap(BASE, SIZE + 0x1000, &mut p), Err(MappingError::InvalidParam));
    assert_eq!(regions(&a), vec![(BASE, 0x3000, READ)]);
    assert!(a.page_entry(BASE).is_some());
}

#[test]
fn unmap_keeps_the_file_offsets_of_the_remaining_pages() {
    let (mut a, mut p) = space();
    let reader = TestReader::new(false);
    a.map_file_backed(BASE, 0x4000, flags(READ), 0x10_000, reader.clone(), &mut p).unwrap();
    a.unmap(BASE, 0x2000, &mut p).unwrap();
    assert!(a.handle_page_fault(BASE + 0x3000, flags(READ), &mut p));
    assert_eq!(*reader.calls.borrow(), vec![0x10_000 + 0x3000]);
    // The freed range can be mapped anew.
    assert_eq!(a.map_alloc(BASE, 0x2000, flags(READ), false, &mut p), Ok(()));
}

#[test]
fn unmapped_lazy_pages_fault_no_more() {
    let (mut a, mut p) = space();
    a.map_alloc(BASE, 0x3000, flags(READ), false, &mut p).unwrap();
    assert!(a.handle_page_fault(BASE + 0x1000, flags(READ), &mut p));
    a.unmap(BASE + 0x1000, 0x1000, &mut p).unwrap();
    assert_eq!(a.page_entry(BASE + 0x1000), None);
    assert!(!a.handle_page_fault(BASE + 0x1000, flags(READ), &mut p));
    assert!(a.handle_page_fault(BASE + 0x2000, flags(READ), &mut p));
}

#[test]
fn protect_rewrites_flags_and_splits_regions() {
    let (mut a, mut p) = space();
    let rw = flags(READ | WRITE);
    let ro = flags(READ);
    a.map_linear(BASE, 0x8000, 0x4000, rw, &mut p).unwrap();
    assert_eq!(a.protect(BASE + 0x1000, 0x2000, ro), Ok(()));
    assert_eq!(
        regions(&a),
        vec![(BASE, 0x1000, rw.bits()), (BASE + 0x1000, 0x2000, ro.bits()), (BASE + 0x3000, 0x1000, rw.bits())]
    );
    assert_eq!(a.page_entry(BASE), Some(PageEntry { paddr: 0x8000, flags: rw }));
    assert_eq!(a.page_entry(BASE + 0x1000), Some(PageEntry { paddr: 0x9000, flags: ro }));
    assert_eq!(a.page_entry(BASE + 0x2000), Some(PageEntry { paddr: 0xa000, flags: ro }));
    assert_eq!(a.page_entry(BASE + 0x3000), Some(PageEntry { paddr: 0xb000, flags: rw }));
    assert_eq!(p.available_pages(), 64);
}

#[test]
fn protect_decides_later_faults() {
    let (mut a, mut p) = space();
    a.map_alloc(BASE, 0x2000, flags(READ | WRITE), false, &mut p).unwrap();
    assert_eq!(a.protect(BASE, 0x1000, flags(READ)), Ok(()));
    assert!(!a.handle_page_fault(BASE, flags(WRITE), &mut p));
    assert!(a.handle_page_fault(BASE + 0x1000, flags(WRITE), &mut p));
    assert!(a.handle_page_fault(BASE, flags(READ), &mut p));
    assert_eq!(a.page_entry(BASE).map(|e| e.flags), Some(flags(READ)));
}

#[test]
fn protect_rejects_misaligned_and_outside_ranges() {
    let (mut a, mut p) = space();
    a.map_alloc(BASE, 0x2000, flags(READ | WRITE), true, &mut p).unwrap();
    assert_eq!(a.protect(BASE + 8, 0x1000, flags(READ)), Err(MappingError::InvalidParam));
    assert_eq!(a.protect(BASE, 0x800, flags(READ)), Err(MappingError::InvalidParam));
    assert_eq!(a.protect(0, 0x1000, flags(READ)), Err(MappingError::InvalidParam));
    assert_eq!(a.protect(BASE, 0, flags(READ)), Ok(()));
    assert_eq!(regions(&a), vec![(BASE, 0x2000, READ | WRITE)]);
    assert_eq!(a.page_entry(BASE).map(|e| e.flags), Some(flags(READ | WRITE)));
}

#[test]
fn page_table_maps_unmaps_and_protects() {
    let mut pt = PageTable::new();
    let f = flags(READ);
    assert_eq!(pt.map(0x1000, 0x5000, f), Ok(()));
    assert_eq!(pt.map(0x1000, 0x6000, f), Err(PagingError::AlreadyMapped));
    assert_eq!(pt.map(0x1001, 0x6000, f), Err(PagingError::NotAligned));
    assert_eq!(pt.map(0x2000, 0x6001, f), Err(PagingError::NotAligned));
    assert!(pt.is_mapped(0x1000));
    assert!(!pt.is_mapped(0x2000));
    assert_eq!(pt.query(0x1234), Ok((0x5234, f)));
    assert_eq!(pt.query(0x2234), Err(PagingError::NotMapped));
    assert_eq!(pt.protect(0x1000, flags(WRITE)), Ok(()));
    assert_eq!(pt.protect(0x2000, flags(WRITE)), Err(PagingError::NotMapped));
    assert_eq!(pt.query(0x1000), Ok((0x5000, flags(WRITE))));
    assert_eq!(pt.unmap(0x1000), Ok(0x5000));
    assert_eq!(pt.unmap(0x1000), Err(PagingError::NotMapped));
}

#[test]
fn page_table_region_operations() {
    let mut pt = PageTable::new();
    let f = flags(READ);
    assert!(pt.range_unmapped(0x1000, 0x4000));
    assert!(pt.map_region(0x1000, 0x3000, 0x8000, f));
    assert!(!pt.range_unmapped(0x3000, 0x2000));
    assert!(pt.range_unmapped(0x4000, 0x2000));
    assert_eq!(pt.query(0x3000), Ok((0xa000, f)));
    // Mapping over a mapped page stops there.
    assert!(!pt.map_region(0x0, 0x3000, 0x2_0000, f));
    assert_eq!(pt.query(0x0), Ok((0x2_0000, f)));
    assert_eq!(pt.query(0x1000), Ok((0x8000, f)));
    pt.protect_region(0x2000, 0x4000, flags(WRITE));
    assert_eq!(pt.query(0x1000), Ok((0x8000, f)));
    assert_eq!(pt.query(0x2000), Ok((0x9000, flags(WRITE))));
    assert!(!pt.is_mapped(0x4000));
    pt.unmap_region(0x1000, 0x2000);
    assert!(!pt.is_mapped(0x1000));
    assert!(!pt.is_mapped(0x2000));
    assert!(pt.is_mapped(0x3000));
    assert!(pt.is_mapped(0x0));
}

#[test]
fn backend_operations_on_a_page_table() {
    let mut pt = PageTable::new();
    let mut p = PhysMemory::new(PHYS, 4 * PAGE_SIZE_4K);
    let f = flags(READ);
    let linear: Backend<TestReader> = Backend::new_linear(0x1000);
    assert!(linear.map(0x3000, 0x2000, f, &mut pt, &mut p));
    assert_eq!(pt.query(0x4000), Ok((0x3000, f)));
    assert!(!linear.map(0x4000, 0x2000, f, &mut pt, &mut p));
    assert!(!Backend::<TestReader>::new_linear(0x4000).map(0x3000, 0, f, &mut pt, &mut p));
    assert!(!Backend::<TestReader>::new_linear(0x10).map(0x8000, 0x1000, f, &mut pt, &mut p));
    assert!(linear.protect(0x3000, 0x1000, flags(WRITE), &mut pt));
    assert_eq!(pt.query(0x3000), Ok((0x2000, flags(WRITE))));
    assert!(!linear.handle_page_fault(0x3000, f, &mut pt, &mut p));
    assert!(linear.unmap(0x3000, 0x2000, &mut pt, &mut p));
    assert!(!pt.is_mapped(0x3000) && !pt.is_mapped(0x4000));

    let populated: Backend<TestReader> = Backend::new_alloc(true);
    assert!(!populated.map(0x3000, 0x5000, f, &mut pt, &mut p));
    assert_eq!(p.available_pages(), 4);
    assert!(populated.map(0x3000, 0x2000, f, &mut pt, &mut p));
    assert_eq!(pt.query(0x4000), Ok((PHYS + 0x1000, f)));
    assert!(populated.unmap(0x4000, 0x1000, &mut pt, &mut p));
    assert!(p.read_page(PHYS).is_some());
    assert!(p.read_page(PHYS + 0x1000).is_none());

    let reader = TestReader::new(false);
    let file = Backend::new_file_backed(reader.clone(), 0x100, 0x10_000);
    assert!(file.map(0x10_000, 0x2000, f, &mut pt, &mut p));
    assert!(!pt.is_mapped(0x10_000));
    assert!(file.handle_page_fault(0x11_008, f, &mut pt, &mut p));
    assert_eq!(*reader.calls.borrow(), vec![0x1100]);
    assert_eq!(pt.query(0x11_000), Ok((PHYS + 0x2000, f)));
    // Below the start of the mapping no file offset exists.
    assert!(!file.handle_page_fault(0x8000, f, &mut pt, &mut p));
    let copy = file.clone();
    assert!(copy.handle_page_fault(0x10_000, f, &mut pt, &mut p));
    assert_eq!(*reader.calls.borrow(), vec![0x1100, 0x100]);
}

#[test]
fn physical_pages_are_handed_out_in_order() {
    let mut p = PhysMemory::new(0x8000_0800, 3 * PAGE_SIZE_4K);
    // The first page begins at the first page boundary in the heap.
    assert_eq!(p.available_pages(), 2);
    assert_eq!(p.alloc_page(), Some(0x8000_1000));
    assert_eq!(p.alloc_page(), Some(0x8000_2000));
    assert_eq!(p.available_pages(), 0);
    assert_eq!(p.alloc_page(), None);
    let mut page = PageBuf::zeroed();
    assert!(page.set(7, 42));
    assert!(!page.set(4096, 1));
    assert_eq!(page.get(7), Some(42));
    assert_eq!(page.get(4096), None);
    assert_eq!(page.len(), 4096);
    assert!(p.write_page(0x8000_1000, page.duplicate()));
    assert!(!p.write_page(0x8000_3000, page));
    assert_eq!(p.read_page(0x8000_1000).unwrap().get(7), Some(42));
    assert_eq!(p.read_page(0x8000_2000).unwrap().get(7), Some(0));
    p.dealloc_page(0x8000_1000);
    assert!(p.read_page(0x8000_1000).is_none());
    // Pages are never handed out twice.
    assert_eq!(p.alloc_page(), None);
}
