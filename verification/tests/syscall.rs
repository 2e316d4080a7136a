use std::sync::Arc;

use vm_core::addr::{VirtAddrRange, PAGE_SIZE_4K};
use vm_core::aspace::{AddressSpace, MappingError};
use vm_core::backend::PageReader;
use vm_core::flags::{
    MappingFlags, MmapFlags, MmapProt, EXECUTE, MAP_ANONYMOUS, MAP_FIXED, MAP_PRIVATE, MAP_SHARED,
    PROT_EXEC, PROT_READ, PROT_WRITE, READ, USER, WRITE,
};
use vm_core::hash::{DefaultHasher, RandomState};
use vm_core::log::LogLevel;
use vm_core::phys::{PageBuf, PhysMemory};
use vm_core::syscall::{
    handle_syscall, handle_user_page_fault, init_user_stack, sys_mmap, FaultAction, Syscall,
    MMAP_FAILED, USER_STACK_SIZE,
};

struct ZeroFile;

impl PageReader for ZeroFile {
    fn read_page(&self, offset: usize, buf: &mut PageBuf) -> bool {
        buf.set(0, (offset / PAGE_SIZE_4K) as u8)
    }
}

const BASE: usize = 0x1000;
const SIZE: usize = 0x7fff_f000;

fn space() -> (AddressSpace<ZeroFile>, PhysMemory) {
    (AddressSpace::new_empty(BASE, SIZE).unwrap(), PhysMemory::new(0x8000_0000, 32 * PAGE_SIZE_4K))
}

#[test]
fn syscall_numbers_are_dispatched() {
    assert_eq!(handle_syscall(29), Ok(Syscall::Ioctl));
    assert_eq!(handle_syscall(56), Ok(Syscall::Openat));
    assert_eq!(handle_syscall(57), Ok(Syscall::Close));
    assert_eq!(handle_syscall(63), Ok(Syscall::Read));
    assert_eq!(handle_syscall(64), Ok(Syscall::Write));
    assert_eq!(handle_syscall(66), Ok(Syscall::Writev));
    assert_eq!(handle_syscall(93), Ok(Syscall::Exit));
    assert_eq!(handle_syscall(94), Ok(Syscall::ExitGroup));
    assert_eq!(handle_syscall(96), Ok(Syscall::SetTidAddress));
    assert_eq!(handle_syscall(222), Ok(Syscall::Mmap));
}

#[test]
fn unknown_syscall_gives_the_missing_call_error() {
    assert_eq!(handle_syscall(0), Err(-38));
    assert_eq!(handle_syscall(223), Err(-38));
    assert_eq!(handle_syscall(usize::MAX), Err(-38));
}

#[test]
fn protection_bits_become_mapping_flags() {
    let none = MappingFlags::from(MmapProt::from_bits_truncate(0));
    assert_eq!(none.bits(), USER);
    let r = MappingFlags::from(MmapProt::from_bits_truncate(PROT_READ));
    assert_eq!(r.bits(), USER | READ);
    let w = MappingFlags::from(MmapProt::from_bits_truncate(PROT_WRITE));
    assert_eq!(w.bits(), USER | WRITE);
    let x = MappingFlags::from(MmapProt::from_bits_truncate(PROT_EXEC));
    assert_eq!(x.bits(), USER | EXECUTE);
    let all = MappingFlags::from(MmapProt::from_bits_truncate(PROT_READ | PROT_WRITE | PROT_EXEC));
    assert_eq!(all.bits(), USER | READ | WRITE | EXECUTE);
    // Bits without a meaning are dropped.
    let odd = MappingFlags::from(MmapProt::from_bits_truncate(0x7ff8 | PROT_WRITE));
    assert_eq!(odd.bits(), USER | WRITE);
}

#[test]
fn flag_sets_answer_containment() {
    let f = MappingFlags::from_bits_truncate(READ | WRITE | 0x1000);
    assert_eq!(f.bits(), READ | WRITE);
    assert!(f.contains(MappingFlags::from_bits_truncate(READ)));
    assert!(f.contains(MappingFlags::empty()));
    assert!(!f.contains(MappingFlags::from_bits_truncate(READ | EXECUTE)));
    assert_eq!(f.union(MappingFlags::from_bits_truncate(USER)).bits(), READ | WRITE | USER);
    let m = MmapFlags::from_bits_truncate(MAP_PRIVATE | MAP_ANONYMOUS | 0x40);
    assert!(m.contains(MAP_ANONYMOUS));
    assert!(m.contains(MAP_PRIVATE));
    assert!(!m.contains(MAP_SHARED));
    assert!(!m.contains(MAP_FIXED));
    assert_eq!(m.bits, MAP_PRIVATE | MAP_ANONYMOUS);
    let p = MmapProt::from_bits_truncate(PROT_READ | 8);
    assert!(p.contains(PROT_READ));
    assert!(!p.contains(PROT_WRITE));
}

#[test]
fn anonymous_mmap_creates_a_lazy_region() {
    let (mut a, mut p) = space();
    let r = sys_mmap(&mut a, &mut p, 0, 0x1800, PROT_READ | PROT_WRITE, MAP_PRIVATE | MAP_ANONYMOUS, None, 0);
    assert_eq!(r, BASE as isize);
    assert_eq!(
        a.find_region(BASE),
        Some((BASE, 0x2000, MappingFlags::from_bits_truncate(USER | READ | WRITE)))
    );
    assert_eq!(a.page_entry(BASE), None);
    assert!(a.handle_page_fault(BASE + 0x1000, MappingFlags::from_bits_truncate(WRITE), &mut p));
    assert_eq!(p.read_page(0x8000_0000).unwrap().get(0), Some(0));
}

#[test]
fn file_mmap_creates_a_file_backed_region() {
    let (mut a, mut p) = space();
    let file = Arc::new(ZeroFile);
    let r = sys_mmap(&mut a, &mut p, 0x4000, 0x2000, PROT_READ, MAP_PRIVATE, Some(file), 0x3000);
    assert_eq!(r, 0x4000);
    assert_eq!(
        a.find_region(0x5fff),
        Some((0x4000, 0x2000, MappingFlags::from_bits_truncate(USER | READ)))
    );
    assert!(a.handle_page_fault(0x5000, MappingFlags::from_bits_truncate(READ), &mut p));
    // The second page of the mapping is the fifth page of the file.
    let entry = a.page_entry(0x5000).unwrap();
    assert_eq!(p.read_page(entry.paddr).unwrap().get(0), Some(4));
}

#[test]
fn file_mmap_without_a_file_fails() {
    let (mut a, mut p) = space();
    let r = sys_mmap(&mut a, &mut p, 0, 0x2000, PROT_READ, MAP_PRIVATE, None, 0);
    assert_eq!(r, MMAP_FAILED);
    assert_eq!(a.region_count(), 0);
}

#[test]
fn mmap_places_requests_behind_each_other() {
    let (mut a, mut p) = space();
    let anon = MAP_PRIVATE | MAP_ANONYMOUS;
    assert_eq!(sys_mmap(&mut a, &mut p, 0, 0x3000, PROT_READ, anon, None, 0), 0x1000);
    assert_eq!(sys_mmap(&mut a, &mut p, 0, 0x1000, PROT_READ, anon, None, 0), 0x4000);
    assert_eq!(sys_mmap(&mut a, &mut p, 0x2000, 1, PROT_READ, anon, None, 0), 0x5000);
    assert_eq!(sys_mmap(&mut a, &mut p, 0x10_0000, 1, PROT_READ, anon, None, 0), 0x10_0000);
    assert_eq!(a.region_count(), 4);
}

#[test]
fn mmap_fails_without_room() {
    let mut a: AddressSpace<ZeroFile> = AddressSpace::new_empty(0x1000, 0x4000).unwrap();
    let mut p = PhysMemory::new(0x8000_0000, 0x4000);
    let anon = MAP_PRIVATE | MAP_ANONYMOUS;
    assert_eq!(sys_mmap(&mut a, &mut p, 0, 0x5000, PROT_READ, anon, None, 0), MMAP_FAILED);
    assert_eq!(sys_mmap(&mut a, &mut p, 0, 0, PROT_READ, anon, None, 0), MMAP_FAILED);
    assert_eq!(sys_mmap(&mut a, &mut p, 0, 0x3001, PROT_READ, anon, None, 0), 0x1000);
    assert_eq!(sys_mmap(&mut a, &mut p, 0, 1, PROT_READ, anon, None, 0), MMAP_FAILED);
    assert_eq!(a.region_count(), 1);
    assert_eq!(a.find_free_area(0, 1, VirtAddrRange { start: 0x1000, end: 0x5000 }), None);
}

#[test]
fn mmap_fails_when_the_rounded_length_does_not_fit() {
    let mut a: AddressSpace<ZeroFile> = AddressSpace::new_empty(0x1000, 0x4000).unwrap();
    let mut p = PhysMemory::new(0x8000_0000, 0x4000);
    let anon = MAP_PRIVATE | MAP_ANONYMOUS;
    assert_eq!(sys_mmap(&mut a, &mut p, 0x3000, 0x1000, PROT_READ, anon, None, 0), 0x3000);
    // One byte fits in front of the region at 0x3000 from 0x2000 on, and
    // so does the page it is rounded up to.
    assert_eq!(sys_mmap(&mut a, &mut p, 0x2000, 1, PROT_READ, anon, None, 0), 0x2000);
    assert_eq!(a.region_count(), 2);
}

#[test]
fn kernel_faults_are_not_handled() {
    let (mut a, mut p) = space();
    a.map_alloc(BASE, 0x1000, MappingFlags::from_bits_truncate(READ), false, &mut p).unwrap();
    let access = MappingFlags::from_bits_truncate(READ);
    assert_eq!(handle_user_page_fault(&mut a, &mut p, BASE, access, false), FaultAction::Unhandled);
    assert_eq!(a.page_entry(BASE), None);
}

#[test]
fn user_faults_are_resolved_or_fatal() {
    let (mut a, mut p) = space();
    a.map_alloc(BASE, 0x1000, MappingFlags::from_bits_truncate(READ), false, &mut p).unwrap();
    let read = MappingFlags::from_bits_truncate(READ);
    let write = MappingFlags::from_bits_truncate(WRITE);
    assert_eq!(handle_user_page_fault(&mut a, &mut p, BASE, write, true), FaultAction::KillTask);
    assert_eq!(handle_user_page_fault(&mut a, &mut p, BASE + 0x1000, read, true), FaultAction::KillTask);
    assert_eq!(handle_user_page_fault(&mut a, &mut p, BASE + 4, read, true), FaultAction::Resolved);
    assert!(a.page_entry(BASE).is_some());
}

#[test]
fn user_stack_is_mapped_at_the_top() {
    let (mut a, mut p) = space();
    let top = init_user_stack(&mut a, &mut p, false).unwrap();
    assert_eq!(top, BASE + SIZE);
    assert_eq!(
        a.find_region(top - 1),
        Some((top - USER_STACK_SIZE, USER_STACK_SIZE, MappingFlags::from_bits_truncate(READ | WRITE | USER)))
    );
    assert_eq!(a.find_region(top - USER_STACK_SIZE - 1), None);
    assert_eq!(a.page_entry(top - PAGE_SIZE_4K), None);
    // A second stack does not fit.
    assert_eq!(init_user_stack(&mut a, &mut p, false), Err(MappingError::InvalidParam));
}

#[test]
fn populated_user_stack_takes_sixteen_pages() {
    let (mut a, mut p) = space();
    assert_eq!(init_user_stack(&mut a, &mut p, true), Ok(BASE + SIZE));
    assert_eq!(p.available_pages(), 16);
    assert!(a.page_entry(BASE + SIZE - USER_STACK_SIZE).is_some());
    assert!(a.page_entry(BASE + SIZE - PAGE_SIZE_4K).is_some());
}

#[test]
fn user_stack_needs_room_and_pages() {
    let mut small: AddressSpace<ZeroFile> = AddressSpace::new_empty(0, 0x8000).unwrap();
    let mut p = PhysMemory::new(0x8000_0000, 4 * PAGE_SIZE_4K);
    assert_eq!(init_user_stack(&mut small, &mut p, false), Err(MappingError::InvalidParam));
    let mut a: AddressSpace<ZeroFile> = AddressSpace::new_empty(0, 0x20_000).unwrap();
    assert_eq!(init_user_stack(&mut a, &mut p, true), Err(MappingError::NoMemory));
    assert_eq!(a.region_count(), 0);
    assert_eq!(p.available_pages(), 4);
    let mut odd: AddressSpace<ZeroFile> = AddressSpace::new_empty(0, 0x20_800).unwrap();
    assert_eq!(init_user_stack(&mut odd, &mut p, false), Err(MappingError::InvalidParam));
}

#[test]
fn random_state_splits_the_random_bits() {
    let s = RandomState::new(0x0123_4567_89ab_cdef_fedc_ba98_7654_3210);
    assert_eq!(s.keys(), (0xfedc_ba98_7654_3210, 0x0123_4567_89ab_cdef));
    assert_eq!(RandomState::new(0).keys(), (0, 0));
    assert_eq!(RandomState::new(u128::MAX).keys(), (u64::MAX, u64::MAX));
    assert_eq!(RandomState::new(1 << 64).keys(), (0, 1));
    assert_eq!(s.clone().keys(), s.keys());
}

#[test]
fn default_hashers_agree() {
    let mut a = DefaultHasher::new();
    let mut b = DefaultHasher::default();
    assert_eq!(a.finish(), b.finish());
    a.write(b"hello");
    b.write(b"hello");
    assert_eq!(a.finish(), b.finish());
    let empty = DefaultHasher::new().finish();
    assert_ne!(a.finish(), empty);
    b.write(b"!");
    assert_ne!(a.finish(), b.finish());
}

#[test]
fn log_levels_have_colours_and_tags() {
    assert_eq!(LogLevel::Error.color(), 31);
    assert_eq!(LogLevel::Warn.color(), 33);
    assert_eq!(LogLevel::Info.color(), 32);
    assert_eq!(LogLevel::Debug.color(), 34);
    assert_eq!(LogLevel::Error.tag(), "[error] ");
    assert_eq!(LogLevel::Warn.tag(), "[warn] ");
    assert_eq!(LogLevel::Info.tag(), "[info] ");
    assert_eq!(LogLevel::Debug.tag(), "[debug] ");
}
