//! The decisions behind the system-call and page-fault entry points: which
//! call a number names, what a mapping request does to an address space,
//! and what becomes of a task after a page fault.

use vstd::prelude::*;
use std::sync::Arc;
use crate::addr::{VirtAddr, VirtAddrRange, PAGE_SIZE_4K};
use crate::aspace::{AddressSpace, AddressSpaceView, MappingError};
use crate::backend::{Backend, PageReader};
use crate::flags::{
    spec_flags_of_prot, MappingFlags, MmapFlags, MmapProt, MAP_ANONYMOUS, READ, USER, WRITE,
};
use crate::phys::{spec_available_pages, PhysMemory};
use crate::region::{spec_first_free, Region};

verus! {

/// Size of a user stack, in bytes.
pub const USER_STACK_SIZE: usize = 0x10000;

/// Number of the call that controls a device.
pub const SYS_IOCTL: usize = 29;

/// Number of the call that opens a file relative to a directory.
pub const SYS_OPENAT: usize = 56;

/// Number of the call that closes a file.
pub const SYS_CLOSE: usize = 57;

/// Number of the call that reads from a file.
pub const SYS_READ: usize = 63;

/// Number of the call that writes to a file.
pub const SYS_WRITE: usize = 64;

/// Number of the call that writes several buffers to a file.
pub const SYS_WRITEV: usize = 66;

/// Number of the call that ends the calling task.
pub const SYS_EXIT: usize = 93;

/// Number of the call that ends all tasks of a process.
pub const SYS_EXIT_GROUP: usize = 94;

/// Number of the call that sets where the task's id is cleared on exit.
pub const SYS_SET_TID_ADDRESS: usize = 96;

/// Number of the call that maps memory.
pub const SYS_MMAP: usize = 222;

/// The directory descriptor that stands for the current directory.
pub const AT_FDCWD: i32 = -100;

/// What a failed mapping request returns.
pub const MMAP_FAILED: isize = -1;

/// The system calls that are served.
#[derive(Clone, Copy, Debug, PartialEq, Eq, Structural)]
pub enum Syscall {
    Ioctl,
    SetTidAddress,
    Openat,
    Close,
    Read,
    Write,
    Writev,
    ExitGroup,
    Exit,
    Mmap,
}

/// The system call that the number `num` names, if it is served.
pub open spec fn spec_syscall_of(num: usize) -> Option<Syscall> {
    if num == SYS_IOCTL {
        Some(Syscall::Ioctl)
    } else if num == SYS_SET_TID_ADDRESS {
        Some(Syscall::SetTidAddress)
    } else if num == SYS_OPENAT {
        Some(Syscall::Openat)
    } else if num == SYS_CLOSE {
        Some(Syscall::Close)
    } else if num == SYS_READ {
        Some(Syscall::Read)
    } else if num == SYS_WRITE {
        Some(Syscall::Write)
    } else if num == SYS_WRITEV {
        Some(Syscall::Writev)
    } else if num == SYS_EXIT_GROUP {
        Some(Syscall::ExitGroup)
    } else if num == SYS_EXIT {
        Some(Syscall::Exit)
    } else if num == SYS_MMAP {
        Some(Syscall::Mmap)
    } else {
        None
    }
}

/// `axerrno::LinuxError::ENOSYS.code()`: the error number of a system call
/// that does not exist, which is 38.
#[verifier::external_body]
fn enosys_code() -> (r: i32)
    ensures
        r == 38,
{
    axerrno::LinuxError::ENOSYS.code()
}

/// Decides which system call `num` asks for. A number that names none
/// gives the error value to return in its place: the negated error number
/// of a missing system call.
pub fn handle_syscall(num: usize) -> (r: Result<Syscall, isize>)
    ensures
        r == match spec_syscall_of(num) {
            Some(call) => Ok::<Syscall, isize>(call),
            None => Err(-38isize),
        },
{
    if num == SYS_IOCTL {
        Ok(Syscall::Ioctl)
    } else if num == SYS_SET_TID_ADDRESS {
        Ok(Syscall::SetTidAddress)
    } else if num == SYS_OPENAT {
        Ok(Syscall::Openat)
    } else if num == SYS_CLOSE {
        Ok(Syscall::Close)
    } else if num == SYS_READ {
        Ok(Syscall::Read)
    } else if num == SYS_WRITE {
        Ok(Syscall::Write)
    } else if num == SYS_WRITEV {
        Ok(Syscall::Writev)
    } else if num == SYS_EXIT_GROUP {
        Ok(Syscall::ExitGroup)
    } else if num == SYS_EXIT {
        Ok(Syscall::Exit)
    } else if num == SYS_MMAP {
        Ok(Syscall::Mmap)
    } else {
        let code = enosys_code();
        Err(-(code as isize))
    }
}

/// The length of a mapping of `length` bytes, rounded up to whole pages.
pub open spec fn spec_aligned_len(length: usize) -> int {
    if length % PAGE_SIZE_4K == 0 {
        length as int
    } else {
        length + PAGE_SIZE_4K - length % PAGE_SIZE_4K
    }
}

/// Where a mapping request places its region, and how long the region is:
/// at the lowest free address for `length` bytes at or above `addr`, with
/// the length rounded up to whole pages. There is no place where no
/// address is free, or where the rounded length is not a valid request at
/// the address found.
pub open spec fn spec_mmap_place<R: PageReader>(
    v: AddressSpaceView<R>,
    addr: usize,
    length: usize,
) -> Option<(usize, usize)> {
    match spec_first_free(v.regions, addr, length, VirtAddrRange { start: v.base, end: v.end }) {
        Some(vaddr) => if spec_aligned_len(length) <= usize::MAX && v.spec_valid_request(
            vaddr,
            spec_aligned_len(length) as usize,
        ) {
            Some((vaddr, spec_aligned_len(length) as usize))
        } else {
            None
        },
        None => None,
    }
}

/// Serves a mapping request.
///
/// The region is placed at the lowest free page-aligned address at or
/// above `addr`, its length is `length` rounded up to whole pages, and
/// its flags are those of `prot` together with user access. A request
/// with `MAP_ANONYMOUS` among `flags` gets a region whose pages are
/// allocated as they are touched; any other request gets a region that is
/// read from `file` at `offset`, and fails without a file.
///
/// Returns the region's first address, or `MMAP_FAILED` where the request
/// fails, which changes nothing.
pub fn sys_mmap<R: PageReader>(
    aspace: &mut AddressSpace<R>,
    phys: &mut PhysMemory,
    addr: usize,
    length: usize,
    prot: i32,
    flags: i32,
    file: Option<Arc<R>>,
    offset: isize,
) -> (r: isize)
    requires
        old(aspace).wf(),
        old(phys).wf(),
    ensures
        final(aspace).wf(),
        final(phys).wf(),
        final(phys)@ == old(phys)@,
        match spec_mmap_place(old(aspace)@, addr, length) {
            Some((vaddr, len)) => {
                let map_flags = spec_flags_of_prot(MmapProt { bits: prot & 7 });
                if flags & MAP_ANONYMOUS == MAP_ANONYMOUS {
                    &&& r == vaddr as isize
                    &&& final(aspace)@ == old(aspace)@.spec_with_region(
                        Region {
                            start: vaddr,
                            size: len,
                            flags: map_flags,
                            backend: Backend::Alloc { populate: false },
                        },
                    )
                } else {
                    match file {
                        Some(reader) => {
                            &&& r == vaddr as isize
                            &&& final(aspace)@ == old(aspace)@.spec_with_region(
                                Region {
                                    start: vaddr,
                                    size: len,
                                    flags: map_flags,
                                    backend: Backend::FileBacked {
                                        reader,
                                        file_offset: offset as usize,
                                        area_start: vaddr,
                                    },
                                },
                            )
                        },
                        None => r == MMAP_FAILED && final(aspace)@ == old(aspace)@,
                    }
                }
            },
            None => r == MMAP_FAILED && final(aspace)@ == old(aspace)@,
        },
{
    let limit = VirtAddrRange::from_start_size(aspace.base(), aspace.size());
    let vaddr = match aspace.find_free_area(addr, length, limit) {
        Some(vaddr) => vaddr,
        None => {
            return MMAP_FAILED;
        },
    };
    let map_flags: MappingFlags = MappingFlags::from(MmapProt::from_bits_truncate(prot));
    let rest = length % PAGE_SIZE_4K;
    let aligned_len = if rest == 0 {
        length
    } else {
        match length.checked_add(PAGE_SIZE_4K - rest) {
            Some(len) => len,
            None => {
                return MMAP_FAILED;
            },
        }
    };
    let request = MmapFlags::from_bits_truncate(flags);
    proof {
        let f = flags;
        assert(((f & 0x24033i32) & 0x20i32 == 0x20i32) == (f & 0x20i32 == 0x20i32)) by (bit_vector);
    }
    let mapped = if request.contains(MAP_ANONYMOUS) {
        aspace.map_alloc(vaddr, aligned_len, map_flags, false, phys)
    } else {
        match file {
            Some(reader) => aspace.map_file_backed(
                vaddr,
                aligned_len,
                map_flags,
                #[verifier::truncate]
                (offset as usize),
                reader,
                phys,
            ),
            None => {
                return MMAP_FAILED;
            },
        }
    };
    match mapped {
        Ok(_) => #[verifier::truncate]
        (vaddr as isize),
        Err(_) => MMAP_FAILED,
    }
}

/// What the trap handler does after a page fault.
#[derive(Clone, Copy, Debug, PartialEq, Eq, Structural)]
pub enum FaultAction {
    /// The fault came from kernel mode and is not handled here: report it
    /// as unresolved.
    Unhandled,
    /// The fault is resolved: retry the faulting access.
    Resolved,
    /// The fault cannot be resolved: end the faulting task.
    KillTask,
}

/// Serves a page fault at `vaddr` for the access `access`.
///
/// A fault from kernel mode is never resolved and changes nothing. A fault
/// from user mode goes to the address space; where it stays unresolved the
/// task has to be ended.
pub fn handle_user_page_fault<R: PageReader>(
    aspace: &mut AddressSpace<R>,
    phys: &mut PhysMemory,
    vaddr: VirtAddr,
    access: MappingFlags,
    is_user: bool,
) -> (r: FaultAction)
    requires
        old(aspace).wf(),
        old(phys).wf(),
    ensures
        final(aspace).wf(),
        final(phys).wf(),
        final(aspace)@.base == old(aspace)@.base,
        final(aspace)@.end == old(aspace)@.end,
        final(aspace)@.regions == old(aspace)@.regions,
        r is Unhandled <==> !is_user,
        !is_user ==> final(aspace)@ == old(aspace)@ && final(phys)@ == old(phys)@,
        is_user ==> match old(aspace)@.spec_fault_region(vaddr, access) {
            None => r is KillTask && final(aspace)@ == old(aspace)@ && final(phys)@ == old(phys)@,
            Some(i) => old(aspace)@.regions[i].backend.spec_fault_post(
                vaddr,
                old(aspace)@.regions[i].flags,
                old(aspace)@.pt,
                old(phys)@,
                final(aspace)@.pt,
                final(phys)@,
                r is Resolved,
            ),
        },
{
    if !is_user {
        return FaultAction::Unhandled;
    }
    if aspace.handle_page_fault(vaddr, access, phys) {
        FaultAction::Resolved
    } else {
        FaultAction::KillTask
    }
}

/// Maps the user stack: the topmost `USER_STACK_SIZE` bytes of the address
/// space, readable and writable from user mode, with pages allocated at
/// once if `populating` is set and as they are touched otherwise. Returns
/// the top of the stack.
///
/// Fails with `InvalidParam` where the address space is smaller than the
/// stack, and as [`AddressSpace::map_alloc`] does; a failure changes
/// nothing.
pub fn init_user_stack<R: PageReader>(
    uspace: &mut AddressSpace<R>,
    phys: &mut PhysMemory,
    populating: bool,
) -> (r: Result<VirtAddr, MappingError>)
    requires
        old(uspace).wf(),
        old(phys).wf(),
    ensures
        final(uspace).wf(),
        final(phys).wf(),
        r == if old(uspace)@.end < USER_STACK_SIZE || !old(uspace)@.spec_valid_request(
            (old(uspace)@.end - USER_STACK_SIZE) as usize,
            USER_STACK_SIZE,
        ) {
            Err::<VirtAddr, MappingError>(MappingError::InvalidParam)
        } else if populating && spec_available_pages(old(phys)@.heap) < USER_STACK_SIZE
            / PAGE_SIZE_4K {
            Err(MappingError::NoMemory)
        } else {
            Ok(old(uspace)@.end)
        },
        r is Err ==> final(uspace)@ == old(uspace)@ && final(phys)@ == old(phys)@,
        r is Ok ==> {
            &&& final(uspace)@.regions == old(uspace)@.spec_with_region(
                Region {
                    start: (old(uspace)@.end - USER_STACK_SIZE) as usize,
                    size: USER_STACK_SIZE,
                    flags: MappingFlags { bits: READ | WRITE | USER },
                    backend: Backend::Alloc { populate: populating },
                },
            ).regions
            &&& !populating ==> final(uspace)@.pt == old(uspace)@.pt && final(phys)@ == old(phys)@
        },
{
    let ustack_top = uspace.end();
    if ustack_top < USER_STACK_SIZE {
        return Err(MappingError::InvalidParam);
    }
    let ustack_vaddr = ustack_top - USER_STACK_SIZE;
    let flags = MappingFlags::from_bits_truncate(READ | WRITE | USER);
    proof {
        assert((1usize | 2usize | 8usize) & 63usize == 1usize | 2usize | 8usize) by (bit_vector);
    }
    match uspace.map_alloc(ustack_vaddr, USER_STACK_SIZE, flags, populating, phys) {
        Ok(_) => Ok(ustack_top),
        Err(e) => Err(e),
    }
}

} // verus!
