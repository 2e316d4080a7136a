//! Virtual-memory core of a small kernel: a bucketed byte allocator, mapping
//! backends with lazy page materialisation, and the address space that owns
//! a page table and a set of non-overlapping regions.

pub mod addr;
pub mod allocator;
pub mod aspace;
pub mod backend;
pub mod flags;
pub mod hash;
pub mod log;
pub mod paging;
pub mod phys;
pub mod region;
pub mod syscall;
