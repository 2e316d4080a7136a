//! Access flags of mappings and the protection bits of mapping requests.

use vstd::prelude::*;
use vstd::std_specs::convert::FromSpecImpl;

verus! {

/// The memory is readable.
pub const READ: usize = 1;

/// The memory is writable.
pub const WRITE: usize = 2;

/// The memory is executable.
pub const EXECUTE: usize = 4;

/// The memory is accessible from user mode.
pub const USER: usize = 8;

/// The memory is device memory.
pub const DEVICE: usize = 16;

/// The memory is uncached.
pub const UNCACHED: usize = 32;

/// Every bit that has a meaning in [`MappingFlags`].
pub const ALL_FLAGS: usize = 63;

/// Pages may be read.
pub const PROT_READ: i32 = 1;

/// Pages may be written.
pub const PROT_WRITE: i32 = 2;

/// Pages may be executed.
pub const PROT_EXEC: i32 = 4;

/// Every bit that has a meaning in [`MmapProt`].
pub const ALL_PROT: i32 = 7;

/// Share changes.
pub const MAP_SHARED: i32 = 0x1;

/// Changes are private.
pub const MAP_PRIVATE: i32 = 0x2;

/// Place the mapping exactly at the address asked for.
pub const MAP_FIXED: i32 = 0x10;

/// The mapping is not backed by a file.
pub const MAP_ANONYMOUS: i32 = 0x20;

/// Do not reserve swap space.
pub const MAP_NORESERVE: i32 = 0x4000;

/// The mapping is for a stack.
pub const MAP_STACK: i32 = 0x20000;

/// Every bit that has a meaning in [`MmapFlags`].
pub const ALL_MAP: i32 = 0x24033;

/// Access flags of a mapping: a set of the bits [`READ`], [`WRITE`],
/// [`EXECUTE`], [`USER`], [`DEVICE`] and [`UNCACHED`].
#[derive(Clone, Copy, Debug, PartialEq, Eq, Structural)]
pub struct MappingFlags {
    pub bits: usize,
}

impl MappingFlags {
    /// Whether every flag of `other` is a flag of `self`.
    pub open spec fn spec_contains(self, other: MappingFlags) -> bool {
        self.bits & other.bits == other.bits
    }

    /// The empty set of flags.
    pub fn empty() -> (r: Self)
        ensures
            r.bits == 0,
    {
        MappingFlags { bits: 0 }
    }

    /// The flags among `bits`; bits without a meaning are dropped.
    pub fn from_bits_truncate(bits: usize) -> (r: Self)
        ensures
            r.bits == bits & ALL_FLAGS,
    {
        MappingFlags { bits: bits & ALL_FLAGS }
    }

    /// The flags as bits.
    pub fn bits(&self) -> (r: usize)
        ensures
            r == self.bits,
    {
        self.bits
    }

    /// Whether every flag of `other` is a flag of `self`.
    #[verifier::when_used_as_spec(spec_contains)]
    pub fn contains(self, other: MappingFlags) -> (r: bool)
        ensures
            r == self.spec_contains(other),
    {
        self.bits & other.bits == other.bits
    }

    /// The flags of `self` together with those of `other`.
    pub fn union(self, other: MappingFlags) -> (r: Self)
        ensures
            r.bits == self.bits | other.bits,
    {
        MappingFlags { bits: self.bits | other.bits }
    }
}

/// Protection bits of a mapping request: a set of [`PROT_READ`],
/// [`PROT_WRITE`] and [`PROT_EXEC`].
#[derive(Clone, Copy, Debug, PartialEq, Eq, Structural)]
pub struct MmapProt {
    pub bits: i32,
}

impl MmapProt {
    /// Whether every bit of `mask` is set.
    pub open spec fn spec_contains(self, mask: i32) -> bool {
        self.bits & mask == mask
    }

    /// The protection bits among `bits`; other bits are dropped.
    pub fn from_bits_truncate(bits: i32) -> (r: Self)
        ensures
            r.bits == bits & ALL_PROT,
    {
        MmapProt { bits: bits & ALL_PROT }
    }

    /// Whether every bit of `mask` is set.
    #[verifier::when_used_as_spec(spec_contains)]
    pub fn contains(self, mask: i32) -> (r: bool)
        ensures
            r == self.spec_contains(mask),
    {
        self.bits & mask == mask
    }
}

/// Flags of a mapping request: a set of [`MAP_SHARED`], [`MAP_PRIVATE`],
/// [`MAP_FIXED`], [`MAP_ANONYMOUS`], [`MAP_NORESERVE`] and [`MAP_STACK`].
#[derive(Clone, Copy, Debug, PartialEq, Eq, Structural)]
pub struct MmapFlags {
    pub bits: i32,
}

impl MmapFlags {
    /// Whether every bit of `mask` is set.
    pub open spec fn spec_contains(self, mask: i32) -> bool {
        self.bits & mask == mask
    }

    /// The request flags among `bits`; other bits are dropped.
    pub fn from_bits_truncate(bits: i32) -> (r: Self)
        ensures
            r.bits == bits & ALL_MAP,
    {
        MmapFlags { bits: bits & ALL_MAP }
    }

    /// Whether every bit of `mask` is set.
    #[verifier::when_used_as_spec(spec_contains)]
    pub fn contains(self, mask: i32) -> (r: bool)
        ensures
            r == self.spec_contains(mask),
    {
        self.bits & mask == mask
    }
}

/// The access flags that a request with the protection `prot` asks for:
/// user access always, and read, write and execute as `prot` grants them.
pub open spec fn spec_flags_of_prot(prot: MmapProt) -> MappingFlags {
    MappingFlags {
        bits: USER | (if prot.spec_contains(PROT_READ) {
            READ
        } else {
            0
        }) | (if prot.spec_contains(PROT_WRITE) {
            WRITE
        } else {
            0
        }) | (if prot.spec_contains(PROT_EXEC) {
            EXECUTE
        } else {
            0
        }),
    }
}

impl From<MmapProt> for MappingFlags {
    fn from(value: MmapProt) -> (r: MappingFlags) {
        let mut bits: usize = USER;
        if value.contains(PROT_READ) {
            bits = bits | READ;
        }
        if value.contains(PROT_WRITE) {
            bits = bits | WRITE;
        }
        if value.contains(PROT_EXEC) {
            bits = bits | EXECUTE;
        }
        assert(8usize | 0 | 0 | 0 == 8 && 8usize | 1 == 8usize | 1 | 0 | 0 && 8usize | 2 == 8usize | 0
            | 2 | 0 && 8usize | 4 == 8usize | 0 | 0 | 4 && 8usize | 1 | 2 == 8usize | 1 | 2 | 0
            && 8usize | 1 | 4 == 8usize | 1 | 0 | 4 && 8usize | 2 | 4 == 8usize | 0 | 2 | 4)
            by (bit_vector);
        MappingFlags { bits }
    }
}

impl FromSpecImpl<MmapProt> for MappingFlags {
    open spec fn obeys_from_spec() -> bool {
        true
    }

    open spec fn from_spec(value: MmapProt) -> MappingFlags {
        spec_flags_of_prot(value)
    }
}

} // verus!
