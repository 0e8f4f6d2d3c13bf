//! Memory attributes of a mapping, as a set of flags.
use vstd::prelude::*;

verus! {

/// Flag: accesses are not cached.
pub const UNCACHEABLE: u64 = 0x1;

/// Flag: writes may be combined.
pub const WRITE_COMBINING: u64 = 0x2;

/// Flag: writes go through the cache.
pub const WRITE_THROUGH: u64 = 0x4;

/// Flag: writes stay in the cache until written back.
pub const WRITEBACK: u64 = 0x8;

/// Flag: the memory may not be read, so its pages are not present.
pub const READ_PROTECT: u64 = 0x2000;

/// Flag: the memory may not be executed.
pub const EXECUTE_PROTECT: u64 = 0x4000;

/// Flag: the memory may not be written.
pub const READ_ONLY: u64 = 0x2_0000;

/// The four flags that select how memory is cached.
pub const CACHE_MASK: u64 = 0xF;

/// The three flags that restrict access.
pub const ACCESS_MASK: u64 = 0x2_6000;

/// Whether a set of flags forbids reading.
pub open spec fn read_protected(bits: u64) -> bool {
    bits & READ_PROTECT != 0
}

/// A set of memory attribute flags.
#[derive(Clone, Copy, Debug, PartialEq, Eq, Structural)]
pub struct MemoryAttributes {
    pub bits: u64,
}

impl MemoryAttributes {
    /// The set of the given flags.
    pub fn from_bits(bits: u64) -> (r: Self)
        ensures
            r.bits == bits,
    {
        MemoryAttributes { bits }
    }

    /// No flag at all.
    pub fn empty() -> (r: Self)
        ensures
            r.bits == 0,
    {
        MemoryAttributes { bits: 0 }
    }

    /// Only the flag that forbids writing.
    pub fn read_only() -> (r: Self)
        ensures
            r.bits == READ_ONLY,
    {
        MemoryAttributes { bits: READ_ONLY }
    }

    /// Only the flag that forbids execution.
    pub fn execute_protect() -> (r: Self)
        ensures
            r.bits == EXECUTE_PROTECT,
    {
        MemoryAttributes { bits: EXECUTE_PROTECT }
    }

    /// Only the flag that forbids reading.
    pub fn read_protect() -> (r: Self)
        ensures
            r.bits == READ_PROTECT,
    {
        MemoryAttributes { bits: READ_PROTECT }
    }

    /// Only the flag for write-back caching.
    pub fn writeback() -> (r: Self)
        ensures
            r.bits == WRITEBACK,
    {
        MemoryAttributes { bits: WRITEBACK }
    }

    /// The flags of both sets.
    pub fn union(self, other: Self) -> (r: Self)
        ensures
            r.bits == self.bits | other.bits,
    {
        MemoryAttributes { bits: self.bits | other.bits }
    }
}

} // verus!
