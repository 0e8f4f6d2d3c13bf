//! The format of AArch64 translation table entries, and addresses that AArch64 reserves.
use vstd::prelude::*;
use crate::arch::PageTableEntry;
use crate::attributes::{
    MemoryAttributes, CACHE_MASK, EXECUTE_PROTECT, READ_ONLY, READ_PROTECT, UNCACHEABLE, WRITEBACK,
    WRITE_COMBINING, WRITE_THROUGH,
};
use crate::error::PtError;
use crate::structs::{PageLevel, PhysicalAddress};

verus! {

/// The first address of the last root entry.
pub const ZERO_VA_4_LEVEL: u64 = 0x0000_FF80_0000_0000;

/// The last address below the self map.
pub const MAX_VA_4_LEVEL: u64 = 0x0000_FEFF_FFFF_FFFF;

/// The last address, with five levels.
pub const MAX_VA_5_LEVEL: u64 = 0x000F_FFFF_FFFF_FFFF;

pub const FOUR_LEVEL_LEVEL4_SELF_MAP_BASE: u64 = 0x0000_FF7F_BFDF_E000;

pub const FOUR_LEVEL_LEVEL3_SELF_MAP_BASE: u64 = 0x0000_FF7F_BFC0_0000;

pub const FOUR_LEVEL_LEVEL2_SELF_MAP_BASE: u64 = 0x0000_FF7F_8000_0000;

pub const FOUR_LEVEL_LEVEL1_SELF_MAP_BASE: u64 = 0x0000_FF00_0000_0000;

/// The entry is in use.
pub const ENTRY_VALID: u64 = 0x1;

/// The entry points to a table, or at the lowest level to a page.
pub const ENTRY_TABLE: u64 = 0x2;

/// Which of the memory types is in force.
pub const ENTRY_MEMORY_TYPE: u64 = 0x1C;

/// The memory type for write-combining.
pub const MEMORY_TYPE_WRITE_COMBINING: u64 = 0x4;

/// The memory type for write-through caching.
pub const MEMORY_TYPE_WRITE_THROUGH: u64 = 0x8;

/// The memory type for write-back caching.
pub const MEMORY_TYPE_WRITEBACK: u64 = 0xC;

/// What the entry maps may not be written.
pub const ENTRY_READ_ONLY: u64 = 0x80;

/// Accesses are shared within the inner domain.
pub const ENTRY_INNER_SHAREABLE: u64 = 0x300;

/// The entry has been accessed.
pub const ENTRY_ACCESSED: u64 = 0x400;

/// The physical address.
pub const ENTRY_ADDRESS: u64 = 0x0000_FFFF_FFFF_F000;

/// What the entry maps may be executed neither with nor without privileges.
pub const ENTRY_NO_EXECUTE: u64 = 0x0060_0000_0000_0000;

/// What an update leaves as it is: the bits that are free for software.
pub const ENTRY_KEPT: u64 = 0x0780_0000_0000_0000;

/// Nothing below the table may be executed.
pub const ENTRY_TABLE_NO_EXECUTE: u64 = 0x1800_0000_0000_0000;

/// Nothing below the table may be written.
pub const ENTRY_TABLE_READ_ONLY: u64 = 0x4000_0000_0000_0000;

/// The attributes that an entry can hold.
pub const STORED_MASK: u64 = 0x2_600F;

/// The cache attribute that an entry selects.
pub open spec fn cache_attribute(word: u64) -> u64 {
    let memory_type = word & ENTRY_MEMORY_TYPE;
    if memory_type == MEMORY_TYPE_WRITE_COMBINING {
        WRITE_COMBINING
    } else if memory_type == MEMORY_TYPE_WRITE_THROUGH {
        WRITE_THROUGH
    } else if memory_type == MEMORY_TYPE_WRITEBACK {
        WRITEBACK
    } else {
        UNCACHEABLE
    }
}

/// The bits that select a cache attribute, with the shareability that goes with it.
pub open spec fn memory_type(attributes: u64) -> u64 {
    let cache = attributes & CACHE_MASK;
    if cache == WRITE_COMBINING {
        MEMORY_TYPE_WRITE_COMBINING
    } else if cache == WRITE_THROUGH {
        MEMORY_TYPE_WRITE_THROUGH | ENTRY_INNER_SHAREABLE
    } else if cache == WRITEBACK {
        MEMORY_TYPE_WRITEBACK | ENTRY_INNER_SHAREABLE
    } else {
        0
    }
}

/// An AArch64 translation table entry.
#[derive(Clone, Copy, Debug, PartialEq, Eq, Structural)]
pub struct PageTableEntryAArch64 {
    pub bits: u64,
}

impl PageTableEntry for PageTableEntryAArch64 {
    open spec fn word(&self) -> u64 {
        self.bits
    }

    open spec fn present(word: u64) -> bool {
        word & ENTRY_VALID != 0
    }

    open spec fn next_address(word: u64) -> u64 {
        word & ENTRY_ADDRESS
    }

    open spec fn attributes(word: u64) -> u64 {
        (if word & ENTRY_VALID != 0 {
            0
        } else {
            READ_PROTECT
        }) | (if word & ENTRY_READ_ONLY != 0 {
            READ_ONLY
        } else {
            0
        }) | (if word & ENTRY_NO_EXECUTE != 0 {
            EXECUTE_PROTECT
        } else {
            0
        }) | cache_attribute(word)
    }

    open spec fn restrictions(word: u64) -> u64 {
        (if word & ENTRY_TABLE_READ_ONLY != 0 {
            READ_ONLY
        } else {
            0
        }) | (if word & ENTRY_TABLE_NO_EXECUTE != 0 {
            EXECUTE_PROTECT
        } else {
            0
        })
    }

    open spec fn leaf(word: u64, n: nat) -> bool {
        n <= 1 || (n <= 3 && word & ENTRY_TABLE == 0)
    }

    open spec fn address_limit() -> int {
        0x1_0000_0000_0000
    }

    open spec fn supported(attributes: u64) -> bool {
        let cache = attributes & CACHE_MASK;
        cache == UNCACHEABLE || cache == WRITE_COMBINING || cache == WRITE_THROUGH || cache
            == WRITEBACK
    }

    open spec fn stored(attributes: u64) -> u64 {
        attributes & STORED_MASK
    }

    open spec fn updated(word: u64, attributes: u64, pa: u64, leaf_entry: bool, n: nat) -> u64 {
        (word & ENTRY_KEPT) | (pa & ENTRY_ADDRESS) | ENTRY_ACCESSED | memory_type(attributes) | (
        if attributes & READ_PROTECT != 0 {
            0
        } else {
            ENTRY_VALID
        }) | (if attributes & READ_ONLY != 0 {
            ENTRY_READ_ONLY
        } else {
            0
        }) | (if attributes & EXECUTE_PROTECT != 0 {
            ENTRY_NO_EXECUTE
        } else {
            0
        }) | (if leaf_entry && n > 1 {
            0
        } else {
            ENTRY_TABLE
        })
    }

    proof fn lemma_word(word: u64) {
        assert(word & 0x0000_FFFF_FFFF_F000u64 < 0x1_0000_0000_0000u64 && (word
            & 0x0000_FFFF_FFFF_F000u64) % 0x1000 == 0 && 0u64 & 1 == 0) by (bit_vector);
        let p = word & ENTRY_VALID != 0;
        let w = word & ENTRY_READ_ONLY != 0;
        let x = word & ENTRY_NO_EXECUTE != 0;
        let c = cache_attribute(word);
        let a = Self::attributes(word);
        assert((p ==> a & 0x2000 == 0) && a & 0x2_600F == a && a & 0xF == c) by (bit_vector)
            requires
                c == 1 || c == 2 || c == 4 || c == 8,
                a == (if p { 0u64 } else { 0x2000 }) | (if w { 0x2_0000u64 } else { 0 }) | (if x {
                    0x4000u64
                } else {
                    0
                }) | c,
        ;
    }

    proof fn lemma_updated(word: u64, attributes: u64, pa: u64, leaf_entry: bool, n: nat) {
        let a = attributes;
        let t = memory_type(attributes);
        let s = leaf_entry && n > 1;
        let w = Self::updated(word, attributes, pa, leaf_entry, n);
        assert(0x8u64 | 0x300 == 0x308 && 0xCu64 | 0x300 == 0x30C) by (bit_vector);
        assert({
            &&& (w & 0x1 != 0) == (a & 0x2000 == 0)
            &&& (w & 0x80 != 0) == (a & 0x2_0000 != 0)
            &&& (w & 0x0060_0000_0000_0000 != 0) == (a & 0x4000 != 0)
            &&& (w & 0x2 == 0) == s
            &&& w & 0x0000_FFFF_FFFF_F000 == pa & 0x0000_FFFF_FFFF_F000
            &&& w & 0x1C == t & 0x1C
        }) by (bit_vector)
            requires
                t == 0 || t == 4 || t == 0x308 || t == 0x30C,
                w == (word & 0x0780_0000_0000_0000) | (pa & 0x0000_FFFF_FFFF_F000) | 0x400 | t | (
                if a & 0x2000 != 0 {
                    0u64
                } else {
                    0x1
                }) | (if a & 0x2_0000 != 0 {
                    0x80u64
                } else {
                    0
                }) | (if a & 0x4000 != 0 {
                    0x0060_0000_0000_0000u64
                } else {
                    0
                }) | (if s {
                    0u64
                } else {
                    0x2
                }),
        ;
        assert(0u64 & 0x1C == 0 && 4u64 & 0x1C == 4 && 0x308u64 & 0x1C == 8 && 0x30Cu64 & 0x1C
            == 0xC) by (bit_vector);
        assert(pa & 0x0000_FFFF_FFFF_F000 == (pa - pa % 0x1000) % 0x1_0000_0000_0000)
            by (bit_vector);
        let c = cache_attribute(w);
        assert(c == a & CACHE_MASK);
        assert({
            &&& a & 0x2_600F == (if a & 0x2000 == 0 {
                0u64
            } else {
                0x2000
            }) | (if a & 0x2_0000 != 0 {
                0x2_0000u64
            } else {
                0
            }) | (if a & 0x4000 != 0 {
                0x4000u64
            } else {
                0
            }) | c
            &&& (a & 0x2_600F) & 0x2000 == a & 0x2000
        }) by (bit_vector)
            requires
                c == a & 0xF,
        ;
    }

    fn from_word(word: u64) -> (r: Self) {
        PageTableEntryAArch64 { bits: word }
    }

    fn to_word(&self) -> (r: u64) {
        self.bits
    }

    fn update_fields(
        &mut self,
        attributes: MemoryAttributes,
        pa: PhysicalAddress,
        leaf_entry: bool,
        level: PageLevel,
    ) -> (r: Result<(), PtError>) {
        let cache: u64 = attributes.bits & CACHE_MASK;
        let memory_type: u64 = if cache == UNCACHEABLE {
            0
        } else if cache == WRITE_COMBINING {
            MEMORY_TYPE_WRITE_COMBINING
        } else if cache == WRITE_THROUGH {
            MEMORY_TYPE_WRITE_THROUGH | ENTRY_INNER_SHAREABLE
        } else if cache == WRITEBACK {
            MEMORY_TYPE_WRITEBACK | ENTRY_INNER_SHAREABLE
        } else {
            return Err(PtError::InvalidParameter);
        };
        let valid: u64 = if attributes.bits & READ_PROTECT != 0 { 0 } else { ENTRY_VALID };
        let read_only: u64 = if attributes.bits & READ_ONLY != 0 { ENTRY_READ_ONLY } else { 0 };
        let no_execute: u64 = if attributes.bits & EXECUTE_PROTECT != 0 {
            ENTRY_NO_EXECUTE
        } else {
            0
        };
        let table: u64 = if leaf_entry && !level.is_lowest_level() { 0 } else { ENTRY_TABLE };
        self.bits = (self.bits & ENTRY_KEPT) | (pa.value & ENTRY_ADDRESS) | ENTRY_ACCESSED
            | memory_type | valid | read_only | no_execute | table;
        Ok(())
    }

    fn get_present_bit(&self) -> (r: bool) {
        self.bits & ENTRY_VALID != 0
    }

    fn set_present_bit(&mut self, value: bool)
        ensures
            final(self).bits == if value {
                old(self).bits | ENTRY_VALID
            } else {
                old(self).bits & !ENTRY_VALID
            },
    {
        let ghost before = self.bits;
        if value {
            self.bits = self.bits | ENTRY_VALID;
        } else {
            self.bits = self.bits & !ENTRY_VALID;
        }
        proof {
            let after = self.bits;
            assert({
                &&& (after & 1 != 0) == value
                &&& (value == (before & 1 != 0) ==> after == before)
                &&& after & 0x0000_FFFF_FFFF_F000 == before & 0x0000_FFFF_FFFF_F000
                &&& after & 0x2 == before & 0x2
                &&& after & 0x80 == before & 0x80
                &&& after & 0x0060_0000_0000_0000 == before & 0x0060_0000_0000_0000
                &&& after & 0x1800_0000_0000_0000 == before & 0x1800_0000_0000_0000
                &&& after & 0x4000_0000_0000_0000 == before & 0x4000_0000_0000_0000
                &&& after & 0x1C == before & 0x1C
            }) by (bit_vector)
                requires
                    after == if value { before | 1 } else { before & !1u64 },
            ;
            let w = if before & ENTRY_READ_ONLY != 0 {
                READ_ONLY
            } else {
                0
            };
            let x = if before & ENTRY_NO_EXECUTE != 0 {
                EXECUTE_PROTECT
            } else {
                0
            };
            let c = cache_attribute(before);
            assert((0u64 | w | x | c) & !0x2000u64 == (0x2000u64 | w | x | c) & !0x2000u64) by (
            bit_vector);
        }
    }

    fn get_next_address(&self) -> (r: PhysicalAddress) {
        PhysicalAddress::new(self.bits & ENTRY_ADDRESS)
    }

    fn get_attributes(&self) -> (r: MemoryAttributes) {
        let memory_type: u64 = self.bits & ENTRY_MEMORY_TYPE;
        let cache: u64 = if memory_type == MEMORY_TYPE_WRITE_COMBINING {
            WRITE_COMBINING
        } else if memory_type == MEMORY_TYPE_WRITE_THROUGH {
            WRITE_THROUGH
        } else if memory_type == MEMORY_TYPE_WRITEBACK {
            WRITEBACK
        } else {
            UNCACHEABLE
        };
        let read_protect: u64 = if self.bits & ENTRY_VALID != 0 { 0 } else { READ_PROTECT };
        let read_only: u64 = if self.bits & ENTRY_READ_ONLY != 0 { READ_ONLY } else { 0 };
        let execute_protect: u64 = if self.bits & ENTRY_NO_EXECUTE != 0 {
            EXECUTE_PROTECT
        } else {
            0
        };
        MemoryAttributes::from_bits(read_protect | read_only | execute_protect | cache)
    }

    fn get_inheritable_attributes(&self) -> (r: MemoryAttributes) {
        let read_only: u64 = if self.bits & ENTRY_TABLE_READ_ONLY != 0 { READ_ONLY } else { 0 };
        let execute_protect: u64 = if self.bits & ENTRY_TABLE_NO_EXECUTE != 0 {
            EXECUTE_PROTECT
        } else {
            0
        };
        MemoryAttributes::from_bits(read_only | execute_protect)
    }

    fn points_to_pa(&self, level: PageLevel) -> (r: bool) {
        match level {
            PageLevel::Level1 => true,
            PageLevel::Level2 | PageLevel::Level3 => self.bits & ENTRY_TABLE == 0,
            PageLevel::Level4 | PageLevel::Level5 => false,
        }
    }

    fn unmap(&mut self) {
        self.bits = 0;
    }
}

} // verus!
