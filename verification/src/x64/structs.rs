//! The format of x64 page table entries, and addresses that x64 reserves.
use vstd::prelude::*;
use crate::arch::PageTableEntry;
use crate::attributes::{
    MemoryAttributes, ACCESS_MASK, EXECUTE_PROTECT, READ_ONLY, READ_PROTECT,
};
use crate::error::PtError;
use crate::structs::{PageLevel, PhysicalAddress};

verus! {

/// The bits of CR3 that hold the address of the root table.
pub const CR3_PAGE_BASE_ADDRESS_MASK: u64 = 0x000F_FFFF_FFFF_F000;

/// The first address of the last root entry, with four levels.
pub const ZERO_VA_4_LEVEL: u64 = 0xFFFF_FF80_0000_0000;

/// The first address of the last root entry, with five levels.
pub const ZERO_VA_5_LEVEL: u64 = 0xFFFF_0000_0000_0000;

/// The last address below the self map, with four levels.
pub const MAX_VA_4_LEVEL: u64 = 0xFFFF_FEFF_FFFF_FFFF;

/// The last address below the self map, with five levels.
pub const MAX_VA_5_LEVEL: u64 = 0xFFFD_FFFF_FFFF_FFFF;

pub const FOUR_LEVEL_PML4_SELF_MAP_BASE: u64 = 0xFFFF_FF7F_BFDF_E000;

pub const FOUR_LEVEL_PDP_SELF_MAP_BASE: u64 = 0xFFFF_FF7F_BFC0_0000;

pub const FOUR_LEVEL_PD_SELF_MAP_BASE: u64 = 0xFFFF_FF7F_8000_0000;

pub const FOUR_LEVEL_PT_SELF_MAP_BASE: u64 = 0xFFFF_FF00_0000_0000;

pub const FIVE_LEVEL_PML5_SELF_MAP_BASE: u64 = 0xFFFE_FF7F_BFDF_E000;

pub const FIVE_LEVEL_PML4_SELF_MAP_BASE: u64 = 0xFFFE_FF7F_BFC0_0000;

pub const FIVE_LEVEL_PDP_SELF_MAP_BASE: u64 = 0xFFFE_FF7F_8000_0000;

pub const FIVE_LEVEL_PD_SELF_MAP_BASE: u64 = 0xFFFE_FF00_0000_0000;

pub const FIVE_LEVEL_PT_SELF_MAP_BASE: u64 = 0xFFFE_0000_0000_0000;

/// The entry is in use.
pub const ENTRY_PRESENT: u64 = 0x1;

/// What the entry maps may be written.
pub const ENTRY_READ_WRITE: u64 = 0x2;

/// What the entry maps may be accessed from user mode.
pub const ENTRY_USER: u64 = 0x4;

/// The entry maps memory, at a level where it could also point to a table.
pub const ENTRY_PAGE_SIZE: u64 = 0x80;

/// What the entry maps may not be executed.
pub const ENTRY_NO_EXECUTE: u64 = 0x8000_0000_0000_0000;

/// The physical address.
pub const ENTRY_ADDRESS: u64 = 0x000F_FFFF_FFFF_F000;

/// What an update leaves as it is: caching, accessed, dirty, global, and the bits that are
/// free for software.
pub const ENTRY_KEPT: u64 = 0x7FF0_0000_0000_0F78;

/// An x64 page table entry.
#[derive(Clone, Copy, Debug, PartialEq, Eq, Structural)]
pub struct PageTableEntryX64 {
    pub bits: u64,
}

impl PageTableEntry for PageTableEntryX64 {
    open spec fn word(&self) -> u64 {
        self.bits
    }

    open spec fn present(word: u64) -> bool {
        word & ENTRY_PRESENT != 0
    }

    open spec fn next_address(word: u64) -> u64 {
        word & ENTRY_ADDRESS
    }

    open spec fn attributes(word: u64) -> u64 {
        (if word & ENTRY_PRESENT != 0 {
            0
        } else {
            READ_PROTECT
        }) | (if word & ENTRY_READ_WRITE != 0 {
            0
        } else {
            READ_ONLY
        }) | (if word & ENTRY_NO_EXECUTE != 0 {
            EXECUTE_PROTECT
        } else {
            0
        })
    }

    open spec fn restrictions(word: u64) -> u64 {
        Self::attributes(word)
    }

    open spec fn leaf(word: u64, n: nat) -> bool {
        n <= 1 || (n <= 3 && word & ENTRY_PAGE_SIZE != 0)
    }

    open spec fn address_limit() -> int {
        0x10_0000_0000_0000
    }

    open spec fn supported(attributes: u64) -> bool {
        true
    }

    open spec fn stored(attributes: u64) -> u64 {
        attributes & ACCESS_MASK
    }

    open spec fn updated(word: u64, attributes: u64, pa: u64, leaf_entry: bool, n: nat) -> u64 {
        (word & ENTRY_KEPT) | (pa & ENTRY_ADDRESS) | ENTRY_USER | (if attributes & READ_PROTECT
            != 0 {
            0
        } else {
            ENTRY_PRESENT
        }) | (if attributes & READ_ONLY != 0 {
            0
        } else {
            ENTRY_READ_WRITE
        }) | (if attributes & EXECUTE_PROTECT != 0 {
            ENTRY_NO_EXECUTE
        } else {
            0
        }) | (if leaf_entry && n > 1 {
            ENTRY_PAGE_SIZE
        } else {
            0
        })
    }

    proof fn lemma_word(word: u64) {
        assert(word & 0x000F_FFFF_FFFF_F000u64 < 0x10_0000_0000_0000u64 && (word
            & 0x000F_FFFF_FFFF_F000u64) % 0x1000 == 0) by (bit_vector);
        assert(0u64 & 1 == 0) by (bit_vector);
        let p = word & ENTRY_PRESENT != 0;
        let w = word & ENTRY_READ_WRITE != 0;
        let x = word & ENTRY_NO_EXECUTE != 0;
        let a = Self::attributes(word);
        assert((p ==> a & 0x2000 == 0) && a & 0x2_6000 == a) by (bit_vector)
            requires
                a == (if p { 0u64 } else { 0x2000 }) | (if w { 0u64 } else { 0x2_0000 }) | (if x {
                    0x4000u64
                } else {
                    0
                }),
        ;
    }

    proof fn lemma_updated(word: u64, attributes: u64, pa: u64, leaf_entry: bool, n: nat) {
        let a = attributes;
        let s = leaf_entry && n > 1;
        let w = Self::updated(word, attributes, pa, leaf_entry, n);
        assert({
            &&& (w & 0x1 != 0) == (a & 0x2000 == 0)
            &&& (w & 0x2 != 0) == (a & 0x2_0000 == 0)
            &&& (w & 0x8000_0000_0000_0000 != 0) == (a & 0x4000 != 0)
            &&& (w & 0x80 != 0) == s
            &&& w & 0x000F_FFFF_FFFF_F000 == pa & 0x000F_FFFF_FFFF_F000
        }) by (bit_vector)
            requires
                w == (word & 0x7FF0_0000_0000_0F78) | (pa & 0x000F_FFFF_FFFF_F000) | 0x4 | (if a
                    & 0x2000 != 0 {
                    0u64
                } else {
                    0x1
                }) | (if a & 0x2_0000 != 0 {
                    0u64
                } else {
                    0x2
                }) | (if a & 0x4000 != 0 {
                    0x8000_0000_0000_0000u64
                } else {
                    0
                }) | (if s {
                    0x80u64
                } else {
                    0
                }),
        ;
        assert(pa & 0x000F_FFFF_FFFF_F000 == (pa - pa % 0x1000) % 0x10_0000_0000_0000)
            by (bit_vector);
        assert({
            &&& a & 0x2_6000 == (if a & 0x2000 == 0 {
                0u64
            } else {
                0x2000
            }) | (if a & 0x2_0000 == 0 {
                0u64
            } else {
                0x2_0000
            }) | (if a & 0x4000 != 0 {
                0x4000u64
            } else {
                0
            })
            &&& (a & 0x2_6000) & 0x2000 == a & 0x2000
        }) by (bit_vector);
    }

    fn from_word(word: u64) -> (r: Self) {
        PageTableEntryX64 { bits: word }
    }

    fn to_word(&self) -> (r: u64) {
        self.bits
    }

    fn update_fields(
        &mut self,
        attributes: MemoryAttributes,
        pa: PhysicalAddress,
        leaf_entry: bool,
        level: PageLevel,
    ) -> (r: Result<(), PtError>) {
        let present: u64 = if attributes.bits & READ_PROTECT != 0 { 0 } else { ENTRY_PRESENT };
        let read_write: u64 = if attributes.bits & READ_ONLY != 0 { 0 } else { ENTRY_READ_WRITE };
        let no_execute: u64 = if attributes.bits & EXECUTE_PROTECT != 0 {
            ENTRY_NO_EXECUTE
        } else {
            0
        };
        let page_size: u64 = if leaf_entry && !level.is_lowest_level() {
            ENTRY_PAGE_SIZE
        } else {
            0
        };
        self.bits = (self.bits & ENTRY_KEPT) | (pa.value & ENTRY_ADDRESS) | ENTRY_USER | present
            | read_write | no_execute | page_size;
        Ok(())
    }

    fn get_present_bit(&self) -> (r: bool) {
        self.bits & ENTRY_PRESENT != 0
    }

    fn set_present_bit(&mut self, value: bool)
        ensures
            final(self).bits == if value {
                old(self).bits | ENTRY_PRESENT
            } else {
                old(self).bits & !ENTRY_PRESENT
            },
    {
        let ghost before = self.bits;
        if value {
            self.bits = self.bits | ENTRY_PRESENT;
        } else {
            self.bits = self.bits & !ENTRY_PRESENT;
        }
        proof {
            let after = self.bits;
            assert({
                &&& (after & 1 != 0) == value
                &&& (value == (before & 1 != 0) ==> after == before)
                &&& after & 0x000F_FFFF_FFFF_F000 == before & 0x000F_FFFF_FFFF_F000
                &&& after & 0x80 == before & 0x80
                &&& after & 0x2 == before & 0x2
                &&& after & 0x8000_0000_0000_0000 == before & 0x8000_0000_0000_0000
            }) by (bit_vector)
                requires
                    after == if value { before | 1 } else { before & !1u64 },
            ;
            let w = if before & ENTRY_READ_WRITE != 0 {
                0
            } else {
                READ_ONLY
            };
            let x = if before & ENTRY_NO_EXECUTE != 0 {
                EXECUTE_PROTECT
            } else {
                0
            };
            assert((0u64 | w | x) & !0x2000u64 == (0x2000u64 | w | x) & !0x2000u64) by (bit_vector);
        }
    }

    fn get_next_address(&self) -> (r: PhysicalAddress) {
        PhysicalAddress::new(self.bits & ENTRY_ADDRESS)
    }

    fn get_attributes(&self) -> (r: MemoryAttributes) {
        let read_protect: u64 = if self.bits & ENTRY_PRESENT != 0 { 0 } else { READ_PROTECT };
        let read_only: u64 = if self.bits & ENTRY_READ_WRITE != 0 { 0 } else { READ_ONLY };
        let execute_protect: u64 = if self.bits & ENTRY_NO_EXECUTE != 0 {
            EXECUTE_PROTECT
        } else {
            0
        };
        MemoryAttributes::from_bits(read_protect | read_only | execute_protect)
    }

    fn get_inheritable_attributes(&self) -> (r: MemoryAttributes) {
        self.get_attributes()
    }

    fn points_to_pa(&self, level: PageLevel) -> (r: bool) {
        match level {
            PageLevel::Level1 => true,
            PageLevel::Level2 | PageLevel::Level3 => self.bits & ENTRY_PAGE_SIZE != 0,
            PageLevel::Level4 | PageLevel::Level5 => false,
        }
    }

    fn unmap(&mut self) {
        self.bits = 0;
    }
}

} // verus!
