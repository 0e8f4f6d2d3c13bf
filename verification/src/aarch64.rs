//! AArch64-specific page table management: the processor state, and the page table itself.
use vstd::prelude::*;
use crate::aarch64::structs::{
    PageTableEntryAArch64, FOUR_LEVEL_LEVEL1_SELF_MAP_BASE, FOUR_LEVEL_LEVEL2_SELF_MAP_BASE,
    FOUR_LEVEL_LEVEL3_SELF_MAP_BASE, FOUR_LEVEL_LEVEL4_SELF_MAP_BASE, MAX_VA_4_LEVEL,
    MAX_VA_5_LEVEL, ZERO_VA_4_LEVEL,
};
use crate::arch::{canonical_va, is_self_mapped_base, PageTableEntry, PageTableHal};
use crate::attributes::{MemoryAttributes, WRITEBACK};
use crate::error::PtError;
use crate::memory::{replay, MemoryOp, PageMemory};
use crate::page_allocator::{PageAllocator, Request};
use crate::page_table::PageTable;
use crate::paging::clear::{clears_through_window, ClearStep};
use crate::paging::read::{list_start, DumpEntry};
use crate::paging::{edit_range_error, range_error, PageTableInternal};
use crate::structs::{
    lemma_va_index, va_index, MappedRegion, PageLevel, PagingType, VirtualAddress, SIZE_16TB,
    SIZE_1GB, SIZE_1TB, SIZE_2MB, SIZE_4GB, SIZE_4KB, SIZE_4TB, SIZE_64GB,
};

pub mod structs;

verus! {

/// The number of virtual address bits that are used.
pub const MAX_VA_BITS: u64 = 48;

/// The bits of TCR_EL2 that are reserved and have to be set.
pub const TCR_EL2_RES1_BITS: u64 = 0x8080_0000;

/// Where TCR_EL2 holds the size of physical addresses.
pub const TCR_EL2_PS_SHIFT: u64 = 16;

/// Where TCR_EL1 holds the size of physical addresses.
pub const TCR_EL1_IPS_SHIFT: u64 = 32;

/// TG1, in bits 31 and 30: the upper half of the address space has pages of 4 KB. It is not
/// translated, but Cortex-A57 erratum 822227 asks for TG1[1], which is bit 31, to be set all the
/// same.
pub const TCR_EL1_TG1_4KB: u64 = 0x8000_0000;

/// The upper half of the address space is not translated.
pub const TCR_EL1_ED1: u64 = 0x80_0000;

/// Table walks are inner shareable.
pub const TCR_SH0_INNER_SHAREABLE: u64 = 0x3000;

/// Table walks are outer write-back cached.
pub const TCR_ORGN0_WB_WA: u64 = 0x400;

/// Table walks are inner write-back cached.
pub const TCR_IRGN0_WB_WA: u64 = 0x100;

/// The size of the virtual address space is 2 to the power of 64 less this.
pub const TCR_T0SZ_48_BIT_VA: u64 = 16;

pub const TCR_PS_4GB: u64 = 0;

pub const TCR_PS_64GB: u64 = 1;

pub const TCR_PS_1TB: u64 = 2;

pub const TCR_PS_4TB: u64 = 3;

pub const TCR_PS_16TB: u64 = 4;

pub const TCR_PS_256TB: u64 = 5;

/// The memory types that entries select by index: uncached, write-combining, write-through,
/// write-back.
pub const MAIR: u64 = 0xFFBB_4400;

/// TCR_EL2 but for the size of physical addresses.
pub const TCR_EL2_DEFAULTS: u64 = TCR_ORGN0_WB_WA | TCR_IRGN0_WB_WA | TCR_SH0_INNER_SHAREABLE
    | TCR_EL2_RES1_BITS | TCR_T0SZ_48_BIT_VA;

/// TCR_EL1 but for the size of physical addresses. TG1[1] is set, although the upper half of the
/// address space is not translated.
pub const TCR_EL1_DEFAULTS: u64 = TCR_ORGN0_WB_WA | TCR_IRGN0_WB_WA | TCR_SH0_INNER_SHAREABLE
    | TCR_T0SZ_48_BIT_VA | TCR_EL1_TG1_4KB | TCR_EL1_ED1;

/// The exception level that the processor runs at.
#[derive(Clone, Copy, Debug, PartialEq, Eq, Structural)]
pub enum ExceptionLevel {
    EL1,
    EL2,
}

/// The registers that paging depends on.
#[derive(Clone, Copy, Debug, PartialEq, Eq, Structural)]
pub struct AArch64Registers {
    /// The root of the page table in use.
    pub ttbr0: u64,
    /// How translation is controlled.
    pub tcr: u64,
    /// The memory types that entries select by index.
    pub mair: u64,
    /// How many bits physical addresses have.
    pub pa_bits: u64,
    pub exception_level: ExceptionLevel,
}

/// The paging type that TCR selects, if it is one with pages of 4 KB and with 40 to 52 bits of
/// virtual address.
pub open spec fn selected_paging_type(tcr: u64) -> Result<PagingType, PtError> {
    let granule = (tcr / 0x4000) % 4;
    let va_bits = 64 - tcr % 64;
    if granule != 0 {
        Err(PtError::UnsupportedPagingType)
    } else if 40 <= va_bits <= 48 {
        Ok(PagingType::Paging4Level)
    } else if 49 <= va_bits <= 52 {
        Ok(PagingType::Paging5Level)
    } else {
        Err(PtError::UnsupportedPagingType)
    }
}

/// Detects whether four or five levels are in use.
pub fn detect_paging_type(tcr: u64) -> (r: Result<PagingType, PtError>)
    ensures
        r == selected_paging_type(tcr),
{
    let tg0: u64 = (tcr >> 14) & 3;
    assert((tcr >> 14) & 3 == (tcr / 0x4000) % 4 && tcr & 0x3F == tcr % 64) by (bit_vector);
    if tg0 != 0 {
        return Err(PtError::UnsupportedPagingType);
    }
    let t0sz: u64 = tcr & 0x3F;
    let va_bits: u64 = 64 - t0sz;
    if 40 <= va_bits && va_bits <= 48 {
        Ok(PagingType::Paging4Level)
    } else if 49 <= va_bits && va_bits <= 52 {
        Ok(PagingType::Paging5Level)
    } else {
        Err(PtError::UnsupportedPagingType)
    }
}

/// How TCR says that physical addresses have so many bits, of which no more than the virtual
/// ones count.
pub open spec fn physical_size(pa_bits: u64) -> u64 {
    if pa_bits <= 32 {
        TCR_PS_4GB
    } else if pa_bits <= 36 {
        TCR_PS_64GB
    } else if pa_bits <= 40 {
        TCR_PS_1TB
    } else if pa_bits <= 42 {
        TCR_PS_4TB
    } else if pa_bits <= 44 {
        TCR_PS_16TB
    } else {
        TCR_PS_256TB
    }
}

/// The AArch64 processor.
#[derive(Clone, Copy, Debug, PartialEq, Eq, Structural)]
pub struct PageTableArchAArch64;

impl PageTableHal for PageTableArchAArch64 {
    type PTE = PageTableEntryAArch64;

    type Registers = AArch64Registers;

    open spec fn spec_default_attributes() -> u64 {
        WRITEBACK
    }

    open spec fn spec_sign_extends() -> bool {
        false
    }

    open spec fn spec_zero_va(paging_type: PagingType) -> Result<VirtualAddress, PtError> {
        match paging_type {
            PagingType::Paging4Level => Ok(VirtualAddress { value: ZERO_VA_4_LEVEL }),
            PagingType::Paging5Level => Err(PtError::UnsupportedPagingType),
        }
    }

    open spec fn spec_max_va(paging_type: PagingType) -> VirtualAddress {
        match paging_type {
            PagingType::Paging4Level => VirtualAddress { value: MAX_VA_4_LEVEL },
            PagingType::Paging5Level => VirtualAddress { value: MAX_VA_5_LEVEL },
        }
    }

    open spec fn self_map_defined(level: PageLevel, paging_type: PagingType) -> bool {
        paging_type is Paging4Level && level !is Level5
    }

    open spec fn active(registers: AArch64Registers, base: u64) -> bool {
        registers.ttbr0 == base
    }

    open spec fn installed(registers: AArch64Registers, base: u64, paging_type: PagingType) -> Result<
        AArch64Registers,
        PtError,
    > {
        match paging_type {
            PagingType::Paging4Level => Ok(
                AArch64Registers {
                    ttbr0: base,
                    tcr: match registers.exception_level {
                        ExceptionLevel::EL2 => TCR_EL2_DEFAULTS | (physical_size(registers.pa_bits)
                            << TCR_EL2_PS_SHIFT),
                        ExceptionLevel::EL1 => TCR_EL1_DEFAULTS | (physical_size(registers.pa_bits)
                            << TCR_EL1_IPS_SHIFT),
                    },
                    mair: MAIR,
                    ..registers
                },
            ),
            PagingType::Paging5Level => Err(PtError::UnsupportedPagingType),
        }
    }

    proof fn lemma_default_attributes(word: u64, pa: u64, n: nat) {
        assert(8u64 & 0xF == 8 && 8u64 & 0x2000 == 0 && 8u64 & 0x2_0000 == 0 && 8u64 & 0x4000 == 0
            && 8u64 & 0x2_600F == 8 && 0xCu64 | 0x300 == 0x30C && 0u64 | 0u64 == 0) by (bit_vector);
        let w = PageTableEntryAArch64::updated(word, 8, pa, false, n);
        assert(w & 0x1800_0000_0000_0000 == 0 && w & 0x4000_0000_0000_0000 == 0) by (bit_vector)
            requires
                w == (word & 0x0780_0000_0000_0000) | (pa & 0x0000_FFFF_FFFF_F000) | 0x400 | 0x30C
                    | 0x1 | 0 | 0 | 0x2,
        ;
    }

    proof fn lemma_zero_va(paging_type: PagingType) {
        assert(ZERO_VA_4_LEVEL as int % 0x1_0000_0000_0000 == 0xFF80_0000_0000);
    }

    fn default_attributes(&self) -> (r: MemoryAttributes) {
        MemoryAttributes::writeback()
    }

    fn sign_extends(&self) -> (r: bool) {
        false
    }

    fn paging_type_supported(&self, paging_type: PagingType) -> (r: Result<(), PtError>) {
        match paging_type {
            PagingType::Paging4Level | PagingType::Paging5Level => Ok(()),
        }
    }

    fn get_zero_va(&self, paging_type: PagingType) -> (r: Result<VirtualAddress, PtError>) {
        match paging_type {
            PagingType::Paging4Level => Ok(VirtualAddress::new(ZERO_VA_4_LEVEL)),
            PagingType::Paging5Level => Err(PtError::UnsupportedPagingType),
        }
    }

    fn get_max_va(&self, paging_type: PagingType) -> (r: Result<VirtualAddress, PtError>) {
        match paging_type {
            PagingType::Paging4Level => Ok(VirtualAddress::new(MAX_VA_4_LEVEL)),
            PagingType::Paging5Level => Ok(VirtualAddress::new(MAX_VA_5_LEVEL)),
        }
    }

    fn is_table_active(&self, registers: &AArch64Registers, base: u64) -> (r: bool) {
        registers.ttbr0 == base
    }

    fn install_page_table(
        &self,
        registers: &mut AArch64Registers,
        base: u64,
        paging_type: PagingType,
    ) -> (r: Result<(), PtError>) {
        if paging_type != PagingType::Paging4Level {
            return Err(PtError::UnsupportedPagingType);
        }
        let max_address_bits: u64 = if registers.pa_bits < MAX_VA_BITS {
            registers.pa_bits
        } else {
            MAX_VA_BITS
        };
        assert({
            &&& 1u64 << max_address_bits >= 1
            &&& (1u64 << max_address_bits <= 0x1_0000_0000) == (max_address_bits <= 32)
            &&& (1u64 << max_address_bits <= 0x10_0000_0000) == (max_address_bits <= 36)
            &&& (1u64 << max_address_bits <= 0x100_0000_0000) == (max_address_bits <= 40)
            &&& (1u64 << max_address_bits <= 0x400_0000_0000) == (max_address_bits <= 42)
            &&& (1u64 << max_address_bits <= 0x1000_0000_0000) == (max_address_bits <= 44)
        }) by (bit_vector)
            requires
                max_address_bits <= 48,
        ;
        let max_address: u64 = (1u64 << max_address_bits) - 1;
        let tcr_ps: u64 = if max_address < SIZE_4GB {
            TCR_PS_4GB
        } else if max_address < SIZE_64GB {
            TCR_PS_64GB
        } else if max_address < SIZE_1TB {
            TCR_PS_1TB
        } else if max_address < SIZE_4TB {
            TCR_PS_4TB
        } else if max_address < SIZE_16TB {
            TCR_PS_16TB
        } else {
            TCR_PS_256TB
        };
        let tcr: u64 = match registers.exception_level {
            ExceptionLevel::EL2 => TCR_EL2_DEFAULTS | (tcr_ps << TCR_EL2_PS_SHIFT),
            ExceptionLevel::EL1 => TCR_EL1_DEFAULTS | (tcr_ps << TCR_EL1_IPS_SHIFT),
        };
        registers.ttbr0 = base;
        registers.tcr = tcr;
        registers.mair = MAIR;
        Ok(())
    }

    fn level_supports_pa_entry(&self, level: PageLevel) -> (r: bool) {
        matches!(level, PageLevel::Level3 | PageLevel::Level2 | PageLevel::Level1)
    }

    fn get_self_mapped_base(
        &self,
        level: PageLevel,
        va: VirtualAddress,
        paging_type: PagingType,
    ) -> (r: u64) {
        let level4: u64 = va.get_index(PageLevel::Level4);
        let level3: u64 = va.get_index(PageLevel::Level3);
        let level2: u64 = va.get_index(PageLevel::Level2);
        let r: u64 = match level {
            PageLevel::Level5 => FOUR_LEVEL_LEVEL4_SELF_MAP_BASE,
            PageLevel::Level4 => FOUR_LEVEL_LEVEL4_SELF_MAP_BASE,
            PageLevel::Level3 => FOUR_LEVEL_LEVEL3_SELF_MAP_BASE + SIZE_4KB * level4,
            PageLevel::Level2 => FOUR_LEVEL_LEVEL2_SELF_MAP_BASE + SIZE_2MB * level4 + SIZE_4KB
                * level3,
            PageLevel::Level1 => FOUR_LEVEL_LEVEL1_SELF_MAP_BASE + SIZE_1GB * level4 + SIZE_2MB
                * level3 + SIZE_4KB * level2,
        };
        proof {
            let (i4, i3, i2, i1): (int, int, int, int) = match level {
                PageLevel::Level3 => (0x1FE, 0x1FE, 0x1FE, level4 as int),
                PageLevel::Level2 => (0x1FE, 0x1FE, level4 as int, level3 as int),
                PageLevel::Level1 => (0x1FE, level4 as int, level3 as int, level2 as int),
                _ => (0x1FE, 0x1FE, 0x1FE, 0x1FE),
            };
            lemma_va_index(r as int, 0, 0, i4, i3, i2, i1);
            assert forall|k: nat| 1 <= k <= paging_type.levels() implies #[trigger] va_index(
                k,
                r as int,
            ) == if k > paging_type.levels() - level.depth() {
                0x1FE
            } else {
                va_index(k + level.depth(), va.value as int)
            } by {
                assert(k == 1 || k == 2 || k == 3 || k == 4);
            }
        }
        r
    }
}

/// An AArch64 page table.
pub struct AArch64PageTable<P: PageAllocator> {
    arch: PageTableArchAArch64,
    internal: PageTableInternal<P>,
}

impl<P: PageAllocator> AArch64PageTable<P> {
    /// The tables of a page table that could perhaps not be had.
    pub open spec fn internal_of(r: Result<Self, PtError>) -> Result<
        PageTableInternal<P>,
        PtError,
    > {
        match r {
            Ok(table) => Ok(table.internal()),
            Err(e) => Err(e),
        }
    }

    /// What being well-formed gives a caller, who can then take over the same tables again.
    pub proof fn lemma_wf(&self)
        requires
            self.wf(),
        ensures
            self.internal().wf(),
            self.internal().root() % 0x1000 == 0,
            self.internal().spec_memory().wf(),
            self.internal().spec_memory()@ == self.internal().frames(),
    {
        self.internal.lemma_wf();
    }

    /// Builds a page table that maps nothing. Five levels are not supported; otherwise this
    /// fails exactly if the allocator refuses a page.
    pub fn new(page_allocator: P, paging_type: PagingType) -> (r: Result<Self, PtError>)
        ensures
            if paging_type is Paging5Level {
                r == Err::<Self, PtError>(PtError::UnsupportedPagingType)
            } else {
                exists|requests: Seq<Request<P>>| #[trigger]
                    PageTableInternal::new_outcome::<PageTableArchAArch64>(
                        page_allocator,
                        paging_type,
                        requests,
                        Self::internal_of(r),
                    )
            },
            r matches Ok(table) ==> table.wf(),
    {
        if paging_type == PagingType::Paging5Level {
            return Err(PtError::UnsupportedPagingType);
        }
        let arch = PageTableArchAArch64;
        match PageTableInternal::new(page_allocator, &arch, paging_type) {
            Ok(internal) => Ok(Self { arch, internal }),
            Err(e) => Err(e),
        }
    }

    /// Takes over the existing page table at `base`, whose tables `memory` holds, to read or
    /// edit it.
    pub fn from_existing(
        base: u64,
        memory: PageMemory,
        page_allocator: P,
        paging_type: PagingType,
    ) -> (r: Result<Self, PtError>)
        requires
            memory.wf(),
        ensures
            if base % 0x1000 != 0 {
                r == Err::<Self, PtError>(PtError::UnalignedPageBase)
            } else {
                &&& r matches Ok(table)
                &&& table.wf()
                &&& table.internal().root() == base
                &&& table.internal().spec_memory() == memory
                &&& table.internal().frames() == memory@
                &&& table.internal().spec_paging_type() == paging_type
                &&& table.internal().allocator() == page_allocator
                &&& table.internal().requests() == Seq::<Request<P>>::empty()
                &&& table.internal().spec_sound()
            },
    {
        let arch = PageTableArchAArch64;
        let internal = PageTableInternal::from_existing(
            page_allocator,
            base,
            memory,
            paging_type,
        )?;
        Ok(Self { arch, internal })
    }

    /// How many levels of tables there are.
    pub fn paging_type(&self) -> (r: PagingType)
        ensures
            r == self.internal().spec_paging_type(),
    {
        self.internal.paging_type()
    }

    /// Gives up the page table for its root.
    pub fn into_page_table_root(self) -> (r: u64)
        ensures
            r == self.internal().root(),
    {
        self.internal.into_page_table_root()
    }

    /// Every present leaf mapping, in the order of addresses. The attributes hold the
    /// restrictions that table entries impose.
    ///
    /// With `None` the list starts at address 0. With `Some(address)` its first region is the
    /// one that holds the address, or the next one after it. The reserved root entries, for
    /// the self map and for clearing pages, are left out.
    pub fn iter_mapped_regions(&self, start_address: Option<u64>) -> (r: Vec<MappedRegion>)
        requires
            self.wf(),
        ensures
            r@ == self.internal().regions_from::<PageTableArchAArch64>(
                list_start(self.internal().spec_paging_type(), start_address),
                self.internal().region_limit::<PageTableArchAArch64>(),
            ),
    {
        self.internal.iter_mapped_regions(&self.arch, start_address)
    }

    /// Takes over the page table that the processor uses. `memory` holds its tables.
    pub fn open_active(registers: &AArch64Registers, memory: PageMemory, page_allocator: P) -> (r:
        Result<Self, PtError>)
        requires
            memory.wf(),
        ensures
            match selected_paging_type(registers.tcr) {
                Err(e) => r == Err::<Self, PtError>(e),
                Ok(paging_type) => if registers.ttbr0 % 0x1000 != 0 {
                    r == Err::<Self, PtError>(PtError::UnalignedPageBase)
                } else {
                    &&& r matches Ok(table)
                    &&& table.wf()
                    &&& table.internal().root() == registers.ttbr0
                    &&& table.internal().spec_memory() == memory
                    &&& table.internal().frames() == memory@
                    &&& table.internal().spec_paging_type() == paging_type
                    &&& table.internal().allocator() == page_allocator
                    &&& table.internal().requests() == Seq::<Request<P>>::empty()
                    &&& table.internal().spec_sound()
                },
            },
    {
        let base: u64 = registers.ttbr0;
        let paging_type = detect_paging_type(registers.tcr)?;
        Self::from_existing(base, memory, page_allocator, paging_type)
    }

    /// Whether every page for a table was fit for one. Otherwise the tables cannot be relied on.
    pub fn is_sound(&self) -> (r: bool)
        ensures
            r == self.internal().spec_sound(),
    {
        self.internal.is_sound()
    }

    /// The memory that holds the tables.
    pub fn memory(&self) -> (r: &PageMemory)
        ensures
            *r == self.internal().spec_memory(),
            r@ == self.internal().frames(),
            self.wf() ==> r.wf(),
    {
        self.internal.memory()
    }

    /// Hands out the changes to the memory since the last time, in order. Carried out on
    /// memory that is as the tables were then, they bring it to where the tables are now.
    pub fn take_journal(&mut self) -> (r: Vec<MemoryOp>)
        requires
            old(self).wf(),
        ensures
            r@ == old(self).internal().spec_memory().journal(),
            old(self).internal().frames() == replay(
                old(self).internal().spec_memory().origin(),
                r@,
            ),
            final(self).wf(),
            final(self).internal().root() == old(self).internal().root(),
            final(self).internal().spec_paging_type() == old(self).internal().spec_paging_type(),
            final(self).internal().spec_sound() == old(self).internal().spec_sound(),
            final(self).internal().allocator() == old(self).internal().allocator(),
            final(self).internal().requests() == old(self).internal().requests(),
            final(self).internal().frames() == old(self).internal().frames(),
            final(self).internal().spec_memory().origin() == old(self).internal().frames(),
            final(self).internal().spec_memory().journal() == Seq::<MemoryOp>::empty(),
    {
        self.internal.take_journal()
    }

    /// Whether the tables have to be written through the self map, given what the processor
    /// uses.
    pub fn uses_self_map(&self, registers: &AArch64Registers) -> (r: bool)
        requires
            self.wf(),
        ensures
            r == (PageTableArchAArch64::active(*registers, self.internal().root())
                && self.internal().self_mapped::<PageTableArchAArch64>()),
    {
        self.internal.uses_self_map(&self.arch, registers)
    }

    /// Where entry `index` of the table in `table` can be written, given what the processor
    /// uses. The table is at `level`, and the entry translates `va`.
    pub fn entry_address(
        &self,
        registers: &AArch64Registers,
        table: u64,
        index: u64,
        level: PageLevel,
        va: u64,
    ) -> (r: u64)
        requires
            self.wf(),
            index < 512,
            table <= 0xFFFF_FFFF_FFFF_F000,
            PageTableArchAArch64::self_map_defined(level, self.internal().spec_paging_type()),
        ensures
            if PageTableArchAArch64::active(*registers, self.internal().root())
                && self.internal().self_mapped::<PageTableArchAArch64>() {
                &&& is_self_mapped_base(
                    self.internal().spec_paging_type().levels(),
                    level.depth(),
                    va as int,
                    r - 8 * index,
                )
                &&& r - 8 * index == canonical_va(
                    (r - 8 * index) % self.internal().spec_paging_type().space(),
                    self.internal().spec_paging_type(),
                    PageTableArchAArch64::spec_sign_extends(),
                )
            } else {
                r == table + 8 * index
            },
    {
        self.internal.entry_address(&self.arch, registers, table, index, level, va)
    }

    /// How the fresh page `page` is cleared, given what the processor uses.
    pub fn clear_steps(&self, registers: &AArch64Registers, page: u64) -> (r: Result<
        Vec<ClearStep>,
        PtError,
    >)
        requires
            self.wf(),
            page % 0x1000 == 0,
        ensures
            if PageTableArchAArch64::active(*registers, self.internal().root())
                && self.internal().self_mapped::<PageTableArchAArch64>() {
                match PageTableArchAArch64::spec_zero_va(self.internal().spec_paging_type()) {
                    Err(e) => r == Err::<Vec<ClearStep>, PtError>(e),
                    Ok(zero_va) => r matches Ok(steps) && clears_through_window::<
                        PageTableArchAArch64,
                    >(steps@, self.internal().spec_paging_type(), zero_va.value, page),
                }
            } else {
                r matches Ok(steps) && steps@ == seq![ClearStep::Zero { va: page }]
            },
    {
        self.internal.clear_steps(&self.arch, registers, page)
    }
}

impl<P: PageAllocator> PageTable for AArch64PageTable<P> {
    type Arch = PageTableArchAArch64;

    type Allocator = P;

    closed spec fn wf(&self) -> bool {
        self.internal.wf()
    }

    closed spec fn internal(&self) -> PageTableInternal<P> {
        self.internal
    }

    open spec fn query_error(paging_type: PagingType, address: u64, size: u64) -> Option<PtError> {
        range_error(paging_type, address, size)
    }

    open spec fn edit_error(paging_type: PagingType, address: u64, size: u64) -> Option<PtError> {
        edit_range_error::<PageTableArchAArch64>(paging_type, address, size)
    }

    fn map_memory_region(&mut self, address: u64, size: u64, attributes: MemoryAttributes) -> (r:
        Result<(), PtError>) {
        self.internal.map_memory_region(&self.arch, address, size, attributes)
    }

    fn unmap_memory_region(&mut self, address: u64, size: u64) -> (r: Result<(), PtError>) {
        self.internal.unmap_memory_region(&self.arch, address, size)
    }

    fn install_page_table(&mut self, registers: &mut AArch64Registers) -> (r: Result<(), PtError>) {
        self.internal.install_page_table(&self.arch, registers)
    }

    fn query_memory_region(&self, address: u64, size: u64) -> (r: Result<
        MemoryAttributes,
        PtError,
    >) {
        self.internal.query_memory_region(&self.arch, address, size)
    }

    fn dump_page_tables(&self, address: u64, size: u64) -> (r: Result<Vec<DumpEntry>, PtError>) {
        self.internal.dump_page_tables(&self.arch, address, size)
    }
}

/// Of a range that can be queried, only the last address decides whether its mappings can be
/// changed.
pub proof fn law_last_address_decides(paging_type: PagingType, address: u64, size: u64)
    requires
        range_error(paging_type, address, size) is None,
    ensures
        edit_range_error::<PageTableArchAArch64>(paging_type, address, size) is None <==> address
            + size - 1 <= PageTableArchAArch64::spec_max_va(paging_type).value,
{
    let start = address as int % paging_type.space();
    match paging_type {
        PagingType::Paging4Level => {
            assert(start == address as int % 0x1_0000_0000_0000);
        },
        PagingType::Paging5Level => {
            assert(start == address as int % 0x200_0000_0000_0000);
        },
    }
}

/// A page table that has been installed is the one that the processor uses, and the one that is
/// opened as active.
pub proof fn law_installed_is_active(
    registers: AArch64Registers,
    base: u64,
    paging_type: PagingType,
)
    ensures
        PageTableArchAArch64::installed(registers, base, paging_type) matches Ok(after) ==> {
            &&& PageTableArchAArch64::active(after, base)
            &&& after.ttbr0 == base
            &&& selected_paging_type(after.tcr) == Ok::<PagingType, PtError>(paging_type)
        },
{
    let ps = physical_size(registers.pa_bits);
    let el2 = TCR_EL2_DEFAULTS | (ps << TCR_EL2_PS_SHIFT);
    let el1 = TCR_EL1_DEFAULTS | (ps << TCR_EL1_IPS_SHIFT);
    assert((el2 / 0x4000) % 4 == 0 && el2 % 64 == 16) by (bit_vector)
        requires
            ps <= 5,
            el2 == 0x400u64 | 0x100 | 0x3000 | 0x8080_0000 | 16 | (ps << 16u64),
    ;
    assert((el1 / 0x4000) % 4 == 0 && el1 % 64 == 16) by (bit_vector)
        requires
            ps <= 5,
            el1 == 0x400u64 | 0x100 | 0x3000 | 16 | 0x8000_0000 | 0x80_0000 | (ps << 32u64),
    ;
}

/// At EL1, TG1[1] is set in every page table that has been installed, whatever else is.
pub proof fn law_upper_granule(registers: AArch64Registers, base: u64, paging_type: PagingType)
    ensures
        PageTableArchAArch64::installed(registers, base, paging_type) matches Ok(after) ==> {
            registers.exception_level is EL1 ==> after.tcr & 0x8000_0000 != 0
        },
{
    let ps = physical_size(registers.pa_bits);
    let el1 = TCR_EL1_DEFAULTS | (ps << TCR_EL1_IPS_SHIFT);
    assert(el1 & 0x8000_0000 != 0) by (bit_vector)
        requires
            el1 == 0x400u64 | 0x100 | 0x3000 | 16 | 0x8000_0000 | 0x80_0000 | (ps << 32u64),
    ;
}

} // verus!
