//! x64-specific page table management: the processor state, canonical addresses, and the page
//! table itself.
use vstd::prelude::*;
use crate::arch::{canonical_va, is_self_mapped_base, PageTableEntry, PageTableHal};
use crate::attributes::MemoryAttributes;
use crate::error::PtError;
use crate::memory::{replay, MemoryOp, PageMemory};
use crate::page_allocator::{PageAllocator, Request};
use crate::page_table::PageTable;
use crate::paging::clear::{clears_through_window, ClearStep};
use crate::paging::read::{list_start, DumpEntry};
use crate::paging::{edit_range_error, range_error, PageTableInternal};
use crate::structs::{
    lemma_va_index, va_index, MappedRegion, PageLevel, PagingType, VirtualAddress, SIZE_1GB,
    SIZE_2MB, SIZE_4KB, SIZE_512GB,
};
use crate::x64::structs::{
    PageTableEntryX64, CR3_PAGE_BASE_ADDRESS_MASK, FIVE_LEVEL_PDP_SELF_MAP_BASE,
    FIVE_LEVEL_PD_SELF_MAP_BASE, FIVE_LEVEL_PML4_SELF_MAP_BASE, FIVE_LEVEL_PML5_SELF_MAP_BASE,
    FIVE_LEVEL_PT_SELF_MAP_BASE, FOUR_LEVEL_PDP_SELF_MAP_BASE, FOUR_LEVEL_PD_SELF_MAP_BASE,
    FOUR_LEVEL_PML4_SELF_MAP_BASE, FOUR_LEVEL_PT_SELF_MAP_BASE, MAX_VA_4_LEVEL, MAX_VA_5_LEVEL,
    ZERO_VA_4_LEVEL, ZERO_VA_5_LEVEL,
};

pub mod structs;

verus! {

/// The bit of CR0 that makes the processor keep to write protection in supervisor mode.
pub const CR0_WRITE_PROTECT: u64 = 0x1_0000;

/// The bit of CR4 that selects five levels of tables.
pub const CR4_LA57: u64 = 0x1000;

// The levels under the names that x64 gives them.
pub const PML5: PageLevel = PageLevel::Level5;

pub const PML4: PageLevel = PageLevel::Level4;

pub const PDP: PageLevel = PageLevel::Level3;

pub const PD: PageLevel = PageLevel::Level2;

pub const PT: PageLevel = PageLevel::Level1;

/// The registers that paging depends on. Without paging hardware CR4 is not known.
#[derive(Clone, Copy, Debug, PartialEq, Eq, Structural)]
pub struct X64Registers {
    pub cr3: u64,
    pub cr4: Option<u64>,
}

/// The paging type that CR4 selects.
pub open spec fn selected_paging_type(cr4: u64) -> PagingType {
    if cr4 & CR4_LA57 != 0 {
        PagingType::Paging5Level
    } else {
        PagingType::Paging4Level
    }
}

/// Detects whether four or five levels are in use.
pub fn detect_paging_type(cr4: u64) -> (r: Result<PagingType, PtError>)
    ensures
        r == Ok::<PagingType, PtError>(selected_paging_type(cr4)),
{
    if cr4 & CR4_LA57 != 0 {
        Ok(PagingType::Paging5Level)
    } else {
        Ok(PagingType::Paging4Level)
    }
}

/// Lets supervisor mode write to read-only pages: clears the write protect bit of CR0, and
/// returns what CR0 was before.
pub fn disable_write_protection(cr0: &mut u64) -> (r: u64)
    ensures
        r == *old(cr0),
        *final(cr0) == *old(cr0) & !CR0_WRITE_PROTECT,
{
    let before: u64 = *cr0;
    *cr0 = before & !CR0_WRITE_PROTECT;
    before
}

/// Sets the write protect bit of CR0 again if it was set in `saved`.
pub fn enable_write_protection(cr0: &mut u64, saved: u64)
    ensures
        *final(cr0) == *old(cr0) | (saved & CR0_WRITE_PROTECT),
{
    *cr0 = *cr0 | (saved & CR0_WRITE_PROTECT);
}

/// Whether the bits of an address above the address space repeat its highest bit.
pub open spec fn is_canonical(address: int, paging_type: PagingType) -> bool {
    2 * address < paging_type.space() || 2 * address >= 0x2_0000_0000_0000_0000
        - paging_type.space()
}

/// Why a range of addresses is not canonical, if it is not: it does not start with a
/// canonical address, it is empty or runs past the last address, or it runs into addresses
/// that are not canonical.
pub open spec fn canonical_error(address: u64, size: u64, paging_type: PagingType) -> Option<
    PtError,
> {
    if !is_canonical(address as int, paging_type) {
        Some(PtError::InvalidParameter)
    } else if size == 0 || address + size - 1 > 0xFFFF_FFFF_FFFF_FFFF {
        Some(PtError::InvalidMemoryRange)
    } else if 2 * address < paging_type.space() && 2 * (address + size - 1)
        >= paging_type.space() {
        Some(PtError::InvalidMemoryRange)
    } else {
        None
    }
}

/// Checks that all addresses of a range are canonical.
pub fn check_canonical_range(address: u64, size: u64, paging_type: PagingType) -> (r: Result<
    (),
    PtError,
>)
    ensures
        match canonical_error(address, size, paging_type) {
            Some(e) => r == Err::<(), PtError>(e),
            None => r == Ok::<(), PtError>(()),
        },
{
    let max_bit: u64 = paging_type.linear_address_bits() - 1;
    let mask: u64 = 0xFFFF_FFFF_FFFF_FFFFu64 << max_bit;
    proof {
        lemma_canonical_mask(address, mask, max_bit);
    }
    if address & mask != 0 && address & mask != mask {
        return Err(PtError::InvalidParameter);
    }
    if size == 0 {
        return Err(PtError::InvalidMemoryRange);
    }
    let end_address: u64 = match address.checked_add(size - 1) {
        Some(end_address) => end_address,
        None => {
            return Err(PtError::InvalidMemoryRange);
        },
    };
    proof {
        lemma_canonical_mask(end_address, mask, max_bit);
    }
    if end_address & mask != address & mask {
        return Err(PtError::InvalidMemoryRange);
    }
    Ok(())
}

/// What the high bits of an address say of its place.
proof fn lemma_canonical_mask(address: u64, mask: u64, max_bit: u64)
    requires
        max_bit == 47 || max_bit == 56,
        mask == 0xFFFF_FFFF_FFFF_FFFFu64 << max_bit,
    ensures
        max_bit == 47 ==> {
            &&& (address & mask == 0) == (address < 0x8000_0000_0000)
            &&& (address & mask == mask) == (address >= 0xFFFF_8000_0000_0000)
            &&& mask != 0
        },
        max_bit == 56 ==> {
            &&& (address & mask == 0) == (address < 0x100_0000_0000_0000)
            &&& (address & mask == mask) == (address >= 0xFF00_0000_0000_0000)
            &&& mask != 0
        },
{
    assert(max_bit == 47 ==> {
        &&& (address & mask == 0) == (address < 0x8000_0000_0000)
        &&& (address & mask == mask) == (address >= 0xFFFF_8000_0000_0000)
        &&& mask != 0
    }) by (bit_vector)
        requires
            mask == 0xFFFF_FFFF_FFFF_FFFFu64 << max_bit,
    ;
    assert(max_bit == 56 ==> {
        &&& (address & mask == 0) == (address < 0x100_0000_0000_0000)
        &&& (address & mask == mask) == (address >= 0xFF00_0000_0000_0000)
        &&& mask != 0
    }) by (bit_vector)
        requires
            mask == 0xFFFF_FFFF_FFFF_FFFFu64 << max_bit,
    ;
}

/// The x64 processor.
#[derive(Clone, Copy, Debug, PartialEq, Eq, Structural)]
pub struct PageTableArchX64;

impl PageTableHal for PageTableArchX64 {
    type PTE = PageTableEntryX64;

    type Registers = X64Registers;

    open spec fn spec_default_attributes() -> u64 {
        0
    }

    open spec fn spec_sign_extends() -> bool {
        true
    }

    open spec fn spec_zero_va(paging_type: PagingType) -> Result<VirtualAddress, PtError> {
        match paging_type {
            PagingType::Paging5Level => Ok(VirtualAddress { value: ZERO_VA_5_LEVEL }),
            PagingType::Paging4Level => Ok(VirtualAddress { value: ZERO_VA_4_LEVEL }),
        }
    }

    open spec fn spec_max_va(paging_type: PagingType) -> VirtualAddress {
        match paging_type {
            PagingType::Paging5Level => VirtualAddress { value: MAX_VA_5_LEVEL },
            PagingType::Paging4Level => VirtualAddress { value: MAX_VA_4_LEVEL },
        }
    }

    open spec fn self_map_defined(level: PageLevel, paging_type: PagingType) -> bool {
        level.depth() <= paging_type.levels()
    }

    open spec fn active(registers: X64Registers, base: u64) -> bool {
        registers.cr3 == base & CR3_PAGE_BASE_ADDRESS_MASK
    }

    open spec fn installed(registers: X64Registers, base: u64, paging_type: PagingType) -> Result<
        X64Registers,
        PtError,
    > {
        match registers.cr4 {
            Some(cr4) => if selected_paging_type(cr4) != paging_type {
                Err(PtError::UnsupportedPagingType)
            } else {
                Ok(X64Registers { cr3: base, cr4: Some(cr4) })
            },
            None => Ok(X64Registers { cr3: base, cr4: None }),
        }
    }

    proof fn lemma_default_attributes(word: u64, pa: u64, n: nat) {
        PageTableEntryX64::lemma_updated(word, 0, pa, false, n);
        assert(0u64 & 0x2_6000 == 0 && 0u64 & 0x2000 == 0) by (bit_vector);
    }

    proof fn lemma_zero_va(paging_type: PagingType) {
        match paging_type {
            PagingType::Paging5Level => {
                assert(ZERO_VA_5_LEVEL as int % 0x200_0000_0000_0000 == 0x1FF_0000_0000_0000);
            },
            PagingType::Paging4Level => {
                assert(ZERO_VA_4_LEVEL as int % 0x1_0000_0000_0000 == 0xFF80_0000_0000);
            },
        }
    }

    fn default_attributes(&self) -> (r: MemoryAttributes) {
        MemoryAttributes::empty()
    }

    fn sign_extends(&self) -> (r: bool) {
        true
    }

    fn paging_type_supported(&self, paging_type: PagingType) -> (r: Result<(), PtError>) {
        match paging_type {
            PagingType::Paging5Level => Ok(()),
            PagingType::Paging4Level => Ok(()),
        }
    }

    fn get_zero_va(&self, paging_type: PagingType) -> (r: Result<VirtualAddress, PtError>) {
        match paging_type {
            PagingType::Paging5Level => Ok(VirtualAddress::new(ZERO_VA_5_LEVEL)),
            PagingType::Paging4Level => Ok(VirtualAddress::new(ZERO_VA_4_LEVEL)),
        }
    }

    fn get_max_va(&self, paging_type: PagingType) -> (r: Result<VirtualAddress, PtError>) {
        match paging_type {
            PagingType::Paging5Level => Ok(VirtualAddress::new(MAX_VA_5_LEVEL)),
            PagingType::Paging4Level => Ok(VirtualAddress::new(MAX_VA_4_LEVEL)),
        }
    }

    fn is_table_active(&self, registers: &X64Registers, base: u64) -> (r: bool) {
        registers.cr3 == base & CR3_PAGE_BASE_ADDRESS_MASK
    }

    fn install_page_table(
        &self,
        registers: &mut X64Registers,
        base: u64,
        paging_type: PagingType,
    ) -> (r: Result<(), PtError>) {
        if let Some(cr4) = registers.cr4 {
            if paging_type != detect_paging_type(cr4)? {
                return Err(PtError::UnsupportedPagingType);
            }
        }
        registers.cr3 = base;
        Ok(())
    }

    fn level_supports_pa_entry(&self, level: PageLevel) -> (r: bool) {
        matches!(level, PageLevel::Level3 | PageLevel::Level2 | PageLevel::Level1)
    }

    fn get_self_mapped_base(
        &self,
        level: PageLevel,
        va: VirtualAddress,
        paging_type: PagingType,
    ) -> (r: u64) {
        let pml5: u64 = va.get_index(PML5);
        let pml4: u64 = va.get_index(PML4);
        let pdp: u64 = va.get_index(PDP);
        let pd: u64 = va.get_index(PD);
        let r: u64 = match paging_type {
            PagingType::Paging4Level => match level {
                PageLevel::Level5 => FOUR_LEVEL_PML4_SELF_MAP_BASE,
                PageLevel::Level4 => FOUR_LEVEL_PML4_SELF_MAP_BASE,
                PageLevel::Level3 => FOUR_LEVEL_PDP_SELF_MAP_BASE + SIZE_4KB * pml4,
                PageLevel::Level2 => FOUR_LEVEL_PD_SELF_MAP_BASE + SIZE_2MB * pml4 + SIZE_4KB * pdp,
                PageLevel::Level1 => FOUR_LEVEL_PT_SELF_MAP_BASE + SIZE_1GB * pml4 + SIZE_2MB * pdp
                    + SIZE_4KB * pd,
            },
            PagingType::Paging5Level => match level {
                PageLevel::Level5 => FIVE_LEVEL_PML5_SELF_MAP_BASE,
                PageLevel::Level4 => FIVE_LEVEL_PML4_SELF_MAP_BASE + SIZE_4KB * pml5,
                PageLevel::Level3 => FIVE_LEVEL_PDP_SELF_MAP_BASE + SIZE_2MB * pml5 + SIZE_4KB
                    * pml4,
                PageLevel::Level2 => FIVE_LEVEL_PD_SELF_MAP_BASE + SIZE_1GB * pml5 + SIZE_2MB * pml4
                    + SIZE_4KB * pdp,
                PageLevel::Level1 => FIVE_LEVEL_PT_SELF_MAP_BASE + SIZE_512GB * pml5 + SIZE_1GB
                    * pml4 + SIZE_2MB * pdp + SIZE_4KB * pd,
            },
        };
        proof {
            let (i5, i4, i3, i2, i1): (int, int, int, int, int) = match paging_type {
                PagingType::Paging4Level => match level {
                    PageLevel::Level3 => (0x1FF, 0x1FE, 0x1FE, 0x1FE, pml4 as int),
                    PageLevel::Level2 => (0x1FF, 0x1FE, 0x1FE, pml4 as int, pdp as int),
                    PageLevel::Level1 => (0x1FF, 0x1FE, pml4 as int, pdp as int, pd as int),
                    _ => (0x1FF, 0x1FE, 0x1FE, 0x1FE, 0x1FE),
                },
                PagingType::Paging5Level => match level {
                    PageLevel::Level5 => (0x1FE, 0x1FE, 0x1FE, 0x1FE, 0x1FE),
                    PageLevel::Level4 => (0x1FE, 0x1FE, 0x1FE, 0x1FE, pml5 as int),
                    PageLevel::Level3 => (0x1FE, 0x1FE, 0x1FE, pml5 as int, pml4 as int),
                    PageLevel::Level2 => (0x1FE, 0x1FE, pml5 as int, pml4 as int, pdp as int),
                    PageLevel::Level1 => (0x1FE, pml5 as int, pml4 as int, pdp as int, pd as int),
                },
            };
            lemma_va_index(r as int, 0x7F, i5, i4, i3, i2, i1);
            assert forall|k: nat| 1 <= k <= paging_type.levels() implies #[trigger] va_index(
                k,
                r as int,
            ) == if k > paging_type.levels() - level.depth() {
                0x1FE
            } else {
                va_index(k + level.depth(), va.value as int)
            } by {
                assert(k == 1 || k == 2 || k == 3 || k == 4 || k == 5);
            }
        }
        r
    }
}

/// Why a range cannot be queried, if it cannot.
pub open spec fn query_error(paging_type: PagingType, address: u64, size: u64) -> Option<PtError> {
    match canonical_error(address, size, paging_type) {
        Some(e) => Some(e),
        None => range_error(paging_type, address, size),
    }
}

/// Why the mappings of a range cannot be changed, if they cannot.
pub open spec fn edit_error(paging_type: PagingType, address: u64, size: u64) -> Option<PtError> {
    match canonical_error(address, size, paging_type) {
        Some(e) => Some(e),
        None => edit_range_error::<PageTableArchX64>(paging_type, address, size),
    }
}

/// An x64 page table.
pub struct X64PageTable<P: PageAllocator> {
    arch: PageTableArchX64,
    internal: PageTableInternal<P>,
}

impl<P: PageAllocator> X64PageTable<P> {
    /// The tables of a page table that could perhaps not be had.
    pub open spec fn internal_of(r: Result<Self, PtError>) -> Result<
        PageTableInternal<P>,
        PtError,
    > {
        match r {
            Ok(table) => Ok(table.internal()),
            Err(e) => Err(e),
        }
    }

    /// What being well-formed gives a caller, who can then take over the same tables again.
    pub proof fn lemma_wf(&self)
        requires
            self.wf(),
        ensures
            self.internal().wf(),
            self.internal().root() % 0x1000 == 0,
            self.internal().spec_memory().wf(),
            self.internal().spec_memory()@ == self.internal().frames(),
    {
        self.internal.lemma_wf();
    }

    /// Builds a page table that maps nothing. This fails exactly if the allocator refuses a
    /// page.
    pub fn new(page_allocator: P, paging_type: PagingType) -> (r: Result<Self, PtError>)
        ensures
            exists|requests: Seq<Request<P>>| #[trigger]
                PageTableInternal::new_outcome::<PageTableArchX64>(
                    page_allocator,
                    paging_type,
                    requests,
                    Self::internal_of(r),
                ),
            r matches Ok(table) ==> table.wf(),
    {
        let arch = PageTableArchX64;
        match PageTableInternal::new(page_allocator, &arch, paging_type) {
            Ok(internal) => Ok(Self { arch, internal }),
            Err(e) => Err(e),
        }
    }

    /// Takes over the existing page table at `base`, whose tables `memory` holds, to read or
    /// edit it.
    pub fn from_existing(
        base: u64,
        memory: PageMemory,
        page_allocator: P,
        paging_type: PagingType,
    ) -> (r: Result<Self, PtError>)
        requires
            memory.wf(),
        ensures
            if base % 0x1000 != 0 {
                r == Err::<Self, PtError>(PtError::UnalignedPageBase)
            } else {
                &&& r matches Ok(table)
                &&& table.wf()
                &&& table.internal().root() == base
                &&& table.internal().spec_memory() == memory
                &&& table.internal().frames() == memory@
                &&& table.internal().spec_paging_type() == paging_type
                &&& table.internal().allocator() == page_allocator
                &&& table.internal().requests() == Seq::<Request<P>>::empty()
                &&& table.internal().spec_sound()
            },
    {
        let arch = PageTableArchX64;
        let internal = PageTableInternal::from_existing(
            page_allocator,
            base,
            memory,
            paging_type,
        )?;
        Ok(Self { arch, internal })
    }

    /// How many levels of tables there are.
    pub fn paging_type(&self) -> (r: PagingType)
        ensures
            r == self.internal().spec_paging_type(),
    {
        self.internal.paging_type()
    }

    /// Gives up the page table for its root.
    pub fn into_page_table_root(self) -> (r: u64)
        ensures
            r == self.internal().root(),
    {
        self.internal.into_page_table_root()
    }

    /// Every present leaf mapping, in the order of addresses. The attributes hold the
    /// restrictions that table entries impose.
    ///
    /// With `None` the list starts at address 0. With `Some(address)` its first region is the
    /// one that holds the address, or the next one after it. The reserved root entries, for
    /// the self map and for clearing pages, are left out.
    pub fn iter_mapped_regions(&self, start_address: Option<u64>) -> (r: Vec<MappedRegion>)
        requires
            self.wf(),
        ensures
            r@ == self.internal().regions_from::<PageTableArchX64>(
                list_start(self.internal().spec_paging_type(), start_address),
                self.internal().region_limit::<PageTableArchX64>(),
            ),
    {
        self.internal.iter_mapped_regions(&self.arch, start_address)
    }

    /// Takes over the page table that the processor uses. `memory` holds its tables.
    pub fn open_active(registers: &X64Registers, memory: PageMemory, page_allocator: P) -> (r: Result<
        Self,
        PtError,
    >)
        requires
            memory.wf(),
        ensures
            r matches Ok(table),
            r->Ok_0.wf(),
            r->Ok_0.internal().root() == registers.cr3 & CR3_PAGE_BASE_ADDRESS_MASK,
            r->Ok_0.internal().spec_memory() == memory,
            r->Ok_0.internal().frames() == memory@,
            r->Ok_0.internal().spec_paging_type() == selected_paging_type(
                match registers.cr4 {
                    Some(cr4) => cr4,
                    None => 0,
                },
            ),
            r->Ok_0.internal().allocator() == page_allocator,
            r->Ok_0.internal().requests() == Seq::<Request<P>>::empty(),
            r->Ok_0.internal().spec_sound(),
    {
        let base: u64 = registers.cr3 & CR3_PAGE_BASE_ADDRESS_MASK;
        let cr4: u64 = match registers.cr4 {
            Some(cr4) => cr4,
            None => 0,
        };
        let paging_type = detect_paging_type(cr4)?;
        proof {
            let cr3 = registers.cr3;
            assert((cr3 & 0x000F_FFFF_FFFF_F000) % 0x1000 == 0) by (bit_vector);
        }
        Self::from_existing(base, memory, page_allocator, paging_type)
    }

    /// Whether every page for a table was fit for one. Otherwise the tables cannot be relied on.
    pub fn is_sound(&self) -> (r: bool)
        ensures
            r == self.internal().spec_sound(),
    {
        self.internal.is_sound()
    }

    /// The memory that holds the tables.
    pub fn memory(&self) -> (r: &PageMemory)
        ensures
            *r == self.internal().spec_memory(),
            r@ == self.internal().frames(),
            self.wf() ==> r.wf(),
    {
        self.internal.memory()
    }

    /// Hands out the changes to the memory since the last time, in order. Carried out on
    /// memory that is as the tables were then, they bring it to where the tables are now.
    pub fn take_journal(&mut self) -> (r: Vec<MemoryOp>)
        requires
            old(self).wf(),
        ensures
            r@ == old(self).internal().spec_memory().journal(),
            old(self).internal().frames() == replay(
                old(self).internal().spec_memory().origin(),
                r@,
            ),
            final(self).wf(),
            final(self).internal().root() == old(self).internal().root(),
            final(self).internal().spec_paging_type() == old(self).internal().spec_paging_type(),
            final(self).internal().spec_sound() == old(self).internal().spec_sound(),
            final(self).internal().allocator() == old(self).internal().allocator(),
            final(self).internal().requests() == old(self).internal().requests(),
            final(self).internal().frames() == old(self).internal().frames(),
            final(self).internal().spec_memory().origin() == old(self).internal().frames(),
            final(self).internal().spec_memory().journal() == Seq::<MemoryOp>::empty(),
    {
        self.internal.take_journal()
    }

    /// Whether the tables have to be written through the self map, given what the processor
    /// uses.
    pub fn uses_self_map(&self, registers: &X64Registers) -> (r: bool)
        requires
            self.wf(),
        ensures
            r == (PageTableArchX64::active(*registers, self.internal().root())
                && self.internal().self_mapped::<PageTableArchX64>()),
    {
        self.internal.uses_self_map(&self.arch, registers)
    }

    /// Where entry `index` of the table in `table` can be written, given what the processor
    /// uses. The table is at `level`, and the entry translates `va`.
    pub fn entry_address(
        &self,
        registers: &X64Registers,
        table: u64,
        index: u64,
        level: PageLevel,
        va: u64,
    ) -> (r: u64)
        requires
            self.wf(),
            index < 512,
            table <= 0xFFFF_FFFF_FFFF_F000,
            PageTableArchX64::self_map_defined(level, self.internal().spec_paging_type()),
        ensures
            if PageTableArchX64::active(*registers, self.internal().root())
                && self.internal().self_mapped::<PageTableArchX64>() {
                &&& is_self_mapped_base(
                    self.internal().spec_paging_type().levels(),
                    level.depth(),
                    va as int,
                    r - 8 * index,
                )
                &&& r - 8 * index == canonical_va(
                    (r - 8 * index) % self.internal().spec_paging_type().space(),
                    self.internal().spec_paging_type(),
                    PageTableArchX64::spec_sign_extends(),
                )
            } else {
                r == table + 8 * index
            },
    {
        self.internal.entry_address(&self.arch, registers, table, index, level, va)
    }

    /// How the fresh page `page` is cleared, given what the processor uses.
    pub fn clear_steps(&self, registers: &X64Registers, page: u64) -> (r: Result<
        Vec<ClearStep>,
        PtError,
    >)
        requires
            self.wf(),
            page % 0x1000 == 0,
        ensures
            if PageTableArchX64::active(*registers, self.internal().root())
                && self.internal().self_mapped::<PageTableArchX64>() {
                match PageTableArchX64::spec_zero_va(self.internal().spec_paging_type()) {
                    Err(e) => r == Err::<Vec<ClearStep>, PtError>(e),
                    Ok(zero_va) => r matches Ok(steps) && clears_through_window::<
                        PageTableArchX64,
                    >(steps@, self.internal().spec_paging_type(), zero_va.value, page),
                }
            } else {
                r matches Ok(steps) && steps@ == seq![ClearStep::Zero { va: page }]
            },
    {
        self.internal.clear_steps(&self.arch, registers, page)
    }
}

impl<P: PageAllocator> PageTable for X64PageTable<P> {
    type Arch = PageTableArchX64;

    type Allocator = P;

    closed spec fn wf(&self) -> bool {
        self.internal.wf()
    }

    closed spec fn internal(&self) -> PageTableInternal<P> {
        self.internal
    }

    open spec fn query_error(paging_type: PagingType, address: u64, size: u64) -> Option<PtError> {
        crate::x64::query_error(paging_type, address, size)
    }

    open spec fn edit_error(paging_type: PagingType, address: u64, size: u64) -> Option<PtError> {
        crate::x64::edit_error(paging_type, address, size)
    }

    fn map_memory_region(&mut self, address: u64, size: u64, attributes: MemoryAttributes) -> (r:
        Result<(), PtError>) {
        check_canonical_range(address, size, self.internal.paging_type())?;
        self.internal.map_memory_region(&self.arch, address, size, attributes)
    }

    fn unmap_memory_region(&mut self, address: u64, size: u64) -> (r: Result<(), PtError>) {
        check_canonical_range(address, size, self.internal.paging_type())?;
        self.internal.unmap_memory_region(&self.arch, address, size)
    }

    fn install_page_table(&mut self, registers: &mut X64Registers) -> (r: Result<(), PtError>) {
        self.internal.install_page_table(&self.arch, registers)
    }

    fn query_memory_region(&self, address: u64, size: u64) -> (r: Result<
        MemoryAttributes,
        PtError,
    >) {
        check_canonical_range(address, size, self.internal.paging_type())?;
        self.internal.query_memory_region(&self.arch, address, size)
    }

    fn dump_page_tables(&self, address: u64, size: u64) -> (r: Result<Vec<DumpEntry>, PtError>) {
        self.internal.dump_page_tables(&self.arch, address, size)
    }
}

/// A range passes the check exactly if it is not empty, does not run past the last address, and
/// all its addresses are canonical.
pub proof fn law_canonical_range(address: u64, size: u64, paging_type: PagingType)
    ensures
        canonical_error(address, size, paging_type) is None <==> {
            &&& size > 0
            &&& address + size - 1 <= 0xFFFF_FFFF_FFFF_FFFF
            &&& forall|a: int| address <= a < address + size ==> #[trigger] is_canonical(
                a,
                paging_type,
            )
        },
{
    let half = paging_type.space() / 2;
    if size > 0 {
        if is_canonical(address as int, paging_type) && address < half && address + size > half {
            assert(!is_canonical(half, paging_type));
        }
        assert(address <= address < address + size);
    }
}

/// The canonical form of an address is canonical, and has the same low bits.
pub proof fn law_canonical_form(va: int, paging_type: PagingType)
    requires
        0 <= va < paging_type.space(),
    ensures
        is_canonical(canonical_va(va, paging_type, true), paging_type),
        0 <= canonical_va(va, paging_type, true) <= 0xFFFF_FFFF_FFFF_FFFF,
        canonical_va(va, paging_type, true) % paging_type.space() == va,
{
    let a = canonical_va(va, paging_type, true);
    match paging_type {
        PagingType::Paging4Level => {
            assert(a % 0x1_0000_0000_0000 == va);
        },
        PagingType::Paging5Level => {
            assert(a % 0x200_0000_0000_0000 == va);
        },
    }
}

/// The low bits of a canonical address: the address itself in the lower half, and otherwise the
/// address without the bits above the address space, which are all set.
pub proof fn lemma_canonical_low_bits(paging_type: PagingType, address: u64)
    requires
        is_canonical(address as int, paging_type),
    ensures
        address as int % paging_type.space() == if 2 * address < paging_type.space() {
            address as int
        } else {
            address - (0x1_0000_0000_0000_0000 - paging_type.space())
        },
{
    match paging_type {
        PagingType::Paging4Level => {
            assert(paging_type.space() == 0x1_0000_0000_0000);
            if address < 0x8000_0000_0000 {
                assert(address as int % 0x1_0000_0000_0000 == address);
            } else {
                assert(address as int % 0x1_0000_0000_0000 == address - 0xFFFF_0000_0000_0000);
            }
        },
        PagingType::Paging5Level => {
            assert(paging_type.space() == 0x200_0000_0000_0000);
            if address < 0x100_0000_0000_0000 {
                assert(address as int % 0x200_0000_0000_0000 == address);
            } else {
                assert(address as int % 0x200_0000_0000_0000 == address - 0xFE00_0000_0000_0000);
            }
        },
    }
}

/// Of a canonical range that can be queried, only the last address decides whether its mappings
/// can be changed.
pub proof fn law_last_address_decides(paging_type: PagingType, address: u64, size: u64)
    requires
        query_error(paging_type, address, size) is None,
    ensures
        edit_error(paging_type, address, size) is None <==> address + size - 1
            <= PageTableArchX64::spec_max_va(paging_type).value,
{
    lemma_canonical_low_bits(paging_type, address);
}

/// Write protection that is disabled and then enabled with the saved value is as it was.
pub proof fn law_write_protection_restored(cr0: u64)
    ensures
        (cr0 & !CR0_WRITE_PROTECT) | (cr0 & CR0_WRITE_PROTECT) == cr0,
        (cr0 & !CR0_WRITE_PROTECT) & CR0_WRITE_PROTECT == 0,
{
    assert((cr0 & !0x1_0000u64) | (cr0 & 0x1_0000u64) == cr0 && (cr0 & !0x1_0000u64) & 0x1_0000u64
        == 0) by (bit_vector);
}

/// A page table that has been installed is the one that the processor uses, and the one that is
/// opened as active, if its root is a page that CR3 can hold.
pub proof fn law_installed_is_active(
    registers: X64Registers,
    base: u64,
    paging_type: PagingType,
)
    requires
        base % 0x1000 == 0,
        base < 0x10_0000_0000_0000,
    ensures
        PageTableArchX64::installed(registers, base, paging_type) matches Ok(after) ==> {
            &&& PageTableArchX64::active(after, base)
            &&& after.cr3 & CR3_PAGE_BASE_ADDRESS_MASK == base
            &&& after.cr4 matches Some(cr4) ==> selected_paging_type(cr4) == paging_type
        },
{
    assert(base & 0x000F_FFFF_FFFF_F000 == base) by (bit_vector)
        requires
            base % 0x1000 == 0,
            base < 0x10_0000_0000_0000,
    ;
}

} // verus!
