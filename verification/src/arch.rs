//! Architecture-agnostic traits for page table entries and for the processor.
use vstd::prelude::*;
use crate::attributes::{read_protected, MemoryAttributes, READ_PROTECT};
use crate::error::PtError;
use crate::structs::{entry_base, va_index, PageLevel, PagingType, PhysicalAddress, VirtualAddress};

verus! {

/// Whether the address `r` selects, in a root table that maps itself, the table at depth
/// `level` which translates `va`: the self-map entry once for each level from `level`
/// down, then the indices of `va` from the root down to the entry for that table.
pub open spec fn is_self_mapped_base(levels: nat, level: nat, va: int, r: int) -> bool {
    &&& r % 0x1000 == 0
    &&& forall|k: nat|
        1 <= k <= levels ==> #[trigger] va_index(k, r) == if k > levels - level {
            0x1FE
        } else {
            va_index(k + level, va)
        }
}

/// The virtual address with the low bits `va`, in the form that the processor expects:
/// with `sign_extends`, the bits above the address space repeat its highest bit.
pub open spec fn canonical_va(va: int, paging_type: PagingType, sign_extends: bool) -> int {
    if sign_extends && 2 * va >= paging_type.space() {
        va + 0x1_0000_0000_0000_0000 - paging_type.space()
    } else {
        va
    }
}

/// An entry of a table.
///
/// What an entry means is given by functions of its word. `n` counts levels from the
/// lowest.
pub trait PageTableEntry: Sized {
    /// The word that the entry is stored as.
    spec fn word(&self) -> u64;

    /// Whether the entry is in use.
    spec fn present(word: u64) -> bool;

    /// The physical address of the page or the table that the entry points to.
    spec fn next_address(word: u64) -> u64;

    /// The attributes that the entry gives to what it maps.
    spec fn attributes(word: u64) -> u64;

    /// The attributes that the entry, when it points to a table, imposes on everything
    /// mapped below.
    spec fn restrictions(word: u64) -> u64;

    /// Whether the entry, in a table at depth `n`, maps memory and not a table.
    spec fn leaf(word: u64, n: nat) -> bool;

    /// The first physical address that an entry cannot hold.
    spec fn address_limit() -> int;

    /// Whether an entry can hold these attributes.
    spec fn supported(attributes: u64) -> bool;

    /// What is left of a set of attributes once stored in an entry.
    spec fn stored(attributes: u64) -> u64;

    /// The word after an update of all fields.
    spec fn updated(word: u64, attributes: u64, pa: u64, leaf_entry: bool, n: nat) -> u64;

    /// What holds of every word.
    proof fn lemma_word(word: u64)
        ensures
            0 < Self::address_limit() <= 0x8000_0000_0000_0000,
            Self::address_limit() % 0x4000_0000 == 0,
            0 <= Self::next_address(word) < Self::address_limit(),
            Self::next_address(word) % 0x1000 == 0,
            Self::leaf(word, 1),
            forall|n: nat| n >= 4 ==> !Self::leaf(word, n),
            Self::present(word) ==> !read_protected(Self::attributes(word)),
            Self::supported(Self::attributes(word)),
            Self::stored(Self::attributes(word)) == Self::attributes(word),
            !Self::present(0),
    ;

    /// An updated entry reads back what was put in.
    proof fn lemma_updated(word: u64, attributes: u64, pa: u64, leaf_entry: bool, n: nat)
        requires
            Self::supported(attributes),
            leaf_entry ==> 1 <= n <= 3,
            !leaf_entry ==> 2 <= n,
        ensures
            ({
                let w = Self::updated(word, attributes, pa, leaf_entry, n);
                &&& Self::present(w) == !read_protected(attributes)
                &&& Self::attributes(w) == Self::stored(attributes)
                &&& Self::next_address(w) == (pa - pa % 0x1000) % Self::address_limit()
                &&& Self::leaf(w, n) == leaf_entry
                &&& !leaf_entry ==> forall|k: nat| k >= 2 ==> !Self::leaf(w, k)
            }),
            read_protected(Self::stored(attributes)) == read_protected(attributes),
    ;

    /// The entry stored as `word`.
    fn from_word(word: u64) -> (r: Self)
        ensures
            r.word() == word,
    ;

    /// The word that the entry is stored as.
    fn to_word(&self) -> (r: u64)
        ensures
            r == self.word(),
    ;

    /// Sets all fields for a mapping of `pa`, or with `leaf_entry` false for a table at `pa`.
    fn update_fields(
        &mut self,
        attributes: MemoryAttributes,
        pa: PhysicalAddress,
        leaf_entry: bool,
        level: PageLevel,
    ) -> (r: Result<(), PtError>)
        ensures
            match r {
                Ok(_) => Self::supported(attributes.bits) && final(self).word() == Self::updated(
                    old(self).word(),
                    attributes.bits,
                    pa.value,
                    leaf_entry,
                    level.depth(),
                ),
                Err(e) => !Self::supported(attributes.bits) && e == PtError::InvalidParameter
                    && final(self).word() == old(self).word(),
            },
    ;

    /// Whether the entry is in use.
    fn get_present_bit(&self) -> (r: bool)
        ensures
            r == Self::present(self.word()),
    ;

    /// Marks the entry as in use or not, and leaves everything else in it as it is. Of the
    /// attributes only that to forbid reading goes by this mark.
    fn set_present_bit(&mut self, value: bool)
        ensures
            Self::present(final(self).word()) == value,
            value == Self::present(old(self).word()) ==> final(self).word() == old(self).word(),
            Self::next_address(final(self).word()) == Self::next_address(old(self).word()),
            forall|n: nat|
                #[trigger] Self::leaf(final(self).word(), n) == Self::leaf(old(self).word(), n),
            Self::attributes(final(self).word()) & !READ_PROTECT == Self::attributes(
                old(self).word(),
            ) & !READ_PROTECT,
            Self::restrictions(final(self).word()) & !READ_PROTECT == Self::restrictions(
                old(self).word(),
            ) & !READ_PROTECT,
    ;

    /// The physical address of the page or the table that the entry points to.
    fn get_next_address(&self) -> (r: PhysicalAddress)
        ensures
            r.value == Self::next_address(self.word()),
    ;

    /// The attributes that the entry gives to what it maps.
    fn get_attributes(&self) -> (r: MemoryAttributes)
        ensures
            r.bits == Self::attributes(self.word()),
    ;

    /// The access attributes that an entry for a table imposes on everything below it.
    ///
    /// Where every level uses the same access bits these are the entry's own attributes.
    /// Where tables have access fields of their own, those are read instead.
    fn get_inheritable_attributes(&self) -> (r: MemoryAttributes)
        ensures
            r.bits == Self::restrictions(self.word()),
    ;

    /// Whether the entry, in a table at `level`, maps memory and not a table.
    fn points_to_pa(&self, level: PageLevel) -> (r: bool)
        ensures
            r == Self::leaf(self.word(), level.depth()),
    ;

    /// Takes the entry out of use.
    fn unmap(&mut self)
        ensures
            final(self).word() == 0,
    ;
}

/// What differs between processors in the management of page tables.
pub trait PageTableHal: Sized {
    /// The entries of the tables.
    type PTE: PageTableEntry;

    /// The processor state that page table management reads and writes.
    type Registers;

    /// The attributes of entries that point to tables.
    spec fn spec_default_attributes() -> u64;

    /// Whether the bits of a virtual address above the address space repeat its highest
    /// bit, as against being zero.
    spec fn spec_sign_extends() -> bool;

    /// The virtual address through which fresh pages are cleared.
    spec fn spec_zero_va(paging_type: PagingType) -> Result<VirtualAddress, PtError>;

    /// The last virtual address that may be mapped.
    spec fn spec_max_va(paging_type: PagingType) -> VirtualAddress;

    /// Whether tables at this level can be reached through the self map.
    spec fn self_map_defined(level: PageLevel, paging_type: PagingType) -> bool;

    /// Whether the processor uses the page table at `base`.
    spec fn active(registers: Self::Registers, base: u64) -> bool;

    /// The processor state once the page table at `base` is in use, or why it cannot be.
    spec fn installed(registers: Self::Registers, base: u64, paging_type: PagingType) -> Result<
        Self::Registers,
        PtError,
    >;

    /// An entry for a table with the default attributes restricts nothing.
    proof fn lemma_default_attributes(word: u64, pa: u64, n: nat)
        requires
            2 <= n,
        ensures
            Self::PTE::supported(Self::spec_default_attributes()),
            !read_protected(Self::spec_default_attributes()),
            Self::PTE::stored(Self::spec_default_attributes()) == Self::spec_default_attributes(),
            Self::PTE::restrictions(
                Self::PTE::updated(word, Self::spec_default_attributes(), pa, false, n),
            ) == 0,
    ;

    /// Fresh pages are cleared through the start of the last root entry, whose tables can be
    /// reached through the self map.
    proof fn lemma_zero_va(paging_type: PagingType)
        ensures
            Self::spec_zero_va(paging_type) matches Ok(va) ==> va.value as int
                % paging_type.space() == entry_base(paging_type.levels(), 0, 0x1FF)
                && Self::self_map_defined(PageLevel::Level1, paging_type),
    ;

    /// The attributes of entries that point to tables.
    fn default_attributes(&self) -> (r: MemoryAttributes)
        ensures
            r.bits == Self::spec_default_attributes(),
    ;

    /// Whether virtual addresses are sign extended.
    fn sign_extends(&self) -> (r: bool)
        ensures
            r == Self::spec_sign_extends(),
    ;

    /// Whether tables of this type can be managed at all.
    fn paging_type_supported(&self, paging_type: PagingType) -> (r: Result<(), PtError>)
        ensures
            r == Ok::<(), PtError>(()),
    ;

    /// The virtual address through which fresh pages are cleared.
    fn get_zero_va(&self, paging_type: PagingType) -> (r: Result<VirtualAddress, PtError>)
        ensures
            r == Self::spec_zero_va(paging_type),
    ;

    /// The last virtual address that may be mapped.
    fn get_max_va(&self, paging_type: PagingType) -> (r: Result<VirtualAddress, PtError>)
        ensures
            r == Ok::<VirtualAddress, PtError>(Self::spec_max_va(paging_type)),
    ;

    /// Whether the processor uses the page table at `base`.
    fn is_table_active(&self, registers: &Self::Registers, base: u64) -> (r: bool)
        ensures
            r == Self::active(*registers, base),
    ;

    /// Makes the processor use the page table at `base`.
    fn install_page_table(
        &self,
        registers: &mut Self::Registers,
        base: u64,
        paging_type: PagingType,
    ) -> (r: Result<(), PtError>)
        ensures
            match Self::installed(*old(registers), base, paging_type) {
                Ok(after) => r == Ok::<(), PtError>(()) && *final(registers) == after,
                Err(e) => r == Err::<(), PtError>(e) && *final(registers) == *old(registers),
            },
    ;

    /// Whether entries at this level can map memory.
    fn level_supports_pa_entry(&self, level: PageLevel) -> (r: bool)
        ensures
            r == (level.depth() <= 3),
    ;

    /// The virtual address of the table at `level` that translates `va`, as seen through
    /// the self map.
    fn get_self_mapped_base(
        &self,
        level: PageLevel,
        va: VirtualAddress,
        paging_type: PagingType,
    ) -> (r: u64)
        requires
            Self::self_map_defined(level, paging_type),
        ensures
            is_self_mapped_base(
                paging_type.levels(),
                level.depth(),
                va.value as int,
                r as int,
            ),
            r == canonical_va(
                r as int % paging_type.space(),
                paging_type,
                Self::spec_sign_extends(),
            ),
    ;
}

} // verus!
