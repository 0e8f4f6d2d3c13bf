//! What holds of x64 page tables, in terms of what the processor does.
use vstd::prelude::*;
use crate::arch::{PageTableEntry, PageTableHal};
use crate::attributes::{MemoryAttributes, EXECUTE_PROTECT, READ_ONLY, READ_PROTECT};
use crate::error::PtError;
use crate::laws::bits::{
    address_count, has_bit, lemma_bits, lemma_reach, lemma_union, level_count, reach,
};
use crate::laws::edits::{
    edited, lemma_accepted, lemma_edited, lemma_job, lemma_outside_self_map, unrestricted,
};
use crate::laws::requests::{are_fit, law_new_with_fit_pages};
use crate::memory::word_at;
use crate::page_allocator::{PageAllocator, Request};
use crate::page_table::PageTable;
use crate::paging::PageTableInternal;
use crate::structs::{
    aligned, entry_base, entry_index, lemma_entry_index, lemma_entry_within, table_size, PageLevel,
    PagingType,
};
use crate::tree::{walk, Edit, Frames};
use crate::x64::structs::PageTableEntryX64;
use crate::x64::{
    canonical_error, is_canonical, lemma_canonical_low_bits, selected_paging_type,
    PageTableArchX64, X64PageTable, X64Registers,
};

verus! {

/// What the processor makes of an address: where the byte is, and what may be done with it.
pub struct Translation {
    pub pa: int,
    pub writable: bool,
    pub executable: bool,
}

/// The physical address in an entry: bits 12 to 51.
pub open spec fn address_in(word: u64) -> int {
    ((word as int / 0x1000) % 0x100_0000_0000) * 0x1000
}

/// How the processor translates `va` from the table in `page` on, which is at depth `k`. An entry
/// without bit 0 ends in a fault. Entries map memory at the lowest depth, and with bit 7 also at
/// the second and the third. Memory can be written if bit 1 is set, and executed if bit 63 is
/// not, in every entry on the way.
pub open spec fn translation(frames: Frames, page: u64, k: nat, va: int) -> Option<Translation>
    decreases k,
{
    let word = word_at(frames, page, (va / reach(k)) % 512);
    let writable = has_bit(word, 0x2);
    let executable = !has_bit(word, 0x8000_0000_0000_0000);
    if k == 0 || !has_bit(word, 0x1) {
        None
    } else if k == 1 || (k <= 3 && has_bit(word, 0x80)) {
        Some(
            Translation {
                pa: address_in(word) - address_in(word) % reach(k) + va % reach(k),
                writable,
                executable,
            },
        )
    } else {
        match translation(frames, address_in(word) as u64, (k - 1) as nat, va) {
            None => None,
            Some(below) => Some(
                Translation {
                    pa: below.pa,
                    writable: writable && below.writable,
                    executable: executable && below.executable,
                },
            ),
        }
    }
}

/// An entry is read by its bits: bit 0 says whether it is in use, bit 1 whether what it maps may be
/// written, bit 63 whether it may not be executed, and bits 12 to 51 hold the address.
pub proof fn law_entry_bits(word: u64)
    ensures
        PageTableEntryX64::present(word) == has_bit(word, 0x1),
        PageTableEntryX64::next_address(word) == address_in(word),
        forall|n: nat|
            1 <= n <= 5 ==> #[trigger] PageTableEntryX64::leaf(word, n) == (n == 1 || (n <= 3
                && has_bit(word, 0x80))),
        (PageTableEntryX64::attributes(word) & READ_PROTECT != 0) == !has_bit(word, 0x1),
        (PageTableEntryX64::attributes(word) & READ_ONLY != 0) == !has_bit(word, 0x2),
        (PageTableEntryX64::attributes(word) & EXECUTE_PROTECT != 0) == has_bit(
            word,
            0x8000_0000_0000_0000,
        ),
        PageTableEntryX64::attributes(word) & !0x2_6000u64 == 0,
        PageTableEntryX64::restrictions(word) == PageTableEntryX64::attributes(word),
{
    lemma_bits(word);
    let a = PageTableEntryX64::attributes(word);
    let p = word & 0x1 != 0;
    let w = word & 0x2 != 0;
    let x = word & 0x8000_0000_0000_0000 != 0;
    assert({
        &&& (a & 0x2000 != 0) == !p
        &&& (a & 0x2_0000 != 0) == !w
        &&& (a & 0x4000 != 0) == x
        &&& a & !0x2_6000u64 == 0
    }) by (bit_vector)
        requires
            a == (if p { 0u64 } else { 0x2000 }) | (if w { 0u64 } else { 0x2_0000 }) | (if x {
                0x4000u64
            } else {
                0
            }),
    ;
}

/// An entry is written by its bits: in use unless reading is forbidden, writable unless writing
/// is, executable unless execution is, for user mode too, with bit 7 only where it maps more than
/// one page, and with bits 12 to 51 of the address. What is free for software, and what the
/// processor notes, stays.
pub proof fn law_written_bits(word: u64, attributes: u64, pa: u64, leaf_entry: bool, n: nat)
    requires
        1 <= n <= 5,
    ensures
        PageTableEntryX64::supported(attributes),
        ({
            let written = PageTableEntryX64::updated(word, attributes, pa, leaf_entry, n);
            &&& has_bit(written, 0x1) == !has_bit(attributes, 0x2000)
            &&& has_bit(written, 0x2) == !has_bit(attributes, 0x2_0000)
            &&& has_bit(written, 0x4)
            &&& has_bit(written, 0x80) == (leaf_entry && n > 1)
            &&& has_bit(written, 0x8000_0000_0000_0000) == has_bit(attributes, 0x4000)
            &&& address_in(written) == address_in(pa)
            &&& written & 0x7FF0_0000_0000_0F78 == word & 0x7FF0_0000_0000_0F78
        }),
{
    let w = PageTableEntryX64::updated(word, attributes, pa, leaf_entry, n);
    let a = attributes;
    let s = leaf_entry && n > 1;
    lemma_bits(w);
    lemma_bits(attributes);
    lemma_bits(pa);
    assert({
        &&& (w & 0x1 != 0) == (a & 0x2000 == 0)
        &&& (w & 0x2 != 0) == (a & 0x2_0000 == 0)
        &&& w & 0x4 != 0
        &&& (w & 0x80 != 0) == s
        &&& (w & 0x8000_0000_0000_0000 != 0) == (a & 0x4000 != 0)
        &&& w & 0x000F_FFFF_FFFF_F000 == pa & 0x000F_FFFF_FFFF_F000
        &&& w & 0x7FF0_0000_0000_0F78 == word & 0x7FF0_0000_0000_0F78
    }) by (bit_vector)
        requires
            w == (word & 0x7FF0_0000_0000_0F78) | (pa & 0x000F_FFFF_FFFF_F000) | 0x4 | (if a
                & 0x2000 != 0 {
                0u64
            } else {
                0x1
            }) | (if a & 0x2_0000 != 0 {
                0u64
            } else {
                0x2
            }) | (if a & 0x4000 != 0 {
                0x8000_0000_0000_0000u64
            } else {
                0
            }) | (if s {
                0x80u64
            } else {
                0
            }),
    ;
}

/// The attributes that an entry holds are those asked for, as far as they restrict access.
pub proof fn law_stored_bits(attributes: u64)
    ensures
        has_bit(PageTableEntryX64::stored(attributes), 0x2000) == has_bit(attributes, 0x2000),
        has_bit(PageTableEntryX64::stored(attributes), 0x4000) == has_bit(attributes, 0x4000),
        has_bit(PageTableEntryX64::stored(attributes), 0x2_0000) == has_bit(attributes, 0x2_0000),
        PageTableEntryX64::stored(attributes) & !0x2_6000u64 == 0,
        PageTableEntryX64::address_limit() == 0x10_0000_0000_0000,
{
    let s = PageTableEntryX64::stored(attributes);
    lemma_bits(s);
    lemma_bits(attributes);
    assert({
        &&& s & 0x2000 == attributes & 0x2000
        &&& s & 0x4000 == attributes & 0x4000
        &&& s & 0x2_0000 == attributes & 0x2_0000
        &&& s & !0x2_6000u64 == 0
    }) by (bit_vector)
        requires
            s == attributes & 0x2_6000,
    ;
}

/// The physical address of a byte in a leaf.
pub proof fn lemma_leaf_address(n: nat, base: int, i: int, va: int, address: int)
    requires
        1 <= n <= 3,
        0 <= i < 512,
        0 <= base,
        aligned(n + 1, base),
        entry_base(n, base, i) <= va < entry_base(n, base, i) + table_size(n) / 512,
    ensures
        va % reach(n) == va - entry_base(n, base, i),
        crate::tree::round_down(n, address) == address - address % reach(n),
{
    reveal_with_fuel(reach, 4);
    lemma_entry_within(n, base, i);
    let low = entry_base(n, base, i);
    let size = reach(n);
    assert(low % size == 0);
    vstd::arithmetic::div_mod::lemma_fundamental_div_mod(low, size);
    vstd::arithmetic::div_mod::lemma_mod_multiples_vanish(low / size, va - low, size);
    vstd::arithmetic::div_mod::lemma_small_mod((va - low) as nat, size as nat);
}

/// A walk ends where the processor's translation does.
#[verifier::rlimit(30)]
proof fn lemma_translation(frames: Frames, page: u64, n: nat, base: int, va: int)
    requires
        1 <= n <= 5,
        0 <= base <= va < base + table_size(n),
        aligned(n + 1, base),
    ensures
        ({
            let w = walk::<PageTableEntryX64>(frames, page, n, base, va);
            match translation(frames, page, n, va) {
                None => w.leaf is None,
                Some(t) => {
                    &&& w.leaf matches Some(leaf)
                    &&& leaf.pa == t.pa
                    &&& ((leaf.attributes | w.restrictions) & READ_ONLY != 0) == !t.writable
                    &&& ((leaf.attributes | w.restrictions) & EXECUTE_PROTECT != 0)
                        == !t.executable
                    &&& (leaf.attributes | w.restrictions) & READ_PROTECT == 0
                    &&& leaf.attributes & !0x2_6000u64 == 0
                    &&& w.restrictions & !0x2_6000u64 == 0
                },
            }
        }),
    decreases n,
{
    let i = entry_index(n, base, va);
    let word = word_at(frames, page, i);
    let low = entry_base(n, base, i);
    lemma_reach(n, base, va);
    lemma_entry_index(n, base, va);
    lemma_entry_within(n, base, i);
    law_entry_bits(word);
    let a = PageTableEntryX64::attributes(word);
    if has_bit(word, 0x1) {
        if n == 1 || (n <= 3 && has_bit(word, 0x80)) {
            lemma_leaf_address(n, base, i, va, address_in(word));
            lemma_union(a, 0);
        } else {
            let next = PageTableEntryX64::next_address(word);
            lemma_translation(frames, next, (n - 1) as nat, low, va);
            let below = walk::<PageTableEntryX64>(frames, next, (n - 1) as nat, low, va);
            if let Some(leaf) = below.leaf {
                lemma_union(a, below.restrictions);
                lemma_union(leaf.attributes, below.restrictions);
                lemma_union(leaf.attributes, a | below.restrictions);
            }
        }
    }
}

/// The page table means what the processor makes of it: an address is mapped exactly if the
/// processor finds memory for it, to the address that the processor finds, and with the
/// attributes that say what the processor lets pass.
pub proof fn law_processor_agrees<P: PageAllocator>(table: PageTableInternal<P>, va: int)
    requires
        0 <= va < address_count(table.spec_paging_type()),
    ensures
        match translation(
            table.frames(),
            table.root(),
            level_count(table.spec_paging_type()),
            va,
        ) {
            None => {
                &&& table.walk_at::<PageTableArchX64>(va).leaf is None
                &&& table.status_at::<PageTableArchX64>(va) is None
            },
            Some(t) => {
                &&& table.walk_at::<PageTableArchX64>(va).leaf matches Some(leaf)
                &&& leaf.pa == t.pa
                &&& table.status_at::<PageTableArchX64>(va) matches Some(bits)
                &&& (bits & READ_ONLY != 0) == !t.writable
                &&& (bits & EXECUTE_PROTECT != 0) == !t.executable
                &&& bits & READ_PROTECT == 0
                &&& bits & !0x2_6000u64 == 0
            },
        },
{
    let n = level_count(table.spec_paging_type());
    lemma_translation(table.frames(), table.root(), n, 0, va);
    let w = table.walk_at::<PageTableArchX64>(va);
    if let Some(leaf) = w.leaf {
        lemma_union(leaf.attributes, w.restrictions);
    }
}

/// Five levels are detected exactly if bit 12 of CR4 is set, whatever its other bits are.
pub proof fn law_detected_by_one_bit(cr4: u64)
    ensures
        selected_paging_type(cr4) is Paging5Level <==> (cr4 / 0x1000) % 2 == 1,
        selected_paging_type(cr4) is Paging4Level <==> (cr4 / 0x1000) % 2 == 0,
{
    lemma_bits(cr4);
}

/// A page table can be installed exactly if CR4 is not known, or selects as many levels as the page
/// table has. This leaves CR4 as it is, and CR3 holds the root. Otherwise the paging type is not
/// supported.
pub proof fn law_installed_exactly_if(registers: X64Registers, base: u64, paging_type: PagingType)
    ensures
        ({
            let fits = match registers.cr4 {
                None => true,
                Some(cr4) => ((cr4 / 0x1000) % 2 == 1) == (paging_type is Paging5Level),
            };
            match PageTableArchX64::installed(registers, base, paging_type) {
                Ok(after) => fits && after.cr3 == base && after.cr4 == registers.cr4,
                Err(e) => !fits && e == PtError::UnsupportedPagingType,
            }
        }),
{
    if let Some(cr4) = registers.cr4 {
        lemma_bits(cr4);
    }
}

/// A page table is in use exactly if CR3 is its root, of which bits 12 to 51 count. These bits of
/// CR3 are also the root of what is opened as active.
pub proof fn law_root_in_cr3(registers: X64Registers, base: u64)
    ensures
        PageTableArchX64::active(registers, base) <==> registers.cr3 == address_in(base),
        registers.cr3 & crate::x64::structs::CR3_PAGE_BASE_ADDRESS_MASK == address_in(
            registers.cr3,
        ),
{
    lemma_bits(base);
    lemma_bits(registers.cr3);
}

/// Without write protection bit 16 of CR0 is clear, and all else is as before. Setting it again
/// from what was saved sets no other bit.
pub proof fn law_write_protection_bit(cr0: u64, saved: u64)
    ensures
        !has_bit(cr0 & !crate::x64::CR0_WRITE_PROTECT, 0x1_0000),
        (cr0 & !crate::x64::CR0_WRITE_PROTECT) == cr0 - (if has_bit(cr0, 0x1_0000) {
            0x1_0000int
        } else {
            0
        }),
        (cr0 | (saved & crate::x64::CR0_WRITE_PROTECT)) == cr0 + (if has_bit(saved, 0x1_0000)
            && !has_bit(cr0, 0x1_0000) {
            0x1_0000int
        } else {
            0
        }),
{
    lemma_bits(cr0);
    lemma_bits(saved);
    lemma_bits(cr0 & !0x1_0000u64);
    assert({
        &&& (cr0 & !0x1_0000u64) & 0x1_0000 == 0
        &&& (cr0 & !0x1_0000u64) == cr0 - (if cr0 & 0x1_0000 != 0 {
            0x1_0000u64
        } else {
            0
        })
        &&& (cr0 | (saved & 0x1_0000)) == cr0 + (if saved & 0x1_0000 != 0 && cr0 & 0x1_0000 == 0 {
            0x1_0000u64
        } else {
            0
        })
    }) by (bit_vector);
}

/// An address is canonical exactly if all its bits from the highest one of the address space on
/// are the same: 17 bits with four levels, and 8 with five.
pub proof fn law_canonical_bits(address: u64, paging_type: PagingType)
    ensures
        is_canonical(address as int, paging_type) <==> match paging_type {
            PagingType::Paging4Level => {
                ||| address / 0x8000_0000_0000 == 0
                ||| address / 0x8000_0000_0000 == 0x1_FFFF
            },
            PagingType::Paging5Level => {
                ||| address / 0x100_0000_0000_0000 == 0
                ||| address / 0x100_0000_0000_0000 == 0xFF
            },
        },
{
}

/// Whether the bits of an address above the address space all repeat the highest bit in it.
pub open spec fn repeats_highest_bit(address: int, paging_type: PagingType) -> bool {
    let half = address_count(paging_type) / 2;
    address < half || address >= 0x1_0000_0000_0000_0000 - half
}

/// A range is not canonical for one of two reasons: its first address is not, which is an invalid
/// parameter, or the range does not go on from there in one piece.
pub proof fn law_canonical_errors(address: u64, size: u64, paging_type: PagingType)
    ensures
        canonical_error(address, size, paging_type) == Some(PtError::InvalidParameter)
            <==> !repeats_highest_bit(address as int, paging_type),
        canonical_error(address, size, paging_type) is None <==> {
            &&& size > 0
            &&& address + size <= 0x1_0000_0000_0000_0000
            &&& forall|a: int|
                address <= a < address + size ==> #[trigger] repeats_highest_bit(a, paging_type)
        },
        match canonical_error(address, size, paging_type) {
            None => true,
            Some(e) => e == PtError::InvalidParameter || e == PtError::InvalidMemoryRange,
        },
{
    let half = address_count(paging_type) / 2;
    if size > 0 {
        assert(address <= address < address + size);
        assert(repeats_highest_bit(address as int, paging_type) == (address < half || address
            >= 0x1_0000_0000_0000_0000 - half));
        if address < half && address + size > half {
            assert(!repeats_highest_bit(half, paging_type));
        }
    }
}

/// A range can be queried exactly if it is made of whole pages, at least one, and all its addresses
/// are canonical. Otherwise the error says what is wrong with the range, and nothing of what is
/// mapped.
pub proof fn law_queried_exactly_if<P: PageAllocator>(paging_type: PagingType, address: u64, size: u64)
    ensures
        X64PageTable::<P>::query_error(paging_type, address, size) is None <==> {
            &&& size > 0
            &&& address % 4096 == 0
            &&& size % 4096 == 0
            &&& address + size <= 0x1_0000_0000_0000_0000
            &&& forall|a: int|
                address <= a < address + size ==> #[trigger] repeats_highest_bit(a, paging_type)
        },
        X64PageTable::<P>::query_error(paging_type, address, size) == Some(PtError::InvalidParameter)
            <==> !repeats_highest_bit(address as int, paging_type),
        X64PageTable::<P>::query_error(paging_type, address, size) == Some(PtError::UnalignedAddress) <==> {
            &&& size > 0
            &&& address + size <= 0x1_0000_0000_0000_0000
            &&& address % 4096 != 0 || size % 4096 != 0
            &&& forall|a: int|
                address <= a < address + size ==> #[trigger] repeats_highest_bit(a, paging_type)
        },
        match X64PageTable::<P>::query_error(paging_type, address, size) {
            None => true,
            Some(e) => e == PtError::InvalidParameter || e == PtError::InvalidMemoryRange || e
                == PtError::UnalignedAddress,
        },
{
    law_canonical_errors(address, size, paging_type);
    lemma_same_half(paging_type, address, size);
}

/// A range in one half of the addresses does not leave the address space.
proof fn lemma_same_half(paging_type: PagingType, address: u64, size: u64)
    ensures
        canonical_error(address, size, paging_type) is None ==> address as int
            % paging_type.space() + size <= paging_type.space(),
{
    if canonical_error(address, size, paging_type) is None {
        lemma_canonical_low_bits(paging_type, address);
    }
}

/// The mappings of a range can be changed exactly if it can be queried, and its last address
/// selects a root entry below the two that are reserved. Every such range can be queried.
pub proof fn law_edited_exactly_if<P: PageAllocator>(paging_type: PagingType, address: u64, size: u64)
    ensures
        X64PageTable::<P>::edit_error(paging_type, address, size) is None <==> {
            &&& X64PageTable::<P>::query_error(paging_type, address, size) is None
            &&& match paging_type {
                PagingType::Paging4Level => ((address + size - 1) / 0x80_0000_0000) % 512 < 510,
                PagingType::Paging5Level => ((address + size - 1) / 0x1_0000_0000_0000) % 512 < 510,
            }
        },
        match X64PageTable::<P>::query_error(paging_type, address, size) {
            Some(e) => X64PageTable::<P>::edit_error(paging_type, address, size) == Some(e),
            None => match X64PageTable::<P>::edit_error(paging_type, address, size) {
                Some(e) => e == PtError::InvalidMemoryRange,
                None => true,
            },
        },
{
    lemma_same_half(paging_type, address, size);
    let last = address + size - 1;
    if X64PageTable::<P>::query_error(paging_type, address, size) is None {
        crate::x64::law_last_address_decides(paging_type, address, size);
    }
}

/// Pages are cleared through the first address of the last root entry, in canonical form. The last
/// address that may be mapped is the last one below the self map.
pub proof fn law_reserved_addresses(paging_type: PagingType)
    ensures
        match paging_type {
            PagingType::Paging4Level => {
                &&& PageTableArchX64::spec_zero_va(paging_type) matches Ok(zero_va)
                &&& zero_va.value == 0x1_0000_0000_0000_0000 - 0x80_0000_0000
                &&& PageTableArchX64::spec_max_va(paging_type).value + 1
                    == 0x1_0000_0000_0000_0000 - 2 * 0x80_0000_0000
            },
            PagingType::Paging5Level => {
                &&& PageTableArchX64::spec_zero_va(paging_type) matches Ok(zero_va)
                &&& zero_va.value == 0x1_0000_0000_0000_0000 - 0x1_0000_0000_0000
                &&& PageTableArchX64::spec_max_va(paging_type).value + 1
                    == 0x1_0000_0000_0000_0000 - 2 * 0x1_0000_0000_0000
            },
        },
        PageTableArchX64::spec_default_attributes() == 0,
        PageTableArchX64::spec_sign_extends(),
{
}

/// A page table maps itself exactly if entry 510 of the root is in use and holds the address of the
/// root.
pub proof fn law_self_map_entry<P: PageAllocator>(table: PageTableInternal<P>)
    ensures
        table.self_mapped::<PageTableArchX64>() <==> {
            let word = word_at(table.frames(), table.root(), 510);
            has_bit(word, 0x1) && address_in(word) == table.root()
        },
{
    law_entry_bits(word_at(table.frames(), table.root(), 510));
}

/// The self map shows the tables of every level that there is.
pub proof fn law_self_map_levels(level: PageLevel, paging_type: PagingType)
    ensures
        PageTableArchX64::self_map_defined(level, paging_type) <==> (level is Level5
            ==> paging_type is Paging5Level),
{
}

/// The processor finds the memory that was mapped: each address of the range at itself, as far as
/// an entry can hold it, writable and executable unless the attributes forbid it, and not at
/// all if they forbid reading.
pub proof fn law_processor_finds_mapped<P: PageAllocator>(
    before: PageTableInternal<P>,
    after: PageTableInternal<P>,
    address: u64,
    size: u64,
    attributes: MemoryAttributes,
    distance: int,
)
    requires
        edited::<P, PageTableArchX64>(before, after, address, size, Edit::Mapping { attributes }),
        unrestricted::<P, PageTableArchX64>(before),
        0 <= distance < size,
    ensures
        translation(
            after.frames(),
            after.root(),
            level_count(before.spec_paging_type()),
            address as int % address_count(before.spec_paging_type()) + distance,
        ) == if has_bit(attributes.bits, 0x2000) {
            None
        } else {
            Some(
                Translation {
                    pa: (address + distance) % 0x10_0000_0000_0000,
                    writable: !has_bit(attributes.bits, 0x2_0000),
                    executable: !has_bit(attributes.bits, 0x4000),
                },
            )
        },
{
    let paging_type = before.spec_paging_type();
    let edit = Edit::Mapping { attributes };
    let va = address as int % paging_type.space() + distance;
    lemma_accepted::<P, PageTableArchX64>(before, after, address, size, edit);
    lemma_job::<PageTableArchX64>(paging_type, address, size, edit);
    lemma_outside_self_map::<PageTableArchX64>(paging_type, address, size, va);
    lemma_edited::<P, PageTableArchX64>(before, after, address, size, edit, va);
    law_processor_agrees(after, va);
    law_stored_bits(attributes.bits);
    lemma_bits(attributes.bits);
    let stored = PageTableEntryX64::stored(attributes.bits);
    lemma_bits(stored);
    lemma_union(stored, 0);
}

/// The processor finds nothing where memory was unmapped.
pub proof fn law_processor_finds_nothing<P: PageAllocator>(
    before: PageTableInternal<P>,
    after: PageTableInternal<P>,
    address: u64,
    size: u64,
    distance: int,
)
    requires
        edited::<P, PageTableArchX64>(before, after, address, size, Edit::Removal),
        0 <= distance < size,
    ensures
        translation(
            after.frames(),
            after.root(),
            level_count(before.spec_paging_type()),
            address as int % address_count(before.spec_paging_type()) + distance,
        ) is None,
{
    let paging_type = before.spec_paging_type();
    let va = address as int % paging_type.space() + distance;
    lemma_accepted::<P, PageTableArchX64>(before, after, address, size, Edit::Removal);
    lemma_job::<PageTableArchX64>(paging_type, address, size, Edit::Removal);
    lemma_outside_self_map::<PageTableArchX64>(paging_type, address, size, va);
    lemma_edited::<P, PageTableArchX64>(before, after, address, size, Edit::Removal, va);
    law_processor_agrees(after, va);
}

/// The processor finds what it found before at every address that is neither in the range of an
/// edit nor in the self map.
pub proof fn law_processor_finds_rest<P: PageAllocator>(
    before: PageTableInternal<P>,
    after: PageTableInternal<P>,
    address: u64,
    size: u64,
    edit: Edit,
    va: int,
)
    requires
        edited::<P, PageTableArchX64>(before, after, address, size, edit),
        0 <= va < address_count(before.spec_paging_type()),
        va / reach(level_count(before.spec_paging_type())) != 510,
        ({
            let start = address as int % address_count(before.spec_paging_type());
            !(start <= va < start + size)
        }),
    ensures
        translation(after.frames(), after.root(), level_count(before.spec_paging_type()), va)
            == translation(
            before.frames(),
            before.root(),
            level_count(before.spec_paging_type()),
            va,
        ),
{
    reveal_with_fuel(reach, 6);
    lemma_accepted::<P, PageTableArchX64>(before, after, address, size, edit);
    lemma_edited::<P, PageTableArchX64>(before, after, address, size, edit, va);
    law_processor_agrees(before, va);
    law_processor_agrees(after, va);
}

/// In a new page table the processor finds nothing outside the self map, whose entry is in use,
/// writable and executable, points to the root, and is the only one of the first 511 that is
/// not empty.
pub proof fn law_processor_finds_new<P: PageAllocator>(
    page_allocator: P,
    paging_type: PagingType,
    requests: Seq<Request<P>>,
    table: PageTableInternal<P>,
    va: int,
)
    requires
        PageTableInternal::new_outcome::<PageTableArchX64>(
            page_allocator,
            paging_type,
            requests,
            Ok(table),
        ),
        are_fit(Map::empty(), requests, 0x10_0000_0000_0000),
        0 <= va < address_count(paging_type),
        va / reach(level_count(paging_type)) != 510,
    ensures
        translation(table.frames(), table.root(), level_count(paging_type), va) is None,
        unrestricted::<P, PageTableArchX64>(table),
        ({
            let word = word_at(table.frames(), table.root(), 510);
            &&& has_bit(word, 0x1)
            &&& has_bit(word, 0x2)
            &&& !has_bit(word, 0x8000_0000_0000_0000)
            &&& !has_bit(word, 0x80)
            &&& address_in(word) == table.root()
        }),
        forall|i: int|
            0 <= i < 510 ==> #[trigger] word_at(table.frames(), table.root(), i) == 0,
{
    reveal_with_fuel(reach, 6);
    law_stored_bits(0);
    law_new_with_fit_pages::<P, PageTableArchX64>(page_allocator, paging_type, requests, table);
    law_processor_agrees(table, va);
    let word = word_at(table.frames(), table.root(), 510);
    law_entry_bits(word);
    let a = PageTableEntryX64::attributes(word);
    lemma_bits(a);
    assert(!PageTableEntryX64::leaf(word, 2));
}

/// The word that maps a page while it is cleared: in use, writable, executable, and with the
/// address of the page.
pub proof fn law_window_bits(page: u64)
    requires
        page % 4096 == 0,
        page < 0x10_0000_0000_0000,
    ensures
        ({
            let word = PageTableEntryX64::updated(
                0,
                PageTableArchX64::spec_default_attributes(),
                page,
                true,
                1,
            );
            &&& has_bit(word, 0x1)
            &&& has_bit(word, 0x2)
            &&& !has_bit(word, 0x80)
            &&& !has_bit(word, 0x8000_0000_0000_0000)
            &&& address_in(word) == page
        }),
{
    law_written_bits(0, 0, page, true, 1);
}

/// What is said of the tables of a page table, or of the error in place of one, is said of the
/// result itself.
pub proof fn law_result_of_tables<P: PageAllocator>(r: Result<X64PageTable<P>, PtError>)
    ensures
        match r {
            Ok(table) => X64PageTable::internal_of(r) == Ok::<PageTableInternal<P>, PtError>(
                table.internal(),
            ),
            Err(e) => X64PageTable::internal_of(r) == Err::<PageTableInternal<P>, PtError>(e),
        },
{
}

} // verus!
