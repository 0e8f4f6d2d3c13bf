//! What holds of AArch64 page tables, in terms of what the processor does.
use vstd::prelude::*;
use crate::aarch64::structs::PageTableEntryAArch64;
use crate::aarch64::{
    physical_size, selected_paging_type, AArch64PageTable, AArch64Registers, PageTableArchAArch64,
};
use crate::arch::{canonical_va, PageTableEntry, PageTableHal};
use crate::attributes::{
    MemoryAttributes, EXECUTE_PROTECT, READ_ONLY, READ_PROTECT, UNCACHEABLE, WRITEBACK,
    WRITE_COMBINING, WRITE_THROUGH,
};
use crate::error::PtError;
use crate::laws::bits::{
    address_count, has_bit, lemma_bits, lemma_reach, lemma_union, level_count, reach,
};
use crate::laws::edits::{
    edited, lemma_accepted, lemma_edited, lemma_job, lemma_outside_self_map, unrestricted,
};
use crate::laws::queries::law_range_errors;
use crate::laws::requests::{are_fit, law_new_with_fit_pages};
use crate::laws::x64::lemma_leaf_address;
use crate::memory::word_at;
use crate::page_allocator::{PageAllocator, Request};
use crate::page_table::PageTable;
use crate::paging::{range_error, PageTableInternal};
use crate::structs::{
    aligned, entry_base, entry_index, lemma_entry_index, lemma_entry_within, table_size, PageLevel,
    PagingType,
};
use crate::tree::{walk, Edit, Frames};

verus! {

/// What the processor makes of an address: where the byte is, what may be done with it, and the
/// type of the memory, as a byte of MAIR.
pub struct Translation {
    pub pa: int,
    pub writable: bool,
    pub executable: bool,
    pub memory: int,
}

/// The physical address in an entry: bits 12 to 47.
pub open spec fn address_in(word: u64) -> int {
    ((word as int / 0x1000) % 0x10_0000_0000) * 0x1000
}

/// The byte of MAIR that bits 2 to 4 of an entry select.
pub open spec fn memory_in(mair: u64, word: u64) -> int {
    let index = (word as int / 4) % 8;
    if index == 0 {
        mair as int % 0x100
    } else if index == 1 {
        (mair as int / 0x100) % 0x100
    } else if index == 2 {
        (mair as int / 0x1_0000) % 0x100
    } else if index == 3 {
        (mair as int / 0x100_0000) % 0x100
    } else if index == 4 {
        (mair as int / 0x1_0000_0000) % 0x100
    } else if index == 5 {
        (mair as int / 0x100_0000_0000) % 0x100
    } else if index == 6 {
        (mair as int / 0x1_0000_0000_0000) % 0x100
    } else {
        mair as int / 0x100_0000_0000_0000
    }
}

/// The byte of MAIR for a cache attribute: device memory, normal memory without caching, with
/// write-through caching, and with write-back caching.
pub open spec fn memory_for(cache: u64) -> int {
    if cache == UNCACHEABLE {
        0x00
    } else if cache == WRITE_COMBINING {
        0x44
    } else if cache == WRITE_THROUGH {
        0xBB
    } else {
        0xFF
    }
}

/// What MAIR is in a page table that has been installed.
pub open spec fn installed_mair() -> u64 {
    0xFFBB_4400
}

/// How the processor translates `va` from the table in `page` on, which is at depth `k`. An entry
/// without bit 0 ends in a fault. Entries map memory at the lowest depth, and without bit 1 also
/// at the second and the third. Memory can be written unless bit 7 of the last entry or bit 62
/// of one for a table is set, and executed unless bit 53 or 54, or bit 59 or 60, is.
pub open spec fn translation(frames: Frames, page: u64, k: nat, va: int) -> Option<Translation>
    decreases k,
{
    let word = word_at(frames, page, (va / reach(k)) % 512);
    if k == 0 || !has_bit(word, 0x1) {
        None
    } else if k == 1 || (k <= 3 && !has_bit(word, 0x2)) {
        Some(
            Translation {
                pa: address_in(word) - address_in(word) % reach(k) + va % reach(k),
                writable: !has_bit(word, 0x80),
                executable: !has_bit(word, 0x20_0000_0000_0000) && !has_bit(
                    word,
                    0x40_0000_0000_0000,
                ),
                memory: memory_in(installed_mair(), word),
            },
        )
    } else {
        match translation(frames, address_in(word) as u64, (k - 1) as nat, va) {
            None => None,
            Some(below) => Some(
                Translation {
                    pa: below.pa,
                    writable: below.writable && !has_bit(word, 0x4000_0000_0000_0000),
                    executable: below.executable && !has_bit(word, 0x800_0000_0000_0000)
                        && !has_bit(word, 0x1000_0000_0000_0000),
                    memory: below.memory,
                },
            ),
        }
    }
}

/// Whether a set of flags has exactly one cache attribute, and which.
pub open spec fn one_cache_attribute(attributes: u64) -> bool {
    let cache = attributes % 16;
    cache == UNCACHEABLE || cache == WRITE_COMBINING || cache == WRITE_THROUGH || cache == WRITEBACK
}

/// An entry is read by its bits, and its cache attribute is the one of the memory type that it
/// selects in MAIR.
pub proof fn law_entry_bits(word: u64)
    ensures
        PageTableEntryAArch64::present(word) == has_bit(word, 0x1),
        PageTableEntryAArch64::next_address(word) == address_in(word),
        forall|n: nat|
            1 <= n <= 5 ==> #[trigger] PageTableEntryAArch64::leaf(word, n) == (n == 1 || (n <= 3
                && !has_bit(word, 0x2))),
        ({
            let a = PageTableEntryAArch64::attributes(word);
            &&& (a & READ_PROTECT != 0) == !has_bit(word, 0x1)
            &&& (a & READ_ONLY != 0) == has_bit(word, 0x80)
            &&& (a & EXECUTE_PROTECT != 0) == (has_bit(word, 0x20_0000_0000_0000) || has_bit(
                word,
                0x40_0000_0000_0000,
            ))
            &&& one_cache_attribute(a)
            &&& memory_in(installed_mair(), word) == memory_for(a % 16)
            &&& a & !0x2_600Fu64 == 0
        }),
        ({
            let b = PageTableEntryAArch64::restrictions(word);
            &&& (b & READ_ONLY != 0) == has_bit(word, 0x4000_0000_0000_0000)
            &&& (b & EXECUTE_PROTECT != 0) == (has_bit(word, 0x800_0000_0000_0000) || has_bit(
                word,
                0x1000_0000_0000_0000,
            ))
            &&& b & READ_PROTECT == 0
            &&& b & !0x2_6000u64 == 0
        }),
{
    lemma_bits(word);
    let a = PageTableEntryAArch64::attributes(word);
    lemma_bits(a);
    let b = PageTableEntryAArch64::restrictions(word);
    let c = crate::aarch64::structs::cache_attribute(word);
    let p = word & 0x1 != 0;
    let w = word & 0x80 != 0;
    let x = word & 0x0060_0000_0000_0000 != 0;
    let tw = word & 0x4000_0000_0000_0000 != 0;
    let tx = word & 0x1800_0000_0000_0000 != 0;
    assert({
        &&& (a & 0x2000 != 0) == !p
        &&& (a & 0x2_0000 != 0) == w
        &&& (a & 0x4000 != 0) == x
        &&& a & 0xF == c
        &&& a & !0x2_600Fu64 == 0
        &&& (b & 0x2_0000 != 0) == tw
        &&& (b & 0x4000 != 0) == tx
        &&& b & 0x2000 == 0
        &&& b & !0x2_6000u64 == 0
    }) by (bit_vector)
        requires
            c == 1 || c == 2 || c == 4 || c == 8,
            a == (if p { 0u64 } else { 0x2000 }) | (if w { 0x2_0000u64 } else { 0 }) | (if x {
                0x4000u64
            } else {
                0
            }) | c,
            b == (if tw { 0x2_0000u64 } else { 0 }) | (if tx { 0x4000u64 } else { 0 }),
    ;
}

/// An entry is written by its bits, whatever was in it: in use unless reading is forbidden, read
/// only if writing is, not executable at all if execution is, and with the memory type in MAIR of
/// the cache attribute asked for. The accessed flag is set, bit 1 is set except where the entry
/// maps more than one page, and cached memory is inner shareable. All else is clear but for the
/// bits that are free for software.
pub proof fn law_written_bits(word: u64, attributes: u64, pa: u64, leaf_entry: bool, n: nat)
    requires
        1 <= n <= 5,
        PageTableEntryAArch64::supported(attributes),
    ensures
        ({
            let written = PageTableEntryAArch64::updated(word, attributes, pa, leaf_entry, n);
            &&& has_bit(written, 0x1) == !has_bit(attributes, 0x2000)
            &&& has_bit(written, 0x2) == !(leaf_entry && n > 1)
            &&& memory_in(installed_mair(), written) == memory_for(attributes % 16)
            &&& has_bit(written, 0x80) == has_bit(attributes, 0x2_0000)
            &&& has_bit(written, 0x20_0000_0000_0000) == has_bit(attributes, 0x4000)
            &&& has_bit(written, 0x40_0000_0000_0000) == has_bit(attributes, 0x4000)
            &&& (written / 0x100) % 8 == (if attributes % 16 == WRITE_THROUGH || attributes % 16
                == WRITEBACK {
                7int
            } else {
                4
            })
            &&& address_in(written) == address_in(pa)
            &&& written & 0x0780_0000_0000_0000 == word & 0x0780_0000_0000_0000
            &&& !has_bit(written, 0x800_0000_0000_0000)
            &&& !has_bit(written, 0x1000_0000_0000_0000)
            &&& !has_bit(written, 0x4000_0000_0000_0000)
            &&& written & 0xF81F_0000_0000_0860 == 0
        }),
{
    let w = PageTableEntryAArch64::updated(word, attributes, pa, leaf_entry, n);
    let a = attributes;
    let t = crate::aarch64::structs::memory_type(attributes);
    let s = leaf_entry && n > 1;
    lemma_bits(w);
    lemma_bits(attributes);
    lemma_bits(pa);
    assert({
        &&& (w & 0x1 != 0) == (a & 0x2000 == 0)
        &&& (w & 0x2 == 0) == s
        &&& (w & 0x80 != 0) == (a & 0x2_0000 != 0)
        &&& ((w / 0x20_0000_0000_0000) % 2 == 1) == (a & 0x4000 != 0)
        &&& ((w / 0x40_0000_0000_0000) % 2 == 1) == (a & 0x4000 != 0)
        &&& (w / 0x100) % 8 == (if t == 0x308 || t == 0x30C {
            7u64
        } else {
            4
        })
        &&& (w / 4) % 8 == (if t == 0 {
            0u64
        } else if t == 4 {
            1
        } else if t == 0x308 {
            2
        } else {
            3
        })
        &&& w & 0x0000_FFFF_FFFF_F000 == pa & 0x0000_FFFF_FFFF_F000
        &&& w & 0x0780_0000_0000_0000 == word & 0x0780_0000_0000_0000
        &&& w & 0x1800_0000_0000_0000 == 0
        &&& w & 0x4000_0000_0000_0000 == 0
        &&& w & 0xF81F_0000_0000_0860 == 0
        &&& 0x8u64 | 0x300 == 0x308
        &&& 0xCu64 | 0x300 == 0x30C
    }) by (bit_vector)
        requires
            t == 0 || t == 4 || t == 0x8u64 | 0x300 || t == 0xCu64 | 0x300,
            w == (word & 0x0780_0000_0000_0000) | (pa & 0x0000_FFFF_FFFF_F000) | 0x400 | t | (if a
                & 0x2000 != 0 {
                0u64
            } else {
                0x1
            }) | (if a & 0x2_0000 != 0 {
                0x80u64
            } else {
                0
            }) | (if a & 0x4000 != 0 {
                0x0060_0000_0000_0000u64
            } else {
                0
            }) | (if s {
                0u64
            } else {
                0x2
            }),
    ;
}

/// An entry can hold attributes exactly if just one of them is a cache attribute. It holds that one
/// and those that restrict access.
pub proof fn law_stored_bits(attributes: u64)
    ensures
        PageTableEntryAArch64::supported(attributes) <==> one_cache_attribute(attributes),
        has_bit(PageTableEntryAArch64::stored(attributes), 0x2000) == has_bit(attributes, 0x2000),
        has_bit(PageTableEntryAArch64::stored(attributes), 0x4000) == has_bit(attributes, 0x4000),
        has_bit(PageTableEntryAArch64::stored(attributes), 0x2_0000) == has_bit(
            attributes,
            0x2_0000,
        ),
        PageTableEntryAArch64::stored(attributes) % 16 == attributes % 16,
        PageTableEntryAArch64::stored(attributes) & !0x2_600Fu64 == 0,
        PageTableEntryAArch64::address_limit() == 0x1_0000_0000_0000,
{
    let s = PageTableEntryAArch64::stored(attributes);
    lemma_bits(s);
    lemma_bits(attributes);
    assert({
        &&& s & 0x2000 == attributes & 0x2000
        &&& s & 0x4000 == attributes & 0x4000
        &&& s & 0x2_0000 == attributes & 0x2_0000
        &&& s & 0xF == attributes & 0xF
        &&& s & !0x2_600Fu64 == 0
    }) by (bit_vector)
        requires
            s == attributes & 0x2_600F,
    ;
}

/// A walk ends where the processor's translation does.
#[verifier::rlimit(30)]
proof fn lemma_translation(frames: Frames, page: u64, n: nat, base: int, va: int)
    requires
        1 <= n <= 5,
        0 <= base <= va < base + table_size(n),
        aligned(n + 1, base),
    ensures
        ({
            let w = walk::<PageTableEntryAArch64>(frames, page, n, base, va);
            match translation(frames, page, n, va) {
                None => w.leaf is None,
                Some(t) => {
                    &&& w.leaf matches Some(leaf)
                    &&& leaf.pa == t.pa
                    &&& ((leaf.attributes | w.restrictions) & READ_ONLY != 0) == !t.writable
                    &&& ((leaf.attributes | w.restrictions) & EXECUTE_PROTECT != 0)
                        == !t.executable
                    &&& (leaf.attributes | w.restrictions) & READ_PROTECT == 0
                    &&& one_cache_attribute(leaf.attributes)
                    &&& memory_for(leaf.attributes % 16) == t.memory
                    &&& leaf.attributes & !0x2_600Fu64 == 0
                    &&& w.restrictions & !0x2_6000u64 == 0
                },
            }
        }),
    decreases n,
{
    let i = entry_index(n, base, va);
    let word = word_at(frames, page, i);
    let low = entry_base(n, base, i);
    lemma_reach(n, base, va);
    lemma_entry_index(n, base, va);
    lemma_entry_within(n, base, i);
    law_entry_bits(word);
    let a = PageTableEntryAArch64::attributes(word);
    let b = PageTableEntryAArch64::restrictions(word);
    if has_bit(word, 0x1) {
        if n == 1 || (n <= 3 && !has_bit(word, 0x2)) {
            lemma_leaf_address(n, base, i, va, address_in(word));
            lemma_union(a, 0);
        } else {
            let next = PageTableEntryAArch64::next_address(word);
            lemma_translation(frames, next, (n - 1) as nat, low, va);
            let below = walk::<PageTableEntryAArch64>(frames, next, (n - 1) as nat, low, va);
            if let Some(leaf) = below.leaf {
                lemma_union(b, below.restrictions);
                lemma_union(leaf.attributes, below.restrictions);
                lemma_union(leaf.attributes, b | below.restrictions);
            }
        }
    }
}

/// The page table means what the processor makes of it: an address is mapped exactly if the
/// processor finds memory for it, to the address that the processor finds, with the attributes
/// that say what the processor lets pass, and with the cache attribute of the memory type that
/// the processor uses.
pub proof fn law_processor_agrees<P: PageAllocator>(table: PageTableInternal<P>, va: int)
    requires
        0 <= va < address_count(table.spec_paging_type()),
    ensures
        match translation(
            table.frames(),
            table.root(),
            level_count(table.spec_paging_type()),
            va,
        ) {
            None => {
                &&& table.walk_at::<PageTableArchAArch64>(va).leaf is None
                &&& table.status_at::<PageTableArchAArch64>(va) is None
            },
            Some(t) => {
                &&& table.walk_at::<PageTableArchAArch64>(va).leaf matches Some(leaf)
                &&& leaf.pa == t.pa
                &&& table.status_at::<PageTableArchAArch64>(va) matches Some(bits)
                &&& (bits & READ_ONLY != 0) == !t.writable
                &&& (bits & EXECUTE_PROTECT != 0) == !t.executable
                &&& bits & READ_PROTECT == 0
                &&& one_cache_attribute(bits)
                &&& memory_for(bits % 16) == t.memory
                &&& bits & !0x2_600Fu64 == 0
            },
        },
{
    let n = level_count(table.spec_paging_type());
    lemma_translation(table.frames(), table.root(), n, 0, va);
    let w = table.walk_at::<PageTableArchAArch64>(va);
    if let Some(leaf) = w.leaf {
        lemma_union(leaf.attributes, w.restrictions);
        lemma_bits(leaf.attributes);
        lemma_bits(leaf.attributes | w.restrictions);
    }
}

/// The paging type goes by two fields of TCR, whatever its other bits are: bits 14 and 15 have to
/// be zero, for pages of 4 KB, and bits 0 to 5 say how many bits of an address are not used.
pub proof fn law_detected_by_two_fields(tcr: u64)
    ensures
        ({
            let granule = (tcr / 0x4000) % 4;
            let unused = tcr % 0x40;
            &&& selected_paging_type(tcr) == Ok::<PagingType, PtError>(PagingType::Paging4Level)
                <==> granule == 0 && 16 <= unused <= 24
            &&& selected_paging_type(tcr) == Ok::<PagingType, PtError>(PagingType::Paging5Level)
                <==> granule == 0 && 12 <= unused <= 15
            &&& selected_paging_type(tcr) == Err::<PagingType, PtError>(
                PtError::UnsupportedPagingType,
            ) <==> granule != 0 || unused < 12 || unused > 24
        }),
{
}

/// How many bits of physical address a code in TCR stands for.
pub open spec fn physical_bits(code: int) -> int {
    if code == 0 {
        32
    } else if code == 1 {
        36
    } else if code == 2 {
        40
    } else if code == 3 {
        42
    } else if code == 4 {
        44
    } else {
        48
    }
}

/// The code for the size of physical addresses is the smallest one that is enough for them, of
/// which no more than 48 bits count.
pub proof fn law_physical_size(pa_bits: u64)
    ensures
        ({
            let bits = if pa_bits <= 48 {
                pa_bits as int
            } else {
                48
            };
            let code = physical_size(pa_bits) as int;
            &&& 0 <= code <= 5
            &&& bits <= physical_bits(code)
            &&& code > 0 ==> physical_bits(code - 1) < bits
        }),
{
}

/// What is installed: the root, the memory types that entries select, and in TCR an address space
/// of 48 bits, pages of 4 KB, table walks through inner shareable write-back memory, and the size
/// of physical addresses. At EL1 the upper half of the addresses is not translated, and bit 31 is
/// set; at EL2 the reserved bits 23 and 31 are. This succeeds exactly with four levels, and changes
/// nothing else.
pub proof fn law_installed_exactly_if(
    registers: AArch64Registers,
    base: u64,
    paging_type: PagingType,
)
    ensures
        match PageTableArchAArch64::installed(registers, base, paging_type) {
            Err(e) => paging_type is Paging5Level && e == PtError::UnsupportedPagingType,
            Ok(after) => {
                let code = physical_size(registers.pa_bits);
                &&& paging_type is Paging4Level
                &&& after.ttbr0 == base
                &&& after.mair == installed_mair()
                &&& after.pa_bits == registers.pa_bits
                &&& after.exception_level == registers.exception_level
                &&& after.tcr == 16 + 0x100 + 0x400 + 0x3000 + 0x80_0000 + 0x8000_0000 + code * (
                if registers.exception_level is EL2 {
                    0x1_0000int
                } else {
                    0x1_0000_0000
                })
            },
        },
{
    let ps = physical_size(registers.pa_bits);
    let el2 = crate::aarch64::TCR_EL2_DEFAULTS | (ps << crate::aarch64::TCR_EL2_PS_SHIFT);
    let el1 = crate::aarch64::TCR_EL1_DEFAULTS | (ps << crate::aarch64::TCR_EL1_IPS_SHIFT);
    assert(el2 == 0x8080_3510 + ps * 0x1_0000 && el1 == 0x8080_3510 + ps * 0x1_0000_0000)
        by (bit_vector)
        requires
            ps <= 5,
            el2 == 0x400u64 | 0x100 | 0x3000 | 0x8080_0000 | 16 | (ps << 16u64),
            el1 == 0x400u64 | 0x100 | 0x3000 | 16 | 0x8000_0000 | 0x80_0000 | (ps << 32u64),
    ;
}

/// A page table is in use exactly if it is the one in TTBR0.
pub proof fn law_root_in_ttbr0(registers: AArch64Registers, base: u64)
    ensures
        PageTableArchAArch64::active(registers, base) <==> registers.ttbr0 == base,
{
}

/// A range can be queried exactly if it is made of whole pages, at least one, and does not leave
/// the address space. Otherwise the error says what is wrong with the range, and nothing of what is
/// mapped.
pub proof fn law_queried_exactly_if<P: PageAllocator>(
    paging_type: PagingType,
    address: u64,
    size: u64,
)
    ensures
        AArch64PageTable::<P>::query_error(paging_type, address, size) is None <==> {
            &&& size > 0
            &&& address % 4096 == 0
            &&& size % 4096 == 0
            &&& address as int % address_count(paging_type) + size <= address_count(paging_type)
        },
        AArch64PageTable::<P>::query_error(paging_type, address, size) == Some(
            PtError::UnalignedAddress,
        ) <==> {
            &&& size > 0
            &&& address + size <= 0x1_0000_0000_0000_0000
            &&& address % 4096 != 0 || size % 4096 != 0
        },
        match AArch64PageTable::<P>::query_error(paging_type, address, size) {
            None => true,
            Some(e) => e == PtError::UnalignedAddress || e == PtError::InvalidMemoryRange,
        },
{
    law_range_errors(paging_type, address, size);
}

/// The mappings of a range can be changed exactly if it can be queried and lies below the self map,
/// with all bits above the address space zero. With five levels it has to lie in the first 52 bits.
pub proof fn law_edited_exactly_if<P: PageAllocator>(
    paging_type: PagingType,
    address: u64,
    size: u64,
)
    ensures
        AArch64PageTable::<P>::edit_error(paging_type, address, size) is None <==> {
            &&& AArch64PageTable::<P>::query_error(paging_type, address, size) is None
            &&& match paging_type {
                PagingType::Paging4Level => address + size <= 510 * 0x80_0000_0000,
                PagingType::Paging5Level => address + size <= 0x10_0000_0000_0000,
            }
        },
        match AArch64PageTable::<P>::query_error(paging_type, address, size) {
            Some(e) => AArch64PageTable::<P>::edit_error(paging_type, address, size) == Some(e),
            None => match AArch64PageTable::<P>::edit_error(paging_type, address, size) {
                Some(e) => e == PtError::InvalidMemoryRange,
                None => true,
            },
        },
{
    if range_error(paging_type, address, size) is None {
        crate::aarch64::law_last_address_decides(paging_type, address, size);
    }
}

/// Pages are cleared through the first address of the last root entry, which there is only with
/// four levels. Addresses are not sign extended, and tables are linked as write-back memory.
pub proof fn law_reserved_addresses(paging_type: PagingType, va: int)
    ensures
        match paging_type {
            PagingType::Paging4Level => {
                &&& PageTableArchAArch64::spec_zero_va(paging_type) matches Ok(zero_va)
                &&& zero_va.value == 511 * 0x80_0000_0000
                &&& PageTableArchAArch64::spec_max_va(paging_type).value + 1 == 510
                    * 0x80_0000_0000
            },
            PagingType::Paging5Level => {
                &&& PageTableArchAArch64::spec_zero_va(paging_type) matches Err(e)
                &&& e == PtError::UnsupportedPagingType
                &&& PageTableArchAArch64::spec_max_va(paging_type).value + 1 == 0x10_0000_0000_0000
            },
        },
        PageTableArchAArch64::spec_default_attributes() == WRITEBACK,
        canonical_va(va, paging_type, PageTableArchAArch64::spec_sign_extends()) == va,
        forall|level: PageLevel| #[trigger]
            PageTableArchAArch64::self_map_defined(level, paging_type) <==> paging_type
                is Paging4Level && level !is Level5,
{
}

/// A page table maps itself exactly if entry 510 of the root is in use and holds the address of the
/// root.
pub proof fn law_self_map_entry<P: PageAllocator>(table: PageTableInternal<P>)
    ensures
        table.self_mapped::<PageTableArchAArch64>() <==> {
            let word = word_at(table.frames(), table.root(), 510);
            has_bit(word, 0x1) && address_in(word) == table.root()
        },
{
    law_entry_bits(word_at(table.frames(), table.root(), 510));
}

/// The processor finds the memory that was mapped: each address of the range at itself, as far as
/// an entry can hold it, writable and executable unless the attributes forbid it, of the memory
/// type of the cache attribute, and not at all if they forbid reading.
pub proof fn law_processor_finds_mapped<P: PageAllocator>(
    before: PageTableInternal<P>,
    after: PageTableInternal<P>,
    address: u64,
    size: u64,
    attributes: MemoryAttributes,
    distance: int,
)
    requires
        edited::<P, PageTableArchAArch64>(before, after, address, size, Edit::Mapping { attributes }),
        one_cache_attribute(attributes.bits),
        unrestricted::<P, PageTableArchAArch64>(before),
        0 <= distance < size,
    ensures
        translation(
            after.frames(),
            after.root(),
            level_count(before.spec_paging_type()),
            address as int % address_count(before.spec_paging_type()) + distance,
        ) == if has_bit(attributes.bits, 0x2000) {
            None
        } else {
            Some(
                Translation {
                    pa: (address + distance) % 0x1_0000_0000_0000,
                    writable: !has_bit(attributes.bits, 0x2_0000),
                    executable: !has_bit(attributes.bits, 0x4000),
                    memory: memory_for(attributes.bits % 16),
                },
            )
        },
{
    let paging_type = before.spec_paging_type();
    let edit = Edit::Mapping { attributes };
    let va = address as int % paging_type.space() + distance;
    lemma_accepted::<P, PageTableArchAArch64>(before, after, address, size, edit);
    lemma_job::<PageTableArchAArch64>(paging_type, address, size, edit);
    lemma_outside_self_map::<PageTableArchAArch64>(paging_type, address, size, va);
    lemma_edited::<P, PageTableArchAArch64>(before, after, address, size, edit, va);
    law_processor_agrees(after, va);
    law_stored_bits(attributes.bits);
    lemma_bits(attributes.bits);
    let stored = PageTableEntryAArch64::stored(attributes.bits);
    lemma_bits(stored);
    lemma_union(stored, 0);
}

/// The processor finds nothing where memory was unmapped.
pub proof fn law_processor_finds_nothing<P: PageAllocator>(
    before: PageTableInternal<P>,
    after: PageTableInternal<P>,
    address: u64,
    size: u64,
    distance: int,
)
    requires
        edited::<P, PageTableArchAArch64>(before, after, address, size, Edit::Removal),
        0 <= distance < size,
    ensures
        translation(
            after.frames(),
            after.root(),
            level_count(before.spec_paging_type()),
            address as int % address_count(before.spec_paging_type()) + distance,
        ) is None,
{
    let paging_type = before.spec_paging_type();
    let va = address as int % paging_type.space() + distance;
    lemma_accepted::<P, PageTableArchAArch64>(before, after, address, size, Edit::Removal);
    lemma_job::<PageTableArchAArch64>(paging_type, address, size, Edit::Removal);
    lemma_outside_self_map::<PageTableArchAArch64>(paging_type, address, size, va);
    lemma_edited::<P, PageTableArchAArch64>(before, after, address, size, Edit::Removal, va);
    law_processor_agrees(after, va);
}

/// The processor finds what it found before at every address that is neither in the range of an
/// edit nor in the self map.
pub proof fn law_processor_finds_rest<P: PageAllocator>(
    before: PageTableInternal<P>,
    after: PageTableInternal<P>,
    address: u64,
    size: u64,
    edit: Edit,
    va: int,
)
    requires
        edited::<P, PageTableArchAArch64>(before, after, address, size, edit),
        0 <= va < address_count(before.spec_paging_type()),
        va / reach(level_count(before.spec_paging_type())) != 510,
        ({
            let start = address as int % address_count(before.spec_paging_type());
            !(start <= va < start + size)
        }),
    ensures
        translation(after.frames(), after.root(), level_count(before.spec_paging_type()), va)
            == translation(
            before.frames(),
            before.root(),
            level_count(before.spec_paging_type()),
            va,
        ),
{
    reveal_with_fuel(reach, 6);
    lemma_accepted::<P, PageTableArchAArch64>(before, after, address, size, edit);
    lemma_edited::<P, PageTableArchAArch64>(before, after, address, size, edit, va);
    law_processor_agrees(before, va);
    law_processor_agrees(after, va);
}

/// In a new page table the processor finds nothing outside the self map, whose entry is in use
/// without restrictions, points to the root, and is the only one of the first 511 that is not
/// empty.
pub proof fn law_processor_finds_new<P: PageAllocator>(
    page_allocator: P,
    paging_type: PagingType,
    requests: Seq<Request<P>>,
    table: PageTableInternal<P>,
    va: int,
)
    requires
        PageTableInternal::new_outcome::<PageTableArchAArch64>(
            page_allocator,
            paging_type,
            requests,
            Ok(table),
        ),
        are_fit(Map::empty(), requests, 0x1_0000_0000_0000),
        0 <= va < address_count(paging_type),
        va / reach(level_count(paging_type)) != 510,
    ensures
        translation(table.frames(), table.root(), level_count(paging_type), va) is None,
        unrestricted::<P, PageTableArchAArch64>(table),
        ({
            let word = word_at(table.frames(), table.root(), 510);
            &&& has_bit(word, 0x1)
            &&& has_bit(word, 0x2)
            &&& !has_bit(word, 0x80)
            &&& !has_bit(word, 0x20_0000_0000_0000)
            &&& !has_bit(word, 0x40_0000_0000_0000)
            &&& !has_bit(word, 0x800_0000_0000_0000)
            &&& !has_bit(word, 0x1000_0000_0000_0000)
            &&& !has_bit(word, 0x4000_0000_0000_0000)
            &&& memory_in(installed_mair(), word) == 0xFF
            &&& address_in(word) == table.root()
        }),
        forall|i: int|
            0 <= i < 510 ==> #[trigger] word_at(table.frames(), table.root(), i) == 0,
{
    reveal_with_fuel(reach, 6);
    law_stored_bits(WRITEBACK);
    law_new_with_fit_pages::<P, PageTableArchAArch64>(page_allocator, paging_type, requests, table);
    law_processor_agrees(table, va);
    let word = word_at(table.frames(), table.root(), 510);
    law_entry_bits(word);
    lemma_bits(0);
    lemma_bits(WRITEBACK);
    lemma_union(WRITEBACK, 0);
    assert(!PageTableEntryAArch64::leaf(word, 2));
}

/// The word that maps a page while it is cleared: in use, writable, executable, write-back memory,
/// and with the address of the page.
pub proof fn law_window_bits(page: u64)
    requires
        page % 4096 == 0,
        page < 0x1_0000_0000_0000,
    ensures
        ({
            let word = PageTableEntryAArch64::updated(
                0,
                PageTableArchAArch64::spec_default_attributes(),
                page,
                true,
                1,
            );
            &&& has_bit(word, 0x1)
            &&& has_bit(word, 0x2)
            &&& !has_bit(word, 0x80)
            &&& !has_bit(word, 0x20_0000_0000_0000)
            &&& !has_bit(word, 0x40_0000_0000_0000)
            &&& memory_in(installed_mair(), word) == 0xFF
            &&& address_in(word) == page
        }),
{
    law_stored_bits(WRITEBACK);
    law_written_bits(0, WRITEBACK, page, true, 1);
}

/// What is said of the tables of a page table, or of the error in place of one, is said of the
/// result itself.
pub proof fn law_result_of_tables<P: PageAllocator>(r: Result<AArch64PageTable<P>, PtError>)
    ensures
        match r {
            Ok(table) => AArch64PageTable::internal_of(r) == Ok::<PageTableInternal<P>, PtError>(
                table.internal(),
            ),
            Err(e) => AArch64PageTable::internal_of(r) == Err::<PageTableInternal<P>, PtError>(e),
        },
{
}

} // verus!
