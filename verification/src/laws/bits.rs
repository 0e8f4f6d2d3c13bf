//! Bits of words and addresses, as numbers.
use vstd::prelude::*;
use crate::attributes::{
    read_protected, ACCESS_MASK, CACHE_MASK, EXECUTE_PROTECT, READ_ONLY, READ_PROTECT, UNCACHEABLE,
    WRITEBACK, WRITE_COMBINING, WRITE_THROUGH,
};
use crate::structs::{
    aligned, entry_index, lemma_index, table_size, va_index, PagingType, MAX_ENTRIES, PAGE_SIZE,
    SELF_MAP_INDEX, SIZE_16TB, SIZE_1GB, SIZE_1TB, SIZE_256TB, SIZE_2MB, SIZE_4GB, SIZE_4KB,
    SIZE_4TB, SIZE_512GB, SIZE_64GB, ZERO_VA_INDEX,
};

verus! {

/// Whether a word holds the bit of the given weight.
pub open spec fn has_bit(word: u64, weight: int) -> bool {
    (word as int / weight) % 2 == 1
}

/// How many addresses an entry at depth `k` stands for: a page at the lowest depth, and as many as
/// a whole table of the depth below otherwise.
pub open spec fn reach(k: nat) -> int
    decreases k,
{
    if k <= 1 {
        4096
    } else {
        512 * reach((k - 1) as nat)
    }
}

/// The number of addresses of an address space, 48 or 57 bits wide.
pub open spec fn address_count(paging_type: PagingType) -> int {
    match paging_type {
        PagingType::Paging4Level => 0x1_0000_0000_0000,
        PagingType::Paging5Level => 0x200_0000_0000_0000,
    }
}

/// The number of levels of tables.
pub open spec fn level_count(paging_type: PagingType) -> nat {
    match paging_type {
        PagingType::Paging4Level => 4,
        PagingType::Paging5Level => 5,
    }
}

/// Single bits, and the bits from 12 on, as numbers.
pub proof fn lemma_bits(word: u64)
    ensures
        (word & 0x1 != 0) == has_bit(word, 0x1),
        (word & 0x2 != 0) == has_bit(word, 0x2),
        (word & 0x4 != 0) == has_bit(word, 0x4),
        (word & 0x80 != 0) == has_bit(word, 0x80),
        (word & 0x1000 != 0) == has_bit(word, 0x1000),
        (word & 0x2000 != 0) == has_bit(word, 0x2000),
        (word & 0x4000 != 0) == has_bit(word, 0x4000),
        (word & 0x1_0000 != 0) == has_bit(word, 0x1_0000),
        (word & 0x2_0000 != 0) == has_bit(word, 0x2_0000),
        (word & 0x4000_0000_0000_0000 != 0) == has_bit(word, 0x4000_0000_0000_0000),
        (word & 0x8000_0000_0000_0000 != 0) == has_bit(word, 0x8000_0000_0000_0000),
        (word & 0x0060_0000_0000_0000 != 0) == (has_bit(word, 0x20_0000_0000_0000) || has_bit(
            word,
            0x40_0000_0000_0000,
        )),
        (word & 0x1800_0000_0000_0000 != 0) == (has_bit(word, 0x800_0000_0000_0000) || has_bit(
            word,
            0x1000_0000_0000_0000,
        )),
        word & 0x000F_FFFF_FFFF_F000 == ((word / 0x1000) % 0x100_0000_0000) * 0x1000,
        word & 0x0000_FFFF_FFFF_F000 == ((word / 0x1000) % 0x10_0000_0000) * 0x1000,
        word & 0x1C == ((word / 4) % 8) * 4,
        word & 0xF == word % 16,
{
    assert({
        &&& (word & 0x1 != 0) == ((word / 0x1) % 2 == 1)
        &&& (word & 0x2 != 0) == ((word / 0x2) % 2 == 1)
        &&& (word & 0x4 != 0) == ((word / 0x4) % 2 == 1)
        &&& (word & 0x80 != 0) == ((word / 0x80) % 2 == 1)
        &&& (word & 0x1000 != 0) == ((word / 0x1000) % 2 == 1)
        &&& (word & 0x2000 != 0) == ((word / 0x2000) % 2 == 1)
        &&& (word & 0x4000 != 0) == ((word / 0x4000) % 2 == 1)
        &&& (word & 0x1_0000 != 0) == ((word / 0x1_0000) % 2 == 1)
        &&& (word & 0x2_0000 != 0) == ((word / 0x2_0000) % 2 == 1)
        &&& (word & 0x4000_0000_0000_0000 != 0) == ((word / 0x4000_0000_0000_0000) % 2 == 1)
        &&& (word & 0x8000_0000_0000_0000 != 0) == ((word / 0x8000_0000_0000_0000) % 2 == 1)
        &&& (word & 0x0060_0000_0000_0000 != 0) == ((word / 0x20_0000_0000_0000) % 2 == 1 || (word
            / 0x40_0000_0000_0000) % 2 == 1)
        &&& (word & 0x1800_0000_0000_0000 != 0) == ((word / 0x800_0000_0000_0000) % 2 == 1 || (word
            / 0x1000_0000_0000_0000) % 2 == 1)
        &&& word & 0x000F_FFFF_FFFF_F000 == ((word / 0x1000) % 0x100_0000_0000) * 0x1000
        &&& word & 0x0000_FFFF_FFFF_F000 == ((word / 0x1000) % 0x10_0000_0000) * 0x1000
        &&& word & 0x1C == ((word / 4) % 8) * 4
        &&& word & 0xF == word % 16
    }) by (bit_vector);
}

/// The flags for access of two sets together.
pub proof fn lemma_union(first: u64, second: u64)
    ensures
        ((first | second) & READ_ONLY != 0) == (first & READ_ONLY != 0 || second & READ_ONLY != 0),
        ((first | second) & EXECUTE_PROTECT != 0) == (first & EXECUTE_PROTECT != 0 || second
            & EXECUTE_PROTECT != 0),
        ((first | second) & READ_PROTECT != 0) == (first & READ_PROTECT != 0 || second
            & READ_PROTECT != 0),
        first & !0x2_6000u64 == 0 && second & !0x2_6000u64 == 0 ==> (first | second) & !0x2_6000u64
            == 0,
        second & !0x2_6000u64 == 0 ==> (first | second) & 0xF == first & 0xF,
        first & !0x2_600Fu64 == 0 && second & !0x2_6000u64 == 0 ==> (first | second) & !0x2_600Fu64
            == 0,
        first | 0 == first,
        0u64 & !0x2_6000u64 == 0,
{
    assert({
        &&& ((first | second) & 0x2_0000 != 0) == (first & 0x2_0000 != 0 || second & 0x2_0000 != 0)
        &&& ((first | second) & 0x4000 != 0) == (first & 0x4000 != 0 || second & 0x4000 != 0)
        &&& ((first | second) & 0x2000 != 0) == (first & 0x2000 != 0 || second & 0x2000 != 0)
        &&& (first & !0x2_6000u64 == 0 && second & !0x2_6000u64 == 0 ==> (first | second)
            & !0x2_6000u64 == 0)
        &&& (second & !0x2_6000u64 == 0 ==> (first | second) & 0xF == first & 0xF)
        &&& (first & !0x2_600Fu64 == 0 && second & !0x2_6000u64 == 0 ==> (first | second)
            & !0x2_600Fu64 == 0)
        &&& first | 0 == first
        &&& 0u64 & !0x2_6000u64 == 0
    }) by (bit_vector);
}

/// The index of an address in a table, from the number of addresses that an entry stands for.
pub proof fn lemma_reach(k: nat, base: int, va: int)
    requires
        1 <= k <= 5,
        aligned(k + 1, base),
        0 <= base <= va < base + table_size(k),
    ensures
        entry_index(k, base, va) == (va / reach(k)) % 512,
        reach(k) == table_size(k) / 512,
{
    lemma_index(k, base, va);
    reveal_with_fuel(reach, 6);
}

/// The entry that an address selects at depth `k` is given by nine of its bits: those from bit
/// 12 on at the lowest depth, and the next nine at every depth above.
pub proof fn law_index_bits(k: nat, va: int)
    requires
        1 <= k <= 5,
        0 <= va,
    ensures
        va_index(k, va) == (va / reach(k)) % 512,
{
    reveal_with_fuel(reach, 6);
}

/// Each size is a power of two, and a table of one depth covers what an entry of the next stands
/// for.
pub proof fn law_sizes()
    ensures
        PAGE_SIZE == 4096,
        MAX_ENTRIES * 8 == PAGE_SIZE,
        SIZE_4KB == PAGE_SIZE,
        SIZE_2MB == 512 * SIZE_4KB,
        SIZE_1GB == 512 * SIZE_2MB,
        SIZE_4GB == 4 * SIZE_1GB,
        SIZE_64GB == 16 * SIZE_4GB,
        SIZE_512GB == 512 * SIZE_1GB,
        SIZE_1TB == 2 * SIZE_512GB,
        SIZE_4TB == 4 * SIZE_1TB,
        SIZE_16TB == 4 * SIZE_4TB,
        SIZE_256TB == 512 * SIZE_512GB,
        SELF_MAP_INDEX == MAX_ENTRIES - 2,
        ZERO_VA_INDEX == MAX_ENTRIES - 1,
{
}

/// Each flag is one bit: the cache attributes are the lowest four, and bits 13, 14 and 17 restrict
/// access.
pub proof fn law_flags()
    ensures
        UNCACHEABLE == 1,
        WRITE_COMBINING == 2 * UNCACHEABLE,
        WRITE_THROUGH == 2 * WRITE_COMBINING,
        WRITEBACK == 2 * WRITE_THROUGH,
        CACHE_MASK == UNCACHEABLE + WRITE_COMBINING + WRITE_THROUGH + WRITEBACK,
        READ_PROTECT == 0x2000,
        EXECUTE_PROTECT == 2 * READ_PROTECT,
        READ_ONLY == 8 * EXECUTE_PROTECT,
        ACCESS_MASK == READ_PROTECT + EXECUTE_PROTECT + READ_ONLY,
        forall|bits: u64| #[trigger] read_protected(bits) == has_bit(bits, 0x2000),
{
    assert forall|bits: u64| #[trigger] read_protected(bits) == has_bit(bits, 0x2000) by {
        lemma_bits(bits);
    }
}

} // verus!
