//! What holds of the list of mapped regions.
use vstd::prelude::*;
use crate::arch::{canonical_va, PageTableEntry, PageTableHal};
use crate::laws::bits::{address_count, level_count};
use crate::memory::word_at;
use crate::page_allocator::PageAllocator;
use crate::paging::read::list_start;
use crate::paging::PageTableInternal;
use crate::structs::{
    entry_base, entry_index, entry_size, lemma_entry_index, lemma_entry_within, lemma_low_bits,
    table_size, va_index, MappedRegion, PagingType,
};
use crate::tree::{extent, lemma_extent, points_to_table, same_end, walk, Frames};

verus! {

/// Whether `region` describes the mapping of the addresses from `low` on.
pub open spec fn describes<P: PageAllocator, A: PageTableHal>(
    table: PageTableInternal<P>,
    region: MappedRegion,
    low: int,
) -> bool {
    &&& region.va == canonical_va(low, table.spec_paging_type(), A::spec_sign_extends())
    &&& forall|va: int|
        low <= va < low + region.size ==> {
            &&& (#[trigger] table.walk_at::<A>(va)).leaf matches Some(leaf)
            &&& leaf.pa == region.pa + (va - low)
            &&& table.status_at::<A>(va) == Some(region.attributes.bits)
        }
}

/// The region of a mapped address describes the mapping of that address and of its neighbours.
proof fn lemma_region_at<P: PageAllocator, A: PageTableHal>(table: PageTableInternal<P>, va: int)
    requires
        0 <= va < table.spec_paging_type().space(),
        table.status_at::<A>(va) is Some,
    ensures
        ({
            let x = table.extent_at::<A>(va);
            let region = table.region_at::<A>(va);
            &&& 0 <= x.low <= va < x.low + entry_size(x.level) <= table.spec_paging_type().space()
            &&& region.size == entry_size(x.level)
            &&& describes::<P, A>(table, region, x.low)
            &&& forall|other: int|
                x.low <= other < x.low + entry_size(x.level) ==> #[trigger] table.region_at::<A>(
                    other,
                ) == region
        }),
{
    let n = table.spec_paging_type().levels();
    let x = table.extent_at::<A>(va);
    let region = table.region_at::<A>(va);
    lemma_extent::<A::PTE>(table.frames(), table.root(), n, 0, va);
    lemma_leaf_fits::<A::PTE>(table.frames(), table.root(), n, 0, va);
    assert forall|other: int| x.low <= other < x.low + region.size implies {
        &&& (#[trigger] table.walk_at::<A>(other)).leaf matches Some(leaf)
        &&& leaf.pa == region.pa + (other - x.low)
        &&& table.status_at::<A>(other) == Some(region.attributes.bits)
    } by {
        assert(same_end(table.walk_at::<A>(va), table.walk_at::<A>(other), other - va));
    }
    assert forall|other: int| x.low <= other < x.low + entry_size(x.level) implies #[trigger] table.region_at::<
        A,
    >(other) == region by {
        assert(same_end(table.walk_at::<A>(va), table.walk_at::<A>(other), other - va));
    }
}

/// The physical address for the first address of a leaf is one that an entry can hold.
proof fn lemma_leaf_fits<E: PageTableEntry>(
    frames: Frames,
    page: u64,
    n: nat,
    base: int,
    va: int,
)
    requires
        1 <= n <= 5,
        base <= va < base + table_size(n),
    ensures
        walk::<E>(frames, page, n, base, va).leaf matches Some(leaf) ==> 0 <= leaf.pa
            - (va - extent::<E>(frames, page, n, base, va).low)
            < 0x1_0000_0000_0000_0000,
    decreases n,
{
    let i = entry_index(n, base, va);
    let word = word_at(frames, page, i);
    lemma_entry_index(n, base, va);
    E::lemma_word(word);
    if n > 1 && points_to_table::<E>(word, n) {
        lemma_entry_within(n, base, i);
        lemma_leaf_fits::<E>(
            frames,
            E::next_address(word),
            (n - 1) as nat,
            entry_base(n, base, i),
            va,
        );
    }
}

/// The next address after an extent begins an extent.
proof fn lemma_next_extent<P: PageAllocator, A: PageTableHal>(table: PageTableInternal<P>, va: int)
    requires
        0 <= va < table.spec_paging_type().space(),
    ensures
        ({
            let x = table.extent_at::<A>(va);
            let next = x.low + entry_size(x.level);
            &&& va < next <= table.spec_paging_type().space()
            &&& next < table.spec_paging_type().space() ==> table.extent_at::<A>(next).low == next
        }),
{
    let n = table.spec_paging_type().levels();
    let x = table.extent_at::<A>(va);
    let next = x.low + entry_size(x.level);
    lemma_extent::<A::PTE>(table.frames(), table.root(), n, 0, va);
    if next < table.spec_paging_type().space() {
        let y = table.extent_at::<A>(next);
        lemma_extent::<A::PTE>(table.frames(), table.root(), n, 0, next);
        if y.low < next {
            let w = table.walk_at::<A>(next - 1);
            assert(table.extent_at::<A>(next - 1) == x);
            assert(table.extent_at::<A>(next - 1) == y);
        }
    }
}

/// Every mapped address from `start` on is in a listed region, which describes its mapping.
pub proof fn law_mappings_are_listed<P: PageAllocator, A: PageTableHal>(
    table: PageTableInternal<P>,
    start: int,
    limit: int,
    va: int,
) -> (k: int)
    requires
        0 <= start <= va < limit <= table.spec_paging_type().space(),
        table.status_at::<A>(va) is Some,
    ensures
        ({
            let regions = table.regions_from::<A>(start, limit);
            let low = table.extent_at::<A>(va).low;
            &&& 0 <= k < regions.len()
            &&& low <= va < low + regions[k].size
            &&& describes::<P, A>(table, regions[k], low)
            &&& va == start ==> k == 0
        }),
    decreases
            if start < limit {
                limit - start
            } else {
                0
            },
{
    let n = table.spec_paging_type().levels();
    let x = table.extent_at::<A>(start);
    let next = x.low + entry_size(x.level);
    lemma_extent::<A::PTE>(table.frames(), table.root(), n, 0, start);
    lemma_region_at::<P, A>(table, va);
    if va < next {
        assert(same_end(table.walk_at::<A>(start), table.walk_at::<A>(va), va - start));
        assert(table.status_at::<A>(start) is Some);
        lemma_region_at::<P, A>(table, start);
        assert(table.region_at::<A>(va) == table.region_at::<A>(start));
        0
    } else {
        let k = law_mappings_are_listed::<P, A>(table, next, limit, va);
        if table.status_at::<A>(start) is Some {
            k + 1
        } else {
            k
        }
    }
}

/// Every listed region describes the mapping of an address from `start` on, and so does not end
/// before `start`.
pub proof fn law_regions_are_mapped<P: PageAllocator, A: PageTableHal>(
    table: PageTableInternal<P>,
    start: int,
    limit: int,
    k: int,
) -> (va: int)
    requires
        0 <= start,
        limit <= table.spec_paging_type().space(),
        0 <= k < table.regions_from::<A>(start, limit).len(),
    ensures
        ({
            let region = table.regions_from::<A>(start, limit)[k];
            let low = table.extent_at::<A>(va).low;
            &&& start <= va < limit
            &&& low <= va < low + region.size
            &&& describes::<P, A>(table, region, low)
            &&& k > 0 ==> start < low
            &&& region == table.region_at::<A>(va)
            &&& table.status_at::<A>(va) is Some
        }),
    decreases
            if start < limit {
                limit - start
            } else {
                0
            },
{
    let n = table.spec_paging_type().levels();
    let x = table.extent_at::<A>(start);
    let next = x.low + entry_size(x.level);
    assert(start < limit);
    lemma_extent::<A::PTE>(table.frames(), table.root(), n, 0, start);
    lemma_next_extent::<P, A>(table, start);
    if table.status_at::<A>(start) is Some && k == 0 {
        lemma_region_at::<P, A>(table, start);
        start
    } else {
        let rest = if table.status_at::<A>(start) is Some {
            k - 1
        } else {
            k
        };
        let va = law_regions_are_mapped::<P, A>(table, next, limit, rest);
        lemma_extent::<A::PTE>(table.frames(), table.root(), n, 0, va);
        if table.extent_at::<A>(va).low < next {
            let w = table.walk_at::<A>(next);
            assert(table.extent_at::<A>(next) == table.extent_at::<A>(va));
        }
        va
    }
}

/// Regions are listed in the order of addresses, and do not overlap.
pub proof fn law_regions_are_ordered<P: PageAllocator, A: PageTableHal>(
    table: PageTableInternal<P>,
    start: int,
    limit: int,
    i: int,
    j: int,
)
    requires
        0 <= start,
        limit <= table.spec_paging_type().space(),
        0 <= i < j < table.regions_from::<A>(start, limit).len(),
    ensures
        ({
            let regions = table.regions_from::<A>(start, limit);
            regions[i].va + regions[i].size <= regions[j].va
        }),
    decreases
            if start < limit {
                limit - start
            } else {
                0
            },
{
    let n = table.spec_paging_type().levels();
    let x = table.extent_at::<A>(start);
    let next = x.low + entry_size(x.level);
    assert(start < limit);
    lemma_extent::<A::PTE>(table.frames(), table.root(), n, 0, start);
    lemma_next_extent::<P, A>(table, start);
    let mapped = table.status_at::<A>(start) is Some;
    if mapped && i == 0 {
        lemma_region_at::<P, A>(table, start);
        let va = law_regions_are_mapped::<P, A>(table, next, limit, j - 1);
        lemma_extent::<A::PTE>(table.frames(), table.root(), n, 0, va);
        lemma_region_at::<P, A>(table, va);
        let y = table.extent_at::<A>(va);
        if y.low < next {
            let w = table.walk_at::<A>(next);
            assert(table.extent_at::<A>(next) == y);
        }
        assert(table.regions_from::<A>(start, limit)[j] == table.region_at::<A>(va));
        assert(x.low + entry_size(x.level) <= y.low);
    } else if mapped {
        law_regions_are_ordered::<P, A>(table, next, limit, i - 1, j - 1);
    } else {
        law_regions_are_ordered::<P, A>(table, next, limit, i, j);
    }
}

/// A page table that maps nothing lists nothing, from wherever the list starts.
pub proof fn law_empty_table_lists_nothing<P: PageAllocator, A: PageTableHal>(
    table: PageTableInternal<P>,
    start: int,
)
    requires
        table.is_empty::<A>(),
        table.self_mapped::<A>(),
        0 <= start,
    ensures
        table.regions_from::<A>(start, table.region_limit::<A>()) == Seq::<MappedRegion>::empty(),
    decreases
            if start < table.region_limit::<A>() {
                table.region_limit::<A>() - start
            } else {
                0
            },
{
    let n = table.spec_paging_type().levels();
    if start < table.region_limit::<A>() {
        lemma_entry_index(n, 0, start);
        lemma_extent::<A::PTE>(table.frames(), table.root(), n, 0, start);
        let x = table.extent_at::<A>(start);
        assert(table.walk_at::<A>(start).leaf is None);
        law_empty_table_lists_nothing::<P, A>(table, x.low + entry_size(x.level));
    }
}

/// A list from address 0 on is the list of everything.
pub proof fn law_list_from_zero(paging_type: PagingType)
    ensures
        list_start(paging_type, Some(0)) == list_start(paging_type, None),
{
    match paging_type {
        PagingType::Paging4Level => {
            assert(0int % 0x1_0000_0000_0000 == 0);
        },
        PagingType::Paging5Level => {
            assert(0int % 0x200_0000_0000_0000 == 0);
        },
    }
}

/// A list that starts further on is the end of one that starts before. Unless it starts past the
/// limit, what it leaves out are the regions that end before its start.
pub proof fn law_list_from_start<P: PageAllocator, A: PageTableHal>(
    table: PageTableInternal<P>,
    from: int,
    start: int,
    limit: int,
) -> (k: int)
    requires
        0 <= from <= start < table.spec_paging_type().space(),
        limit <= table.spec_paging_type().space(),
    ensures
        ({
            let regions = table.regions_from::<A>(from, limit);
            &&& 0 <= k <= regions.len()
            &&& table.regions_from::<A>(start, limit) == regions.skip(k)
            &&& start < limit ==> forall|j: int|
                0 <= j < k ==> (#[trigger] regions[j]).va + regions[j].size <= canonical_va(
                    start,
                    table.spec_paging_type(),
                    A::spec_sign_extends(),
                )
        }),
    decreases start - from,
{
    let n = table.spec_paging_type().levels();
    let x = table.extent_at::<A>(from);
    let next = x.low + entry_size(x.level);
    let regions = table.regions_from::<A>(from, limit);
    lemma_extent::<A::PTE>(table.frames(), table.root(), n, 0, from);
    lemma_next_extent::<P, A>(table, from);
    let mapped = table.status_at::<A>(from) is Some;
    if mapped {
        lemma_region_at::<P, A>(table, from);
    }
    if from >= limit {
        assert(regions.skip(0) =~= table.regions_from::<A>(start, limit));
        0
    } else if start < next {
        assert(same_end(table.walk_at::<A>(from), table.walk_at::<A>(start), start - from));
        if start >= limit {
            lemma_past_limit::<P, A>(table, next, limit);
            let k = regions.len() as int;
            assert(regions.skip(k) =~= table.regions_from::<A>(start, limit));
            k
        } else {
            assert(table.extent_at::<A>(start) == x);
            assert(regions.skip(0) =~= table.regions_from::<A>(start, limit));
            0
        }
    } else {
        let rest = table.regions_from::<A>(next, limit);
        let k = law_list_from_start::<P, A>(table, next, start, limit);
        if mapped {
            assert(regions == seq![table.region_at::<A>(from)] + rest);
            assert(regions.skip(k + 1) =~= rest.skip(k));
            assert forall|j: int| start < limit && 0 <= j < k + 1 implies (#[trigger] regions[j]).va
                + regions[j].size <= canonical_va(
                start,
                table.spec_paging_type(),
                A::spec_sign_extends(),
            ) by {
                if j > 0 {
                    assert(regions[j] == rest[j - 1]);
                }
            }
            k + 1
        } else {
            k
        }
    }
}

/// Nothing is listed from the limit on.
proof fn lemma_past_limit<P: PageAllocator, A: PageTableHal>(
    table: PageTableInternal<P>,
    va: int,
    limit: int,
)
    requires
        va >= limit,
    ensures
        table.regions_from::<A>(va, limit) == Seq::<MappedRegion>::empty(),
{
}

/// A list starts with what the low bits of the start address select: the same entry at every
/// level, and the same byte of the page. Without a start address it starts with address 0.
pub proof fn law_list_start(paging_type: PagingType, address: u64)
    ensures
        list_start(paging_type, Some(address)) == address as int % address_count(paging_type),
        forall|k: nat|
            1 <= k <= level_count(paging_type) ==> #[trigger] va_index(
                k,
                list_start(paging_type, Some(address)),
            ) == va_index(k, address as int),
        list_start(paging_type, Some(address)) % 0x1000 == address % 0x1000,
        list_start(paging_type, None) == 0,
{
    let start = list_start(paging_type, Some(address));
    assert(start == address as int % address_count(paging_type));
    assert forall|k: nat| 1 <= k <= level_count(paging_type) implies #[trigger] va_index(k, start)
        == va_index(k, address as int) by {
        lemma_low_bits(paging_type, k, address, 0);
    }
    if paging_type is Paging4Level {
        assert((address as int % 0x1_0000_0000_0000) % 0x1000 == address as int % 0x1000);
    } else {
        assert((address as int % 0x200_0000_0000_0000) % 0x1000 == address as int % 0x1000);
    }
}

/// No region of a list from a start address ends at or before that address.
pub proof fn law_list_skips_earlier<P: PageAllocator, A: PageTableHal>(
    table: PageTableInternal<P>,
    address: u64,
    k: int,
)
    requires
        0 <= k < table.regions_from::<A>(
            list_start(table.spec_paging_type(), Some(address)),
            table.region_limit::<A>(),
        ).len(),
    ensures
        ({
            let space = address_count(table.spec_paging_type());
            let region = table.regions_from::<A>(
                list_start(table.spec_paging_type(), Some(address)),
                table.region_limit::<A>(),
            )[k];
            region.va as int % space + region.size > address as int % space
        }),
{
    let paging_type = table.spec_paging_type();
    let space = address_count(paging_type);
    let start = list_start(paging_type, Some(address));
    law_list_start(paging_type, address);
    let va = law_regions_are_mapped::<P, A>(table, start, table.region_limit::<A>(), k);
    lemma_region_at::<P, A>(table, va);
    let low = table.extent_at::<A>(va).low;
    lemma_low_part(low, paging_type, A::spec_sign_extends());
}

/// The low bits of an address in the form that the processor expects.
proof fn lemma_low_part(va: int, paging_type: PagingType, sign_extends: bool)
    requires
        0 <= va < address_count(paging_type),
    ensures
        canonical_va(va, paging_type, sign_extends) % address_count(paging_type) == va,
        0 <= canonical_va(va, paging_type, sign_extends) <= 0xFFFF_FFFF_FFFF_FFFF,
{
    let a = canonical_va(va, paging_type, sign_extends);
    if paging_type is Paging4Level {
        assert(a % 0x1_0000_0000_0000 == va);
    } else {
        assert(a % 0x200_0000_0000_0000 == va);
    }
}

/// Every mapped address from the start address on is in a listed region, unless it is one of the
/// two reserved root entries of a page table that maps itself. The region says what it is mapped
/// to, and with which attributes.
pub proof fn law_list_misses_nothing<P: PageAllocator, A: PageTableHal>(
    table: PageTableInternal<P>,
    start_address: Option<u64>,
    va: int,
) -> (k: int)
    requires
        0 <= va < address_count(table.spec_paging_type()),
        start_address matches Some(address) ==> address as int % address_count(
            table.spec_paging_type(),
        ) <= va,
        table.status_at::<A>(va) is Some,
        ({
            let word = word_at(table.frames(), table.root(), 510);
            let self_mapped = A::PTE::present(word) && A::PTE::next_address(word) == table.root();
            self_mapped ==> 512 * va < 510 * address_count(table.spec_paging_type())
        }),
    ensures
        ({
            let regions = table.regions_from::<A>(
                list_start(table.spec_paging_type(), start_address),
                table.region_limit::<A>(),
            );
            let low = regions[k].va as int % address_count(table.spec_paging_type());
            &&& 0 <= k < regions.len()
            &&& low <= va < low + regions[k].size
            &&& table.walk_at::<A>(va).leaf matches Some(leaf)
            &&& leaf.pa == regions[k].pa + (va - low)
            &&& table.status_at::<A>(va) == Some(regions[k].attributes.bits)
            &&& match start_address {
                Some(address) => address as int % address_count(table.spec_paging_type()) == va
                    ==> k == 0,
                None => va == 0 ==> k == 0,
            }
        }),
{
    let paging_type = table.spec_paging_type();
    let start = list_start(paging_type, start_address);
    if let Some(address) = start_address {
        law_list_start(paging_type, address);
    }
    let limit = table.region_limit::<A>();
    assert(va < limit);
    let k = law_mappings_are_listed::<P, A>(table, start, limit, va);
    lemma_region_at::<P, A>(table, va);
    let low = table.extent_at::<A>(va).low;
    lemma_low_part(low, paging_type, A::spec_sign_extends());
    k
}

/// The self map, and what lies behind it, is not listed in a page table that maps itself.
pub proof fn law_reserved_is_not_listed<P: PageAllocator, A: PageTableHal>(
    table: PageTableInternal<P>,
    start: int,
    k: int,
)
    requires
        0 <= start,
        ({
            let word = word_at(table.frames(), table.root(), 510);
            A::PTE::present(word) && A::PTE::next_address(word) == table.root()
        }),
        0 <= k < table.regions_from::<A>(start, table.region_limit::<A>()).len(),
    ensures
        ({
            let space = address_count(table.spec_paging_type());
            let region = table.regions_from::<A>(start, table.region_limit::<A>())[k];
            512 * (region.va as int % space) < 510 * space
        }),
{
    let va = law_regions_are_mapped::<P, A>(table, start, table.region_limit::<A>(), k);
    lemma_region_at::<P, A>(table, va);
    lemma_low_part(
        table.extent_at::<A>(va).low,
        table.spec_paging_type(),
        A::spec_sign_extends(),
    );
}

} // verus!
