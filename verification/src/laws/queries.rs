//! What holds of queries and of the ranges that they take.
use vstd::prelude::*;
use crate::arch::PageTableHal;
use crate::attributes::MemoryAttributes;
use crate::error::PtError;
use crate::laws::bits::address_count;
use crate::page_allocator::PageAllocator;
use crate::paging::{range_error, PageTableInternal};
use crate::structs::PagingType;

verus! {

/// A range is accepted exactly if it is made of whole pages, at least one, and does not leave the
/// address space. One that is empty or runs past the last address, or leaves the address space, is
/// invalid; otherwise one that is not made of whole pages is not aligned.
pub proof fn law_range_errors(paging_type: PagingType, address: u64, size: u64)
    ensures
        range_error(paging_type, address, size) is None <==> {
            &&& size > 0
            &&& address % 4096 == 0
            &&& size % 4096 == 0
            &&& address as int % address_count(paging_type) + size <= address_count(paging_type)
        },
        range_error(paging_type, address, size) == Some(PtError::UnalignedAddress) <==> {
            &&& size > 0
            &&& address + size <= 0x1_0000_0000_0000_0000
            &&& address % 4096 != 0 || size % 4096 != 0
        },
        match range_error(paging_type, address, size) {
            None => true,
            Some(e) => e == PtError::UnalignedAddress || e == PtError::InvalidMemoryRange,
        },
{
    let space = address_count(paging_type);
    assert(paging_type.space() == space);
    if paging_type is Paging4Level {
        assert(address as int - address as int % 0x1_0000_0000_0000 <= 0xFFFF_0000_0000_0000);
    } else {
        assert(address as int - address as int % 0x200_0000_0000_0000 <= 0xFE00_0000_0000_0000);
    }
}

/// If not all addresses of a range have the status of the first, there is a first one that has not.
proof fn lemma_first_difference<P: PageAllocator, A: PageTableHal>(
    table: PageTableInternal<P>,
    start: int,
    end: int,
) -> (other: int)
    requires
        start < end,
        !table.uniform::<A>(start, end),
    ensures
        start < other < end,
        table.uniform::<A>(start, other),
        table.status_at::<A>(other) != table.status_at::<A>(start),
    decreases end - start,
{
    if end == start + 1 {
        assert(table.uniform::<A>(start, end));
        start
    } else if table.uniform::<A>(start, end - 1) {
        assert(table.status_at::<A>(end - 1) != table.status_at::<A>(start)) by {
            if table.status_at::<A>(end - 1) == table.status_at::<A>(start) {
                assert(table.uniform::<A>(start, end));
            }
        }
        end - 1
    } else {
        lemma_first_difference::<P, A>(table, start, end - 1)
    }
}

/// What a query answers: attributes exactly if every address of the range is mapped with these, and
/// that there is no mapping exactly if no address is mapped. Otherwise some are mapped and some
/// are not, or some are mapped with other attributes than others. Of these the first address that
/// is not like the first one of the range decides.
pub proof fn law_query_answers<P: PageAllocator, A: PageTableHal>(
    table: PageTableInternal<P>,
    start: int,
    end: int,
    r: Result<MemoryAttributes, PtError>,
    attributes: MemoryAttributes,
)
    requires
        start < end,
        table.is_answer::<A>(start, end, r),
    ensures
        r == Ok::<MemoryAttributes, PtError>(attributes) <==> forall|va: int|
            start <= va < end ==> #[trigger] table.status_at::<A>(va) == Some(attributes.bits),
        r == Err::<MemoryAttributes, PtError>(PtError::NoMapping) <==> forall|va: int|
            start <= va < end ==> #[trigger] table.status_at::<A>(va) is None,
        r == Err::<MemoryAttributes, PtError>(PtError::IncompatibleMemoryAttributes)
            <==> exists|other: int|
            start < other < end && table.status_at::<A>(start) is Some && (
            #[trigger] table.status_at::<A>(other)) is Some && table.status_at::<A>(other)
                != table.status_at::<A>(start) && forall|va: int|
                start <= va < other ==> #[trigger] table.status_at::<A>(va) == table.status_at::<A>(
                    start,
                ),
        r == Err::<MemoryAttributes, PtError>(PtError::InconsistentMappingAcrossRange)
            <==> exists|other: int|
            start < other < end && (#[trigger] table.status_at::<A>(other)) is Some
                != table.status_at::<A>(start) is Some && forall|va: int|
                start <= va < other ==> #[trigger] table.status_at::<A>(va) == table.status_at::<A>(
                    start,
                ),
        match r {
            Ok(_) => true,
            Err(e) => e == PtError::NoMapping || e == PtError::IncompatibleMemoryAttributes || e
                == PtError::InconsistentMappingAcrossRange,
        },
{
    let first = table.status_at::<A>(start);
    if table.uniform::<A>(start, end) {
        assert forall|va: int| start <= va < end implies #[trigger] table.status_at::<A>(va)
            == first by {}
    } else {
        let other = lemma_first_difference::<P, A>(table, start, end);
        assert(table.status_at::<A>(other) != first);
        assert forall|va: int| start <= va < other implies #[trigger] table.status_at::<A>(va)
            == first by {}
        assert forall|third: int|
            start < third < end && #[trigger] table.status_at::<A>(third) != first && (forall|va:
                int|
                start <= va < third ==> #[trigger] table.status_at::<A>(va) == first) implies third
            == other by {
            if third < other {
                assert(table.status_at::<A>(third) == first);
            }
        }
    }
}

} // verus!
