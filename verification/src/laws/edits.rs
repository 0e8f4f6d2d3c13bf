//! What holds of mapping, unmapping and querying together.
use vstd::prelude::*;
use crate::arch::{PageTableEntry, PageTableHal};
use crate::attributes::{read_protected, MemoryAttributes};
use crate::error::PtError;
use crate::laws::bits::lemma_union;
use crate::links::{continued, lemma_continued};
use crate::page_allocator::PageAllocator;
use crate::paging::{edit_range_error, job_for, PageTableInternal};
use crate::structs::{entry_base, entry_index, lemma_entry_index, PagingType};
use crate::tree::{in_tree, Edit, Leaf, Places, Walk};

verus! {

/// Whether no table entry forbids anything, so that leaves alone decide on attributes.
pub open spec fn unrestricted<P: PageAllocator, A: PageTableHal>(
    table: PageTableInternal<P>,
) -> bool {
    forall|va: int|
        0 <= va < table.spec_paging_type().space() && entry_index(
            table.spec_paging_type().levels(),
            0,
            va,
        ) != 0x1FE ==> (#[trigger] table.walk_at::<A>(va)).restrictions == 0
}

/// Whether `after` is what a successful edit of a range has made of `before`.
#[verifier::opaque]
pub open spec fn edited<P: PageAllocator, A: PageTableHal>(
    before: PageTableInternal<P>,
    after: PageTableInternal<P>,
    address: u64,
    size: u64,
    edit: Edit,
) -> bool {
    &&& before.has_tree::<A>()
    &&& edit_range_error::<A>(before.spec_paging_type(), address, size) is None
    &&& after.spec_sound()
    &&& after.edit_outcome::<A>(
        &before,
        job_for(before.spec_paging_type(), address, size, edit),
        Ok(()),
    )
}

/// Whether the address `va` of the address space is one of the `size` addresses from `address`
/// on.
pub open spec fn in_range(paging_type: PagingType, address: u64, size: u64, va: int) -> bool {
    let start = address as int % paging_type.space();
    start <= va < start + size
}

/// The job of an accepted range stays below the reserved root entries.
pub proof fn lemma_job<A: PageTableHal>(
    paging_type: PagingType,
    address: u64,
    size: u64,
    edit: Edit,
)
    requires
        edit_range_error::<A>(paging_type, address, size) is None,
    ensures
        ({
            let job = job_for(paging_type, address, size, edit);
            let start = address as int % paging_type.space();
            &&& job.start == start
            &&& job.end == start + size
            &&& job.offset == address - start
            &&& job.start < job.end <= entry_base(paging_type.levels(), 0, 0x1FE)
            &&& 0 <= start <= address
            &&& job.start % 0x1000 == 0
            &&& job.end % 0x1000 == 0
            &&& job.offset % 0x4000_0000 == 0
        }),
{
    let space = paging_type.space();
    let start = address as int % space;
    assert({
        &&& (address - address % 0x1_0000_0000_0000) % 0x4000_0000 == 0
        &&& (address - address % 0x200_0000_0000_0000) % 0x4000_0000 == 0
        &&& (address % 0x1_0000_0000_0000) % 0x1000 == address % 0x1000
        &&& (address % 0x200_0000_0000_0000) % 0x1000 == address % 0x1000
    }) by (bit_vector);
    match paging_type {
        PagingType::Paging4Level => {
            assert(space == 0x1_0000_0000_0000);
            assert(start == address as int % 0x1_0000_0000_0000);
        },
        PagingType::Paging5Level => {
            assert(space == 0x200_0000_0000_0000);
            assert(start == address as int % 0x200_0000_0000_0000);
        },
    }
}

/// An edit that was successful was accepted, and did not change the type of the page table.
pub proof fn lemma_accepted<P: PageAllocator, A: PageTableHal>(
    before: PageTableInternal<P>,
    after: PageTableInternal<P>,
    address: u64,
    size: u64,
    edit: Edit,
)
    requires
        edited::<P, A>(before, after, address, size, edit),
    ensures
        edit_range_error::<A>(before.spec_paging_type(), address, size) is None,
        after.spec_paging_type() == before.spec_paging_type(),
{
    reveal(edited);
}

/// The walk for an address outside the self map after an edit.
pub proof fn lemma_edited<P: PageAllocator, A: PageTableHal>(
    before: PageTableInternal<P>,
    after: PageTableInternal<P>,
    address: u64,
    size: u64,
    edit: Edit,
    va: int,
)
    requires
        edited::<P, A>(before, after, address, size, edit),
        0 <= va < before.spec_paging_type().space(),
        entry_index(before.spec_paging_type().levels(), 0, va) != 0x1FE,
    ensures
        after.spec_paging_type() == before.spec_paging_type(),
        after.walk_at::<A>(va) == (if in_range(before.spec_paging_type(), address, size, va) {
            Walk {
                restrictions: before.walk_at::<A>(va).restrictions,
                leaf: job_for(before.spec_paging_type(), address, size, edit).target::<A::PTE>(va),
            }
        } else {
            before.walk_at::<A>(va)
        }),
{
    reveal(edited);
    let job = job_for(before.spec_paging_type(), address, size, edit);
    lemma_job::<A>(before.spec_paging_type(), address, size, edit);
    let cut = choose|cut: int| #[trigger]
        after.edited_until::<A>(&before, job, cut) && cut == job.end;
    assert(after.edited_until::<A>(&before, job, cut));
}

/// The extent of an address outside the self map after an edit.
pub proof fn lemma_resized<P: PageAllocator, A: PageTableHal>(
    before: PageTableInternal<P>,
    after: PageTableInternal<P>,
    address: u64,
    size: u64,
    edit: Edit,
    va: int,
)
    requires
        edited::<P, A>(before, after, address, size, edit),
        0 <= va < before.spec_paging_type().space(),
        entry_index(before.spec_paging_type().levels(), 0, va) != 0x1FE,
    ensures
        after.extent_at::<A>(va) == job_for(
            before.spec_paging_type(),
            address,
            size,
            edit,
        ).extent_after::<A::PTE>(
            before.frames(),
            before.root(),
            before.spec_paging_type().levels(),
            0,
            va,
        ),
{
    reveal(edited);
}

/// An address of an accepted range is not in the self map.
pub proof fn lemma_outside_self_map<A: PageTableHal>(
    paging_type: PagingType,
    address: u64,
    size: u64,
    va: int,
)
    requires
        edit_range_error::<A>(paging_type, address, size) is None,
        in_range(paging_type, address, size, va),
    ensures
        0 <= va < paging_type.space(),
        entry_index(paging_type.levels(), 0, va) < 0x1FE,
{
    lemma_job::<A>(paging_type, address, size, Edit::Removal);
    lemma_entry_index(paging_type.levels(), 0, va);
}

/// What has been mapped is mapped to itself: every address of the range translates to itself,
/// as far as an entry can hold it, with the attributes asked for; or to nothing if these forbid
/// reading.
pub proof fn law_mapped_to_itself<P: PageAllocator, A: PageTableHal>(
    before: PageTableInternal<P>,
    after: PageTableInternal<P>,
    address: u64,
    size: u64,
    attributes: MemoryAttributes,
    distance: int,
)
    requires
        edited::<P, A>(before, after, address, size, Edit::Mapping { attributes }),
        0 <= distance < size,
    ensures
        after.walk_at::<A>(address as int % before.spec_paging_type().space() + distance).leaf == (
        if read_protected(attributes.bits) {
            None
        } else {
            Some(
                Leaf {
                    pa: (address + distance) % A::PTE::address_limit(),
                    attributes: A::PTE::stored(attributes.bits),
                },
            )
        }),
{
    let paging_type = before.spec_paging_type();
    let va = address as int % paging_type.space() + distance;
    lemma_accepted::<P, A>(before, after, address, size, Edit::Mapping { attributes });
    lemma_job::<A>(paging_type, address, size, Edit::Mapping { attributes });
    lemma_outside_self_map::<A>(paging_type, address, size, va);
    lemma_edited::<P, A>(before, after, address, size, Edit::Mapping { attributes }, va);
}

/// A query of what has been mapped, or of any part of it from `from` up to `to`, gives the
/// attributes asked for.
pub proof fn law_query_after_map<P: PageAllocator, A: PageTableHal>(
    before: PageTableInternal<P>,
    after: PageTableInternal<P>,
    address: u64,
    size: u64,
    attributes: MemoryAttributes,
    from: int,
    to: int,
    answer: Result<MemoryAttributes, PtError>,
)
    requires
        edited::<P, A>(before, after, address, size, Edit::Mapping { attributes }),
        unrestricted::<P, A>(before),
        ({
            let start = address as int % after.spec_paging_type().space();
            &&& start <= from < to <= start + size
            &&& after.is_answer::<A>(from, to, answer)
        }),
    ensures
        answer == (if read_protected(attributes.bits) {
            Err::<MemoryAttributes, PtError>(PtError::NoMapping)
        } else {
            Ok::<MemoryAttributes, PtError>(
                MemoryAttributes { bits: A::PTE::stored(attributes.bits) },
            )
        }),
{
    let paging_type = before.spec_paging_type();
    let start = address as int % paging_type.space();
    let stored = A::PTE::stored(attributes.bits);
    let expected = if read_protected(attributes.bits) {
        None
    } else {
        Some(stored)
    };
    lemma_accepted::<P, A>(before, after, address, size, Edit::Mapping { attributes });
    lemma_job::<A>(paging_type, address, size, Edit::Mapping { attributes });
    lemma_union(stored, 0);
    assert forall|va: int| from <= va < to implies #[trigger] after.status_at::<A>(va)
        == expected by {
        lemma_outside_self_map::<A>(paging_type, address, size, va);
        lemma_edited::<P, A>(before, after, address, size, Edit::Mapping { attributes }, va);
        assert(before.walk_at::<A>(va).restrictions == 0);
    }
    assert(after.uniform::<A>(from, to));
}

/// A query of what has been unmapped, or of any part of it from `from` up to `to`, finds no
/// mapping.
pub proof fn law_query_after_unmap<P: PageAllocator, A: PageTableHal>(
    before: PageTableInternal<P>,
    after: PageTableInternal<P>,
    address: u64,
    size: u64,
    from: int,
    to: int,
    answer: Result<MemoryAttributes, PtError>,
)
    requires
        edited::<P, A>(before, after, address, size, Edit::Removal),
        ({
            let start = address as int % after.spec_paging_type().space();
            &&& start <= from < to <= start + size
            &&& after.is_answer::<A>(from, to, answer)
        }),
    ensures
        answer == Err::<MemoryAttributes, PtError>(PtError::NoMapping),
{
    let paging_type = before.spec_paging_type();
    let start = address as int % paging_type.space();
    lemma_accepted::<P, A>(before, after, address, size, Edit::Removal);
    lemma_job::<A>(paging_type, address, size, Edit::Removal);
    assert forall|va: int| from <= va < to implies #[trigger] after.status_at::<A>(va)
        == None::<u64> by {
        lemma_outside_self_map::<A>(paging_type, address, size, va);
        lemma_edited::<P, A>(before, after, address, size, Edit::Removal, va);
    }
    assert(after.uniform::<A>(from, to));
}

/// An edit leaves every address outside its range as it was, but for the self map, through
/// which the tables themselves are seen.
pub proof fn law_rest_is_kept<P: PageAllocator, A: PageTableHal>(
    before: PageTableInternal<P>,
    after: PageTableInternal<P>,
    address: u64,
    size: u64,
    edit: Edit,
    va: int,
)
    requires
        edited::<P, A>(before, after, address, size, edit),
        0 <= va < before.spec_paging_type().space(),
        entry_index(before.spec_paging_type().levels(), 0, va) != 0x1FE,
        !in_range(before.spec_paging_type(), address, size, va),
    ensures
        after.walk_at::<A>(va) == before.walk_at::<A>(va),
{
    lemma_edited::<P, A>(before, after, address, size, edit, va);
}

/// Unmapping undoes mapping where nothing was mapped before.
pub proof fn law_unmap_undoes_map<P: PageAllocator, A: PageTableHal>(
    before: PageTableInternal<P>,
    mapped: PageTableInternal<P>,
    after: PageTableInternal<P>,
    address: u64,
    size: u64,
    attributes: MemoryAttributes,
    va: int,
)
    requires
        edited::<P, A>(before, mapped, address, size, Edit::Mapping { attributes }),
        edited::<P, A>(mapped, after, address, size, Edit::Removal),
        forall|x: int|
            in_range(before.spec_paging_type(), address, size, x) ==> (#[trigger] before.walk_at::<
                A,
            >(x)).leaf is None,
        0 <= va < before.spec_paging_type().space(),
        entry_index(before.spec_paging_type().levels(), 0, va) != 0x1FE,
    ensures
        after.walk_at::<A>(va) == before.walk_at::<A>(va),
{
    lemma_edited::<P, A>(before, mapped, address, size, Edit::Mapping { attributes }, va);
    lemma_edited::<P, A>(mapped, after, address, size, Edit::Removal, va);
}

/// Of two edits of the same range the second decides: the result is as if the first had not
/// been.
pub proof fn law_last_edit_wins<P: PageAllocator, A: PageTableHal>(
    before: PageTableInternal<P>,
    between: PageTableInternal<P>,
    after: PageTableInternal<P>,
    direct: PageTableInternal<P>,
    address: u64,
    size: u64,
    first: Edit,
    second: Edit,
    va: int,
)
    requires
        edited::<P, A>(before, between, address, size, first),
        edited::<P, A>(between, after, address, size, second),
        edited::<P, A>(before, direct, address, size, second),
        0 <= va < before.spec_paging_type().space(),
        entry_index(before.spec_paging_type().levels(), 0, va) != 0x1FE,
    ensures
        after.walk_at::<A>(va) == direct.walk_at::<A>(va),
{
    lemma_edited::<P, A>(before, between, address, size, first, va);
    lemma_edited::<P, A>(between, after, address, size, second, va);
    lemma_edited::<P, A>(before, direct, address, size, second, va);
}

/// A repeated edit changes nothing.
pub proof fn law_edit_is_idempotent<P: PageAllocator, A: PageTableHal>(
    before: PageTableInternal<P>,
    once: PageTableInternal<P>,
    twice: PageTableInternal<P>,
    address: u64,
    size: u64,
    edit: Edit,
    va: int,
)
    requires
        edited::<P, A>(before, once, address, size, edit),
        edited::<P, A>(once, twice, address, size, edit),
        0 <= va < before.spec_paging_type().space(),
        entry_index(before.spec_paging_type().levels(), 0, va) != 0x1FE,
    ensures
        twice.walk_at::<A>(va) == once.walk_at::<A>(va),
{
    lemma_edited::<P, A>(before, once, address, size, edit, va);
    lemma_edited::<P, A>(once, twice, address, size, edit, va);
}

/// Edits of ranges that do not meet can be made in either order.
pub proof fn law_disjoint_edits_commute<P: PageAllocator, A: PageTableHal>(
    before: PageTableInternal<P>,
    first: PageTableInternal<P>,
    first_then_second: PageTableInternal<P>,
    second: PageTableInternal<P>,
    second_then_first: PageTableInternal<P>,
    address: u64,
    size: u64,
    edit: Edit,
    other_address: u64,
    other_size: u64,
    other_edit: Edit,
    va: int,
)
    requires
        edited::<P, A>(before, first, address, size, edit),
        edited::<P, A>(first, first_then_second, other_address, other_size, other_edit),
        edited::<P, A>(before, second, other_address, other_size, other_edit),
        edited::<P, A>(second, second_then_first, address, size, edit),
        forall|x: int|
            !(#[trigger] in_range(before.spec_paging_type(), address, size, x) && in_range(
                before.spec_paging_type(),
                other_address,
                other_size,
                x,
            )),
        0 <= va < before.spec_paging_type().space(),
        entry_index(before.spec_paging_type().levels(), 0, va) != 0x1FE,
    ensures
        first_then_second.walk_at::<A>(va) == second_then_first.walk_at::<A>(va),
{
    lemma_edited::<P, A>(before, first, address, size, edit, va);
    lemma_edited::<P, A>(
        first,
        first_then_second,
        other_address,
        other_size,
        other_edit,
        va,
    );
    lemma_edited::<P, A>(before, second, other_address, other_size, other_edit, va);
    lemma_edited::<P, A>(second, second_then_first, address, size, edit, va);
}

/// A page table that starts without restrictions, as a new one does, stays without.
pub proof fn law_stays_unrestricted<P: PageAllocator, A: PageTableHal>(
    before: PageTableInternal<P>,
    after: PageTableInternal<P>,
    address: u64,
    size: u64,
    edit: Edit,
)
    requires
        edited::<P, A>(before, after, address, size, edit),
        before.is_empty::<A>() || unrestricted::<P, A>(before),
    ensures
        unrestricted::<P, A>(after),
{
    lemma_accepted::<P, A>(before, after, address, size, edit);
    assert forall|va: int|
        0 <= va < after.spec_paging_type().space() && entry_index(
            after.spec_paging_type().levels(),
            0,
            va,
        ) != 0x1FE implies (#[trigger] after.walk_at::<A>(va)).restrictions == 0 by {
        lemma_edited::<P, A>(before, after, address, size, edit, va);
        assert(before.walk_at::<A>(va).restrictions == 0);
    }
}

/// A page table keeps its self map through every edit that is accepted, whatever its outcome.
pub proof fn law_self_map_is_kept<P: PageAllocator, A: PageTableHal>(
    before: PageTableInternal<P>,
    after: PageTableInternal<P>,
    address: u64,
    size: u64,
    edit: Edit,
    r: Result<(), PtError>,
)
    requires
        before.has_tree::<A>(),
        before.self_mapped::<A>(),
        edit_range_error::<A>(before.spec_paging_type(), address, size) is None,
        after.spec_sound(),
        after.edit_outcome::<A>(
            &before,
            job_for(before.spec_paging_type(), address, size, edit),
            r,
        ),
    ensures
        after.self_mapped::<A>(),
        before.self_mapped_by_default::<A>() ==> after.self_mapped_by_default::<A>(),
        after.has_tree::<A>(),
{
}

/// Where all entries for tables have the default attributes, as in a new page table, they still do
/// after every edit that is accepted, whatever its outcome.
pub proof fn law_links_stay_default<P: PageAllocator, A: PageTableHal>(
    before: PageTableInternal<P>,
    after: PageTableInternal<P>,
    address: u64,
    size: u64,
    edit: Edit,
    r: Result<(), PtError>,
)
    requires
        before.has_tree::<A>(),
        before.has_default_links::<A>(),
        after.spec_sound(),
        after.edit_outcome::<A>(
            &before,
            job_for(before.spec_paging_type(), address, size, edit),
            r,
        ),
    ensures
        after.has_default_links::<A>(),
{
    assert forall|va: int|
        0 <= va < after.spec_paging_type().space() && entry_index(
            after.spec_paging_type().levels(),
            0,
            va,
        ) != 0x1FE implies continued(
        Seq::empty(),
        #[trigger] after.links_at::<A>(va),
        A::spec_default_attributes(),
    ) by {
        let links = before.links_at::<A>(va);
        assert(continued(Seq::empty(), links, A::spec_default_attributes()));
        lemma_continued(
            Seq::empty(),
            links,
            after.links_at::<A>(va),
            A::spec_default_attributes(),
        );
    }
}

/// An edit that fails has been carried out for an initial part of its range, and for nothing
/// else.
pub proof fn law_failed_edit<P: PageAllocator, A: PageTableHal>(
    before: PageTableInternal<P>,
    after: PageTableInternal<P>,
    address: u64,
    size: u64,
    edit: Edit,
    e: PtError,
) -> (done: int)
    requires
        before.has_tree::<A>(),
        edit_range_error::<A>(before.spec_paging_type(), address, size) is None,
        after.spec_sound(),
        after.edit_outcome::<A>(
            &before,
            job_for(before.spec_paging_type(), address, size, edit),
            Err(e),
        ),
    ensures
        0 <= done <= size,
        forall|va: int|
            0 <= va < before.spec_paging_type().space() && entry_index(
                before.spec_paging_type().levels(),
                0,
                va,
            ) != 0x1FE ==> #[trigger] after.walk_at::<A>(va) == (if address as int
                % before.spec_paging_type().space() <= va < address as int
                % before.spec_paging_type().space() + done {
                Walk {
                    restrictions: before.walk_at::<A>(va).restrictions,
                    leaf: job_for(before.spec_paging_type(), address, size, edit).target::<A::PTE>(
                        va,
                    ),
                }
            } else {
                before.walk_at::<A>(va)
            }),
{
    let job = job_for(before.spec_paging_type(), address, size, edit);
    lemma_job::<A>(before.spec_paging_type(), address, size, edit);
    let cut = choose|cut: int| #[trigger] after.edited_until::<A>(&before, job, cut);
    assert(after.edited_until::<A>(&before, job, cut));
    cut - job.start
}

/// Two page tables with the same root, type and memory mean the same, so one can be given up
/// for its root and taken over again.
pub proof fn law_reopened<P: PageAllocator, Q: PageAllocator, A: PageTableHal>(
    first: PageTableInternal<P>,
    second: PageTableInternal<Q>,
)
    requires
        first.root() == second.root(),
        first.spec_paging_type() == second.spec_paging_type(),
        first.frames() == second.frames(),
    ensures
        forall|va: int| #[trigger] second.walk_at::<A>(va) == first.walk_at::<A>(va),
        second.has_tree::<A>() == first.has_tree::<A>(),
        second.self_mapped::<A>() == first.self_mapped::<A>(),
{
    if first.has_tree::<A>() {
        let places = choose|places: Places| #[trigger]
            in_tree::<A::PTE>(
                first.frames(),
                places,
                first.root(),
                first.root(),
                first.spec_paging_type().levels(),
                0,
            );
        assert(in_tree::<A::PTE>(
            second.frames(),
            places,
            second.root(),
            second.root(),
            second.spec_paging_type().levels(),
            0,
        ));
    }
    if second.has_tree::<A>() {
        let places = choose|places: Places| #[trigger]
            in_tree::<A::PTE>(
                second.frames(),
                places,
                second.root(),
                second.root(),
                second.spec_paging_type().levels(),
                0,
            );
        assert(in_tree::<A::PTE>(
            first.frames(),
            places,
            first.root(),
            first.root(),
            first.spec_paging_type().levels(),
            0,
        ));
    }
}

} // verus!
