//! What holds of the sizes of entries.
use vstd::prelude::*;
use crate::arch::{PageTableEntry, PageTableHal};
use crate::attributes::{read_protected, MemoryAttributes};
use crate::laws::edits::{
    edited, in_range, lemma_accepted, lemma_job, lemma_outside_self_map, lemma_resized,
};
use crate::memory::word_at;
use crate::page_allocator::PageAllocator;
use crate::paging::{edit_range_error, job_for, PageTableInternal};
use crate::structs::{
    aligned, entry_base, entry_index, entry_size, lemma_entry_base, lemma_entry_index,
    lemma_entry_within, table_size,
};
use crate::tree::{
    extent, lemma_aligned_offset, lemma_identity, points_to_table, round_down, walk, Edit, EditJob,
    Extent, Frames,
};

verus! {

/// Whether `x` is the largest entry for `va`, at depth `limit` at most, that `job` covers as a
/// whole.
pub open spec fn is_largest(job: EditJob, x: Extent, va: int, limit: nat) -> bool {
    &&& 1 <= x.level <= 3
    &&& x.level <= limit
    &&& x.low <= va < x.low + entry_size(x.level)
    &&& job.spans(x.low, x.low + entry_size(x.level))
    &&& forall|m: nat|
        x.level < m <= 3 && m <= limit ==> !#[trigger] job.spans(
            round_down(m, va),
            round_down(m, va) + entry_size(m),
        )
}

/// An entry begins where the addresses that it covers, rounded down, begin.
proof fn lemma_round_down(n: nat, low: int, va: int)
    requires
        1 <= n <= 3,
        aligned(n, low),
        low <= va < low + entry_size(n),
    ensures
        round_down(n, va) == low,
{
    let size = entry_size(n);
    vstd::arithmetic::div_mod::lemma_fundamental_div_mod(low, size);
    vstd::arithmetic::div_mod::lemma_mod_multiples_vanish(low / size, va - low, size);
    vstd::arithmetic::div_mod::lemma_small_mod((va - low) as nat, size as nat);
}

/// An edit covers single pages as a whole.
pub proof fn lemma_page_spanned(job: EditJob, low: int, va: int)
    requires
        low % 0x1000 == 0,
        low <= va < low + 0x1000,
        job.start <= va < job.end,
        job.start % 0x1000 == 0,
        job.end % 0x1000 == 0,
    ensures
        job.spans(low, low + 0x1000),
{
}

/// If an entry at depth `n` is not covered as a whole, then the largest entry further down is the
/// largest of all.
proof fn lemma_largest_below(job: EditJob, x: Extent, va: int, n: nat)
    requires
        2 <= n,
        is_largest(job, x, va, (n - 1) as nat),
        n <= 3 ==> !job.spans(round_down(n, va), round_down(n, va) + entry_size(n)),
    ensures
        is_largest(job, x, va, n),
{
    assert forall|m: nat| x.level < m <= 3 && m <= n implies !#[trigger] job.spans(
        round_down(m, va),
        round_down(m, va) + entry_size(m),
    ) by {
        if m < n {
            assert(m <= n - 1);
        }
    }
}

/// A new table ends in the largest entries that the edit covers.
pub proof fn lemma_new_largest(job: EditJob, n: nat, base: int, va: int)
    requires
        1 <= n <= 5,
        aligned(n + 1, base),
        base <= va < base + table_size(n),
        job.start <= va < job.end,
        job.start % 0x1000 == 0,
        job.end % 0x1000 == 0,
    ensures
        is_largest(job, job.new_extent(n, base, va), va, n),
    decreases n,
{
    let i = entry_index(n, base, va);
    let low = entry_base(n, base, i);
    lemma_entry_index(n, base, va);
    lemma_entry_within(n, base, i);
    if n <= 3 {
        lemma_round_down(n, low, va);
    }
    if n == 1 {
        lemma_page_spanned(job, low, va);
    } else if !(n <= 3 && job.spans(low, low + entry_size(n))) {
        lemma_new_largest(job, (n - 1) as nat, low, va);
        lemma_largest_below(job, job.new_extent((n - 1) as nat, low, va), va, n);
    }
}

/// Where nothing is mapped, a mapping ends in the largest entries that it covers.
proof fn lemma_largest<E: PageTableEntry>(
    frames: Frames,
    page: u64,
    n: nat,
    base: int,
    va: int,
    job: EditJob,
)
    requires
        1 <= n <= 5,
        aligned(n + 1, base),
        base <= va < base + table_size(n),
        job.start <= va < job.end,
        job.start % 0x1000 == 0,
        job.end % 0x1000 == 0,
        job.edit is Mapping,
        walk::<E>(frames, page, n, base, va).leaf is None,
    ensures
        is_largest(
            job,
            job.extent_after::<E>(frames, page, n, base, va),
            va,
            extent::<E>(frames, page, n, base, va).level,
        ),
    decreases n,
{
    let i = entry_index(n, base, va);
    let word = word_at(frames, page, i);
    let low = entry_base(n, base, i);
    lemma_entry_index(n, base, va);
    lemma_entry_within(n, base, i);
    E::lemma_word(word);
    if n > 1 && points_to_table::<E>(word, n) {
        lemma_largest::<E>(frames, E::next_address(word), (n - 1) as nat, low, va, job);
    } else {
        assert(!E::present(word));
        assert(!job.matched::<E>(word, n, low));
        if n <= 3 {
            lemma_round_down(n, low, va);
        }
        if n == 1 {
            lemma_page_spanned(job, low, va);
        } else if !(n <= 3 && job.spans(low, low + entry_size(n))) {
            lemma_new_largest(job, (n - 1) as nat, low, va);
            lemma_largest_below(job, job.new_extent((n - 1) as nat, low, va), va, n);
        }
    }
}

/// Memory is mapped by the largest pages that fit: an address that was not mapped ends in the
/// largest entry that the mapping covers as a whole, unless there were tables further down
/// already.
pub proof fn law_largest_pages<P: PageAllocator, A: PageTableHal>(
    before: PageTableInternal<P>,
    after: PageTableInternal<P>,
    address: u64,
    size: u64,
    attributes: MemoryAttributes,
    va: int,
)
    requires
        edited::<P, A>(before, after, address, size, Edit::Mapping { attributes }),
        in_range(before.spec_paging_type(), address, size, va),
        before.walk_at::<A>(va).leaf is None,
    ensures
        is_largest(
            job_for(before.spec_paging_type(), address, size, Edit::Mapping { attributes }),
            after.extent_at::<A>(va),
            va,
            before.extent_at::<A>(va).level,
        ),
{
    let paging_type = before.spec_paging_type();
    let edit = Edit::Mapping { attributes };
    lemma_accepted::<P, A>(before, after, address, size, edit);
    lemma_job::<A>(paging_type, address, size, edit);
    lemma_outside_self_map::<A>(paging_type, address, size, va);
    lemma_resized::<P, A>(before, after, address, size, edit, va);
    lemma_largest::<A::PTE>(
        before.frames(),
        before.root(),
        paging_type.levels(),
        0,
        va,
        job_for(paging_type, address, size, edit),
    );
}

/// Whether every address of a table in the range of an edit is translated as the edit wants it.
pub open spec fn is_done<E: PageTableEntry>(
    frames: Frames,
    page: u64,
    n: nat,
    base: int,
    job: EditJob,
) -> bool {
    forall|va: int|
        job.start <= va < job.end && base <= va < base + table_size(n) ==> (#[trigger] walk::<E>(
            frames,
            page,
            n,
            base,
            va,
        )).leaf == job.target::<E>(va)
}

/// An entry that translates an address as the edit wants it is as the edit wants it.
proof fn lemma_done_matched<E: PageTableEntry>(
    frames: Frames,
    page: u64,
    n: nat,
    base: int,
    va: int,
    job: EditJob,
)
    requires
        1 <= n <= 5,
        aligned(n + 1, base),
        base <= va < base + table_size(n),
        job.wf::<E>(),
        job.edit matches Edit::Mapping { attributes } ==> !read_protected(attributes.bits),
        !points_to_table::<E>(word_at(frames, page, entry_index(n, base, va)), n),
        walk::<E>(frames, page, n, base, va).leaf == job.target::<E>(va),
    ensures
        job.matched::<E>(
            word_at(frames, page, entry_index(n, base, va)),
            n,
            entry_base(n, base, entry_index(n, base, va)),
        ),
{
    let i = entry_index(n, base, va);
    let word = word_at(frames, page, i);
    let low = entry_base(n, base, i);
    lemma_entry_index(n, base, va);
    lemma_entry_within(n, base, i);
    E::lemma_word(word);
    if job.edit is Mapping {
        let limit = E::address_limit();
        assert(n <= 3);
        lemma_aligned_offset(n, low, job.offset as int);
        lemma_identity(n, job.offset + low, 0, limit);
        lemma_identity(n, job.offset + low, va - low, limit);
    }
}

/// An edit that is done already needs no table, and keeps all entries.
proof fn lemma_done<E: PageTableEntry>(
    frames: Frames,
    page: u64,
    n: nat,
    base: int,
    va: int,
    job: EditJob,
)
    requires
        1 <= n <= 5,
        aligned(n + 1, base),
        base <= va < base + table_size(n),
        job.wf::<E>(),
        job.edit matches Edit::Mapping { attributes } ==> !read_protected(attributes.bits),
        is_done::<E>(frames, page, n, base, job),
    ensures
        job.start <= va < job.end ==> job.ready::<E>(frames, page, n, base, va),
        job.extent_after::<E>(frames, page, n, base, va) == extent::<E>(
            frames,
            page,
            n,
            base,
            va,
        ),
    decreases n,
{
    let i = entry_index(n, base, va);
    let word = word_at(frames, page, i);
    let low = entry_base(n, base, i);
    lemma_entry_index(n, base, va);
    lemma_entry_within(n, base, i);
    E::lemma_word(word);
    if job.touches(low, low + entry_size(n)) {
        if n > 1 && points_to_table::<E>(word, n) {
            let next = E::next_address(word);
            let m = (n - 1) as nat;
            assert forall|v: int|
                job.start <= v < job.end && low <= v < low + table_size(m) implies (
            #[trigger] walk::<E>(frames, next, m, low, v)).leaf == job.target::<E>(v) by {
                lemma_entry_base(n, base, i, v);
                let w = walk::<E>(frames, page, n, base, v);
            }
            lemma_done::<E>(frames, next, m, low, va, job);
        } else {
            let v = if job.start <= low {
                low
            } else {
                job.start as int
            };
            lemma_entry_base(n, base, i, v);
            lemma_done_matched::<E>(frames, page, n, base, v, job);
        }
    }
}

/// To ask for what is there already takes no new table and keeps all entries: no large page is
/// split for it. This is about what can be read; a mapping that forbids reading leaves entries
/// out of use, which cannot be told from entries for nothing.
pub proof fn law_same_again_keeps_pages<P: PageAllocator, A: PageTableHal>(
    before: PageTableInternal<P>,
    address: u64,
    size: u64,
    edit: Edit,
)
    requires
        edit_range_error::<A>(before.spec_paging_type(), address, size) is None,
        edit matches Edit::Mapping { attributes } ==> A::PTE::supported(attributes.bits)
            && !read_protected(attributes.bits),
        forall|va: int|
            in_range(before.spec_paging_type(), address, size, va) ==> (#[trigger] before.walk_at::<
                A,
            >(va)).leaf == job_for(before.spec_paging_type(), address, size, edit).target::<A::PTE>(
                va,
            ),
    ensures
        before.is_ready::<A>(job_for(before.spec_paging_type(), address, size, edit)),
        forall|after: PageTableInternal<P>, va: int|
            #![trigger after.extent_at::<A>(va), before.extent_at::<A>(va)]
            edited::<P, A>(before, after, address, size, edit) && 0 <= va
                < before.spec_paging_type().space() && entry_index(
                before.spec_paging_type().levels(),
                0,
                va,
            ) != 0x1FE ==> after.extent_at::<A>(va) == before.extent_at::<A>(va),
{
    let paging_type = before.spec_paging_type();
    let n = paging_type.levels();
    let job = job_for(paging_type, address, size, edit);
    let frames = before.frames();
    let root = before.root();
    lemma_job::<A>(paging_type, address, size, edit);
    assert(is_done::<A::PTE>(frames, root, n, 0, job)) by {
        assert forall|va: int|
            job.start <= va < job.end && 0 <= va < table_size(n) implies (#[trigger] walk::<A::PTE>(
            frames,
            root,
            n,
            0,
            va,
        )).leaf == job.target::<A::PTE>(va) by {
            assert(in_range(paging_type, address, size, va));
            let w = before.walk_at::<A>(va);
        }
    }
    assert forall|va: int|
        job.start <= va < job.end && 0 <= va < table_size(n) implies #[trigger] job.ready::<A::PTE>(
        frames,
        root,
        n,
        0,
        va,
    ) by {
        lemma_done::<A::PTE>(frames, root, n, 0, va, job);
    }
    assert forall|after: PageTableInternal<P>, va: int|
        #![trigger after.extent_at::<A>(va), before.extent_at::<A>(va)]
        edited::<P, A>(before, after, address, size, edit) && 0 <= va < paging_type.space()
            && entry_index(n, 0, va) != 0x1FE implies after.extent_at::<A>(va)
        == before.extent_at::<A>(va) by {
        lemma_resized::<P, A>(before, after, address, size, edit, va);
        lemma_done::<A::PTE>(frames, root, n, 0, va, job);
    }
}

} // verus!
