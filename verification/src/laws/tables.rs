//! What holds of the number of tables, and of the pages for them.
use vstd::prelude::*;
use crate::arch::{PageTableEntry, PageTableHal};
use crate::attributes::MemoryAttributes;
use crate::demand::{lemma_more_entries, new_tables, tables_below, tables_for_entry};
use crate::error::PtError;
use crate::laws::edits::{
    edited, in_range, lemma_accepted, lemma_job, lemma_outside_self_map, lemma_resized,
};
use crate::laws::pages::{lemma_new_largest, lemma_page_spanned};
use crate::memory::word_at;
use crate::page_allocator::{
    all_granted, answered_in_turn, granted, takes, PageAllocator, PageAllocatorStub, Request,
};
use crate::paging::{edit_range_error, job_for, PageTableInternal};
use crate::structs::{
    aligned, entry_base, entry_index, entry_size, lemma_entry_base, lemma_entry_index,
    lemma_entry_within, table_size,
};
use crate::tree::{
    all_ready, extent, lemma_aligned_offset, lemma_identity, lemma_ready_below, points_to_table,
    walk, Edit, EditJob, Extent, Frames,
};

verus! {

/// How many blocks of `size` bytes the range from `start` up to `end` touches.
pub open spec fn touched_blocks(size: int, start: int, end: int) -> int {
    (end - 1) / size - start / size + 1
}

/// How many blocks of `size` bytes the range from `start` up to `end` holds as a whole.
pub open spec fn whole_blocks(size: int, start: int, end: int) -> int {
    if end / size >= (start + size - 1) / size {
        end / size - (start + size - 1) / size
    } else {
        0
    }
}

/// How many entries at depth `n` cannot map what they cover of a range by themselves: those that
/// the range touches at all if they are above the third level, which is the last with
/// mappings, and else those that it touches in part.
pub open spec fn split_entries(n: nat, start: int, end: int) -> int {
    if start >= end {
        0
    } else if n >= 4 {
        touched_blocks(entry_size(n), start, end)
    } else {
        touched_blocks(entry_size(n), start, end) - whole_blocks(entry_size(n), start, end)
    }
}

/// How many entries cannot map what they cover of a range by themselves, at depth `n` and below.
pub open spec fn all_split_entries(n: nat, start: int, end: int) -> int
    decreases n,
{
    if n <= 1 {
        0
    } else {
        split_entries(n, start, end) + all_split_entries((n - 1) as nat, start, end)
    }
}

spec fn smaller(a: int, b: int) -> int {
    if a <= b {
        a
    } else {
        b
    }
}

spec fn larger(a: int, b: int) -> int {
    if a <= b {
        b
    } else {
        a
    }
}

/// A range can be counted in two parts, if they meet at the border of blocks.
proof fn lemma_two_parts_of(size: int, start: int, middle: int, end: int)
    requires
        size > 0,
        0 <= start < middle < end,
        middle % size == 0,
    ensures
        touched_blocks(size, start, end) == touched_blocks(size, start, middle) + touched_blocks(
            size,
            middle,
            end,
        ),
        whole_blocks(size, start, end) == whole_blocks(size, start, middle) + whole_blocks(
            size,
            middle,
            end,
        ),
{
    let m = middle / size;
    vstd::arithmetic::div_mod::lemma_fundamental_div_mod(middle, size);
    assert((middle - 1) / size == m - 1 && (middle + size - 1) / size == m) by (nonlinear_arith)
        requires
            size > 0,
            middle == size * m,
    ;
    assert((start + size - 1) / size <= m && end / size >= m) by (nonlinear_arith)
        requires
            size > 0,
            middle == size * m,
            start < middle < end,
    ;
}

/// The same for all depths up to `n`.
proof fn lemma_two_parts(n: nat, start: int, middle: int, end: int)
    requires
        n <= 5,
        0 <= start,
        0 <= middle,
        aligned(n, middle),
    ensures
        all_split_entries(n, start, end) == all_split_entries(n, start, smaller(middle, end))
            + all_split_entries(n, larger(start, middle), end),
    decreases n,
{
    if n > 1 {
        lemma_two_parts((n - 1) as nat, start, middle, end);
        if start < middle < end {
            lemma_two_parts_of(entry_size(n), start, middle, end);
        }
    }
}

/// A range of whole blocks touches no others.
proof fn lemma_whole_of(size: int, start: int, end: int)
    requires
        size > 0,
        0 <= start < end,
        start % size == 0,
        end % size == 0,
    ensures
        touched_blocks(size, start, end) == whole_blocks(size, start, end),
{
    let a = start / size;
    let b = end / size;
    vstd::arithmetic::div_mod::lemma_fundamental_div_mod(start, size);
    vstd::arithmetic::div_mod::lemma_fundamental_div_mod(end, size);
    assert((end - 1) / size == b - 1 && (start + size - 1) / size == a && a <= b) by (
    nonlinear_arith)
        requires
            size > 0,
            start == size * a,
            end == size * b,
            start < end,
    ;
}

/// A range that ends with entries at depth `n` splits none of them, nor any smaller one.
proof fn lemma_none_split(n: nat, start: int, end: int)
    requires
        n <= 3,
        0 <= start < end,
        aligned(n, start),
        aligned(n, end),
    ensures
        all_split_entries(n, start, end) == 0,
    decreases n,
{
    if n > 1 {
        lemma_none_split((n - 1) as nat, start, end);
        lemma_whole_of(entry_size(n), start, end);
    }
}

/// A range inside of one block touches that block alone, and holds it only if it is the block.
proof fn lemma_one_block(size: int, low: int, start: int, end: int)
    requires
        size > 0,
        low % size == 0,
        0 <= low <= start < end <= low + size,
    ensures
        touched_blocks(size, start, end) == 1,
        start > low || end < low + size ==> whole_blocks(size, start, end) == 0,
{
    let m = low / size;
    vstd::arithmetic::div_mod::lemma_fundamental_div_mod(low, size);
    assert((end - 1) / size == m && start / size == m && (start > low || end < low + size ==> end
        / size <= (start + size - 1) / size)) by (nonlinear_arith)
        requires
            size > 0,
            low == size * m,
            low <= start < end <= low + size,
    ;
}

/// A new table takes one table for every entry that cannot map what it covers by itself.
proof fn lemma_counted(job: EditJob, n: nat, base: int, i: nat)
    requires
        1 <= n <= 5,
        i <= 512,
        0 <= base,
        aligned(n + 1, base),
        job.start < job.end,
    ensures
        new_tables(job, n, base, i) == all_split_entries(
            n,
            larger(job.start as int, base),
            smaller(job.end as int, entry_base(n, base, i as int)),
        ),
    decreases n, i,
{
    let start = larger(job.start as int, base);
    if n <= 1 {
    } else if i == 0 {
        lemma_nothing_split(n, start, smaller(job.end as int, entry_base(n, base, 0)));
    } else {
        let j = (i - 1) as nat;
        let low = entry_base(n, base, j as int);
        let high = low + entry_size(n);
        lemma_entry_within(n, base, j as int);
        let first = larger(start, low);
        let last = smaller(job.end as int, high);
        lemma_counted(job, n, base, j);
        lemma_two_parts(n, start, low, last);
        assert(smaller(low, last) == smaller(job.end as int, low));
        assert(first == larger(job.start as int, low));
        if !job.touches(low, high) {
            lemma_nothing_split(n, first, last);
        } else if n <= 3 && job.spans(low, high) {
            lemma_entry_within(n, base, 0);
            lemma_none_split(n, low, high);
        } else {
            let m = (n - 1) as nat;
            lemma_counted(job, m, low, 512);
            assert(entry_base(m, low, 512) == high);
            lemma_one_block(entry_size(n), low, first, last);
        }
    }
}

/// An empty range splits no entry.
proof fn lemma_nothing_split(n: nat, start: int, end: int)
    requires
        start >= end,
    ensures
        all_split_entries(n, start, end) == 0,
    decreases n,
{
    if n > 1 {
        lemma_nothing_split((n - 1) as nat, start, end);
    }
}

/// The root of a new page table takes as many tables as one that was made for the mapping.
proof fn lemma_first_mapping<E: PageTableEntry>(
    frames: Frames,
    root: u64,
    n: nat,
    i: nat,
    job: EditJob,
)
    requires
        4 <= n <= 5,
        i <= 512,
        job.edit is Mapping,
        job.end <= entry_base(n, 0, 0x1FE),
        forall|k: int| 0 <= k < 0x1FE ==> #[trigger] word_at(frames, root, k) == 0,
    ensures
        tables_below::<E>(frames, root, n, 0, i, job) == new_tables(job, n, 0, i),
    decreases i,
{
    if i > 0 {
        let j = (i - 1) as nat;
        let low = entry_base(n, 0, j as int);
        lemma_first_mapping::<E>(frames, root, n, j, job);
        E::lemma_word(0);
        if j < 0x1FE {
            assert(word_at(frames, root, j as int) == 0);
        }
        assert(tables_for_entry::<E>(frames, root, n, 0, j, job) == if !job.touches(
            low,
            low + entry_size(n),
        ) {
            0
        } else {
            1 + new_tables(job, (n - 1) as nat, low, 512)
        });
    }
}

/// The first mapping in a new page table takes one table for each entry that cannot map what it
/// covers of the range by itself: for each of those above the third level that the range
/// touches, and for each of the others that it touches in part.
pub proof fn law_first_mapping<P: PageAllocator, A: PageTableHal>(
    table: PageTableInternal<P>,
    address: u64,
    size: u64,
    attributes: MemoryAttributes,
)
    requires
        table.is_new::<A>(),
        edit_range_error::<A>(table.spec_paging_type(), address, size) is None,
    ensures
        ({
            let paging_type = table.spec_paging_type();
            let start = address as int % paging_type.space();
            table.tables_needed::<A>(
                job_for(paging_type, address, size, Edit::Mapping { attributes }),
            ) == all_split_entries(paging_type.levels(), start, start + size)
        }),
{
    let paging_type = table.spec_paging_type();
    let n = paging_type.levels();
    let job = job_for(paging_type, address, size, Edit::Mapping { attributes });
    lemma_job::<A>(paging_type, address, size, Edit::Mapping { attributes });
    lemma_first_mapping::<A::PTE>(table.frames(), table.root(), n, 512, job);
    lemma_counted(job, n, 0, 512);
    assert(entry_base(n, 0, 512) == paging_type.space());
}

/// An edit succeeds, and asks for exactly the pages that it needs new tables for, if the allocator
/// grants so many. The pages have to be fit for tables.
pub proof fn law_enough_pages<P: PageAllocator, A: PageTableHal>(
    before: PageTableInternal<P>,
    after: PageTableInternal<P>,
    address: u64,
    size: u64,
    edit: Edit,
    r: Result<(), PtError>,
)
    requires
        before.has_tree::<A>(),
        after.spec_sound(),
        after.edit_outcome::<A>(
            &before,
            job_for(before.spec_paging_type(), address, size, edit),
            r,
        ),
        forall|requests: Seq<Request<P>>| #[trigger]
            answered_in_turn(before.allocator(), requests) && requests.len()
                <= before.tables_needed::<A>(
                job_for(before.spec_paging_type(), address, size, edit),
            ) ==> all_granted(requests),
    ensures
        r is Ok,
        after.asked_since(&before).len() == before.tables_needed::<A>(
            job_for(before.spec_paging_type(), address, size, edit),
        ),
{
    let asked = after.asked_since(&before);
    assert(answered_in_turn(before.allocator(), asked));
    if r is Err {
        assert(granted(asked[asked.len() - 1]) is Some);
    }
}

/// Where the edit is ready, it takes no table.
proof fn lemma_ready_takes_none<E: PageTableEntry>(
    frames: Frames,
    page: u64,
    n: nat,
    base: int,
    i: nat,
    job: EditJob,
)
    requires
        1 <= n <= 5,
        i <= 512,
        job.start < job.end,
        all_ready::<E>(frames, page, n, base, job),
    ensures
        tables_below::<E>(frames, page, n, base, i, job) == 0,
    decreases n, i,
{
    if i > 0 {
        let j = (i - 1) as nat;
        let word = word_at(frames, page, j as int);
        let low = entry_base(n, base, j as int);
        lemma_ready_takes_none::<E>(frames, page, n, base, j, job);
        lemma_entry_within(n, base, j as int);
        if n > 1 && job.touches(low, low + entry_size(n)) {
            let va = larger(job.start as int, low);
            lemma_entry_base(n, base, j as int, va);
            assert(job.ready::<E>(frames, page, n, base, va));
            if points_to_table::<E>(word, n) {
                let m = (n - 1) as nat;
                lemma_ready_below::<E>(frames, page, n, base, j as int, job);
                lemma_ready_takes_none::<E>(frames, E::next_address(word), m, low, 512, job);
            }
        }
        assert(tables_for_entry::<E>(frames, page, n, base, j, job) == 0);
    }
}

/// If the entries of a table take no tables together, then none of them takes any.
proof fn lemma_entry_takes_none<E: PageTableEntry>(
    frames: Frames,
    page: u64,
    n: nat,
    base: int,
    i: nat,
    job: EditJob,
)
    requires
        1 <= n <= 5,
        i < 512,
        tables_below::<E>(frames, page, n, base, 512, job) == 0,
    ensures
        tables_for_entry::<E>(frames, page, n, base, i, job) == 0,
{
    lemma_more_entries::<E>(frames, page, n, base, i + 1, 512, job);
    assert(tables_below::<E>(frames, page, n, base, i + 1, job) == tables_below::<E>(
        frames,
        page,
        n,
        base,
        i,
        job,
    ) + tables_for_entry::<E>(frames, page, n, base, i, job));
}

/// Where the edit takes no table, it is ready.
proof fn lemma_takes_none_ready<E: PageTableEntry>(
    frames: Frames,
    page: u64,
    n: nat,
    base: int,
    job: EditJob,
    va: int,
)
    requires
        1 <= n <= 5,
        job.start % 0x1000 == 0,
        job.end % 0x1000 == 0,
        aligned(n + 1, base),
        job.start <= va < job.end,
        base <= va < base + table_size(n),
        tables_below::<E>(frames, page, n, base, 512, job) == 0,
    ensures
        job.ready::<E>(frames, page, n, base, va),
    decreases n,
{
    let i = entry_index(n, base, va);
    let word = word_at(frames, page, i);
    let low = entry_base(n, base, i);
    lemma_entry_index(n, base, va);
    lemma_entry_within(n, base, i);
    E::lemma_word(word);
    lemma_entry_takes_none::<E>(frames, page, n, base, i as nat, job);
    if n == 1 {
        lemma_page_spanned(job, low, va);
    }
    if n > 1 && points_to_table::<E>(word, n) {
        lemma_takes_none_ready::<E>(
            frames,
            E::next_address(word),
            (n - 1) as nat,
            low,
            job,
            va,
        );
    }
}

/// An edit is ready exactly if no new table is needed for it.
pub proof fn law_ready<P: PageAllocator, A: PageTableHal>(
    table: PageTableInternal<P>,
    address: u64,
    size: u64,
    edit: Edit,
)
    requires
        edit_range_error::<A>(table.spec_paging_type(), address, size) is None,
    ensures
        ({
            let job = job_for(table.spec_paging_type(), address, size, edit);
            table.is_ready::<A>(job) <==> table.tables_needed::<A>(job) == 0
        }),
{
    let n = table.spec_paging_type().levels();
    let job = job_for(table.spec_paging_type(), address, size, edit);
    lemma_job::<A>(table.spec_paging_type(), address, size, edit);
    if table.is_ready::<A>(job) {
        lemma_ready_takes_none::<A::PTE>(table.frames(), table.root(), n, 0, 512, job);
    }
    if table.tables_needed::<A>(job) == 0 {
        assert forall|va: int|
            job.start <= va < job.end && 0 <= va < table_size(n) implies #[trigger] job.ready::<
            A::PTE,
        >(table.frames(), table.root(), n, 0, va) by {
            lemma_takes_none_ready::<A::PTE>(table.frames(), table.root(), n, 0, job, va);
        }
    }
}

/// Whether an entry covers addresses outside the range of an edit.
pub open spec fn sticks_out(job: EditJob, x: Extent) -> bool {
    !job.spans(x.low, x.low + entry_size(x.level))
}

/// An entry that is as a mapping wants it maps every address as the mapping wants it.
proof fn lemma_matched_leaf<E: PageTableEntry>(
    frames: Frames,
    page: u64,
    n: nat,
    base: int,
    va: int,
    job: EditJob,
)
    requires
        1 <= n <= 5,
        aligned(n + 1, base),
        base <= va < base + table_size(n),
        job.wf::<E>(),
        job.edit is Mapping,
        !points_to_table::<E>(word_at(frames, page, entry_index(n, base, va)), n),
        job.matched::<E>(
            word_at(frames, page, entry_index(n, base, va)),
            n,
            entry_base(n, base, entry_index(n, base, va)),
        ),
    ensures
        walk::<E>(frames, page, n, base, va).leaf is Some,
        walk::<E>(frames, page, n, base, va).leaf == job.target::<E>(va),
{
    let i = entry_index(n, base, va);
    let word = word_at(frames, page, i);
    let low = entry_base(n, base, i);
    lemma_entry_index(n, base, va);
    lemma_entry_within(n, base, i);
    E::lemma_word(word);
    let limit = E::address_limit();
    assert(n <= 3);
    if let Edit::Mapping { attributes } = job.edit {
        E::lemma_updated(0, attributes.bits, 0, true, 1);
    }
    lemma_aligned_offset(n, low, job.offset as int);
    lemma_identity(n, job.offset + low, 0, limit);
    lemma_identity(n, job.offset + low, va - low, limit);
}

/// A mapping leaves no entry that sticks out of its range, unless it finds one that is already as
/// it wants it.
proof fn lemma_mapped_within<E: PageTableEntry>(
    frames: Frames,
    page: u64,
    n: nat,
    base: int,
    va: int,
    job: EditJob,
)
    requires
        1 <= n <= 5,
        aligned(n + 1, base),
        base <= va < base + table_size(n),
        job.wf::<E>(),
        job.edit is Mapping,
        job.start <= va < job.end,
        sticks_out(job, extent::<E>(frames, page, n, base, va)) ==> {
            let leaf = walk::<E>(frames, page, n, base, va).leaf;
            leaf is None || leaf != job.target::<E>(va)
        },
    ensures
        ({
            let x = job.extent_after::<E>(frames, page, n, base, va);
            x.level <= 3 && !sticks_out(job, x)
        }),
    decreases n,
{
    let i = entry_index(n, base, va);
    let word = word_at(frames, page, i);
    let low = entry_base(n, base, i);
    lemma_entry_index(n, base, va);
    lemma_entry_within(n, base, i);
    E::lemma_word(word);
    if n > 1 && points_to_table::<E>(word, n) {
        lemma_mapped_within::<E>(frames, E::next_address(word), (n - 1) as nat, low, va, job);
    } else if n == 1 {
        lemma_page_spanned(job, low, va);
    } else {
        if job.matched::<E>(word, n, low) {
            lemma_matched_leaf::<E>(frames, page, n, base, va, job);
        }
        if !job.in_one::<E>(word, n, low) {
            lemma_new_largest(job, (n - 1) as nat, low, va);
        }
    }
}

/// Where no entry sticks out of a range, and none is above the third level, an edit of the range is
/// ready.
proof fn lemma_within_ready<E: PageTableEntry>(
    frames: Frames,
    page: u64,
    n: nat,
    base: int,
    va: int,
    job: EditJob,
)
    requires
        1 <= n <= 5,
        base <= va < base + table_size(n),
        extent::<E>(frames, page, n, base, va).level <= 3,
        !sticks_out(job, extent::<E>(frames, page, n, base, va)),
    ensures
        job.ready::<E>(frames, page, n, base, va),
    decreases n,
{
    let i = entry_index(n, base, va);
    let word = word_at(frames, page, i);
    lemma_entry_index(n, base, va);
    lemma_entry_within(n, base, i);
    E::lemma_word(word);
    if points_to_table::<E>(word, n) {
        lemma_within_ready::<E>(
            frames,
            E::next_address(word),
            (n - 1) as nat,
            entry_base(n, base, i),
            va,
            job,
        );
    }
}

/// A second edit of exactly the range that was mapped before, to other attributes or to nothing,
/// needs no page. This leaves out ranges where the first mapping found an entry, sticking out of
/// the range, that was already as it wanted it, and so left it in one piece.
pub proof fn law_remap_needs_no_page<P: PageAllocator, A: PageTableHal>(
    before: PageTableInternal<P>,
    mapped: PageTableInternal<P>,
    address: u64,
    size: u64,
    attributes: MemoryAttributes,
    second: Edit,
)
    requires
        edited::<P, A>(before, mapped, address, size, Edit::Mapping { attributes }),
        A::PTE::supported(attributes.bits),
        forall|va: int|
            in_range(before.spec_paging_type(), address, size, va) && sticks_out(
                job_for(before.spec_paging_type(), address, size, Edit::Mapping { attributes }),
                #[trigger] before.extent_at::<A>(va),
            ) ==> before.walk_at::<A>(va).leaf is None || before.walk_at::<A>(va).leaf != job_for(
                before.spec_paging_type(),
                address,
                size,
                Edit::Mapping { attributes },
            ).target::<A::PTE>(va),
    ensures
        mapped.is_ready::<A>(job_for(mapped.spec_paging_type(), address, size, second)),
        mapped.tables_needed::<A>(job_for(mapped.spec_paging_type(), address, size, second)) == 0,
{
    let paging_type = before.spec_paging_type();
    let n = paging_type.levels();
    let edit = Edit::Mapping { attributes };
    let first_job = job_for(paging_type, address, size, edit);
    let job = job_for(paging_type, address, size, second);
    lemma_accepted::<P, A>(before, mapped, address, size, edit);
    lemma_job::<A>(paging_type, address, size, edit);
    lemma_job::<A>(paging_type, address, size, second);
    assert forall|va: int|
        job.start <= va < job.end && 0 <= va < table_size(n) implies #[trigger] job.ready::<A::PTE>(
        mapped.frames(),
        mapped.root(),
        n,
        0,
        va,
    ) by {
        assert(in_range(paging_type, address, size, va));
        lemma_outside_self_map::<A>(paging_type, address, size, va);
        lemma_resized::<P, A>(before, mapped, address, size, edit, va);
        let x = before.extent_at::<A>(va);
        let w = before.walk_at::<A>(va);
        lemma_mapped_within::<A::PTE>(before.frames(), before.root(), n, 0, va, first_job);
        let y = mapped.extent_at::<A>(va);
        lemma_within_ready::<A::PTE>(mapped.frames(), mapped.root(), n, 0, va, job);
    }
    law_ready::<P, A>(mapped, address, size, second);
}

/// Without pages from the allocator an edit succeeds or fails for want of them, and succeeds when
/// no new table is needed. Either way the tables stay sound, in the pages that they are in.
pub proof fn law_without_pages<A: PageTableHal>(
    before: PageTableInternal<PageAllocatorStub>,
    after: PageTableInternal<PageAllocatorStub>,
    address: u64,
    size: u64,
    edit: Edit,
    r: Result<(), PtError>,
)
    requires
        before.has_tree::<A>(),
        before.spec_sound(),
        edit_range_error::<A>(before.spec_paging_type(), address, size) is None,
        after.edit_outcome::<A>(
            &before,
            job_for(before.spec_paging_type(), address, size, edit),
            r,
        ),
    ensures
        r is Ok || r == Err::<(), PtError>(PtError::OutOfResources),
        before.is_ready::<A>(job_for(before.spec_paging_type(), address, size, edit)) ==> r is Ok,
        after.spec_sound(),
        after.frames().dom() == before.frames().dom(),
{
    let asked = after.asked_since(&before);
    assert forall|k: int| 0 <= k < asked.len() implies (#[trigger] asked[k]).answer == Err::<
        u64,
        PtError,
    >(PtError::OutOfResources) by {}
    assert forall|page: u64| !#[trigger] takes(asked, page) by {}
    assert(after.frames().dom() =~= before.frames().dom()) by {
        assert forall|page: u64| #[trigger] after.frames().dom().contains(page)
            == before.frames().dom().contains(page) by {
            assert(after.frames().contains_key(page) <==> before.frames().contains_key(page)
                || takes(asked, page));
        }
    }
    if r is Err {
        assert(asked.last() == asked[asked.len() - 1]);
    }
}

} // verus!
