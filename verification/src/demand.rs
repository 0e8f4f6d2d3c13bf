//! How many new tables an edit takes.
use vstd::prelude::*;
use crate::arch::PageTableEntry;
use crate::memory::{word_at, words_of};
use crate::structs::{aligned, entry_base, entry_size, lemma_entry_within};
use crate::tree::{
    confined, in_tree, is_self_entry, lemma_pieces_unmatched, linked, pieces_of, points_to_table,
    EditJob, Frames, Places,
};

verus! {

/// The tables that the edit takes below the first `i` entries of a table at depth `n` that was
/// made for it. An entry that is edited in part, or too large for a mapping, takes a table of
/// its own.
pub open spec fn new_tables(job: EditJob, n: nat, base: int, i: nat) -> nat
    decreases n, i,
{
    if n <= 1 || i == 0 {
        0
    } else {
        let low = entry_base(n, base, i - 1);
        let here: nat = if !job.touches(low, low + entry_size(n)) || (n <= 3 && job.spans(
            low,
            low + entry_size(n),
        )) {
            0
        } else {
            1 + new_tables(job, (n - 1) as nat, low, 512)
        };
        new_tables(job, n, base, (i - 1) as nat) + here
    }
}

/// The tables that the edit takes below entry `i` of the table in `page`: those that are
/// missing below the table it points to, or a table and those below it if the entry cannot be
/// edited in one piece.
pub open spec fn tables_for_entry<E: PageTableEntry>(
    frames: Frames,
    page: u64,
    n: nat,
    base: int,
    i: nat,
    job: EditJob,
) -> nat
    decreases n, i,
{
    let word = word_at(frames, page, i as int);
    let low = entry_base(n, base, i as int);
    if n <= 1 || !job.touches(low, low + entry_size(n)) {
        0
    } else if points_to_table::<E>(word, n) {
        tables_below::<E>(frames, E::next_address(word), (n - 1) as nat, low, 512, job)
    } else if job.in_one::<E>(word, n, low) {
        0
    } else {
        1 + new_tables(job, (n - 1) as nat, low, 512)
    }
}

/// The tables that the edit takes below the first `i` entries of the table in `page`.
pub open spec fn tables_below<E: PageTableEntry>(
    frames: Frames,
    page: u64,
    n: nat,
    base: int,
    i: nat,
    job: EditJob,
) -> nat
    decreases n, i,
{
    if i == 0 {
        0
    } else {
        tables_below::<E>(frames, page, n, base, (i - 1) as nat, job) + tables_for_entry::<E>(
            frames,
            page,
            n,
            base,
            (i - 1) as nat,
            job,
        )
    }
}

/// Tables whose entries take as many tables take as many together.
proof fn lemma_same_sum<E: PageTableEntry>(
    before: Frames,
    after: Frames,
    page: u64,
    n: nat,
    base: int,
    i: nat,
    job: EditJob,
)
    requires
        forall|k: nat|
            k < i ==> #[trigger] tables_for_entry::<E>(after, page, n, base, k, job)
                == tables_for_entry::<E>(before, page, n, base, k, job),
    ensures
        tables_below::<E>(after, page, n, base, i, job) == tables_below::<E>(
            before,
            page,
            n,
            base,
            i,
            job,
        ),
    decreases i,
{
    if i > 0 {
        let k = (i - 1) as nat;
        lemma_same_sum::<E>(before, after, page, n, base, k, job);
        assert(tables_for_entry::<E>(after, page, n, base, k, job) == tables_for_entry::<E>(
            before,
            page,
            n,
            base,
            k,
            job,
        ));
    }
}

/// What an edit takes below an entry depends on the entry and the tables below it alone.
pub proof fn lemma_same_demand<E: PageTableEntry>(
    before: Frames,
    after: Frames,
    places: Places,
    root: u64,
    page: u64,
    n: nat,
    base: int,
    i: nat,
    job: EditJob,
)
    requires
        in_tree::<E>(before, places, root, page, n, base),
        i < 512,
        !is_self_entry(root, page, i as int),
        word_at(after, page, i as int) == word_at(before, page, i as int),
        forall|q: u64| #[trigger]
            places.contains_key(q) && places[q].level < n && places[q].within(
                entry_base(n, base, i as int),
                entry_base(n, base, i as int) + entry_size(n),
            ) ==> after.contains_key(q) && after[q] == before[q],
    ensures
        tables_for_entry::<E>(after, page, n, base, i, job) == tables_for_entry::<E>(
            before,
            page,
            n,
            base,
            i,
            job,
        ),
    decreases n,
{
    let word = word_at(before, page, i as int);
    let low = entry_base(n, base, i as int);
    if n > 1 && points_to_table::<E>(word, n) {
        let m = (n - 1) as nat;
        let next = E::next_address(word);
        assert(linked::<E>(before, places, root, page, i as int));
        assert(places.contains_key(next));
        lemma_entry_within(n, base, i as int);
        assert(after[next] == before[next]);
        assert forall|k: nat| k < 512 implies #[trigger] tables_for_entry::<E>(
            after,
            next,
            m,
            low,
            k,
            job,
        ) == tables_for_entry::<E>(before, next, m, low, k, job) by {
            lemma_entry_within(m, low, k as int);
            lemma_same_demand::<E>(before, after, places, root, next, m, low, k, job);
        }
        lemma_same_sum::<E>(before, after, next, m, low, 512, job);
    }
}

/// A change that is confined to an entry does not change what an edit takes below other entries.
pub proof fn lemma_confined_demand<E: PageTableEntry>(
    before: Frames,
    after: Frames,
    places: Places,
    root: u64,
    page: u64,
    n: nat,
    base: int,
    i: int,
    j: nat,
    job: EditJob,
)
    requires
        in_tree::<E>(before, places, root, page, n, base),
        confined(before, after, places, page, i),
        0 <= i < j < 512,
        !is_self_entry(root, page, j as int),
    ensures
        tables_for_entry::<E>(after, page, n, base, j, job) == tables_for_entry::<E>(
            before,
            page,
            n,
            base,
            j,
            job,
        ),
{
    lemma_entry_within(n, base, i);
    lemma_entry_within(n, base, j as int);
    lemma_same_demand::<E>(before, after, places, root, page, n, base, j, job);
}

/// In a table made of the pieces of an entry that is not as the edit wants it, the edit alone
/// decides on how many tables it takes.
pub proof fn lemma_new_tables<E: PageTableEntry>(
    frames: Frames,
    next: u64,
    word: u64,
    n: nat,
    low: int,
    i: nat,
    job: EditJob,
)
    requires
        2 <= n <= 5,
        aligned(n, low),
        job.wf::<E>(),
        pieces_of::<E>(words_of(frames, next), word, n),
        !points_to_table::<E>(word, n),
        !job.matched::<E>(word, n, low),
        i <= 512,
    ensures
        tables_below::<E>(frames, next, (n - 1) as nat, low, i, job) == new_tables(
            job,
            (n - 1) as nat,
            low,
            i,
        ),
    decreases i,
{
    if i > 0 {
        let j = (i - 1) as nat;
        lemma_new_tables::<E>(frames, next, word, n, low, j, job);
        lemma_pieces_unmatched::<E>(words_of(frames, next), word, n, low, job, j as int);
        assert(word_at(frames, next, j as int) == words_of(frames, next)[j as int]);
        let m = (n - 1) as nat;
        let piece_low = entry_base(m, low, j as int);
        assert(tables_for_entry::<E>(frames, next, m, low, j, job) == if m <= 1 || !job.touches(
            piece_low,
            piece_low + entry_size(m),
        ) || (m <= 3 && job.spans(piece_low, piece_low + entry_size(m))) {
            0
        } else {
            1 + new_tables(job, (m - 1) as nat, piece_low, 512)
        });
    }
}

/// More entries take no fewer tables, and as many if the edit does not touch them.
pub proof fn lemma_more_entries<E: PageTableEntry>(
    frames: Frames,
    page: u64,
    n: nat,
    base: int,
    i: nat,
    j: nat,
    job: EditJob,
)
    requires
        1 <= n <= 5,
        i <= j <= 512,
    ensures
        tables_below::<E>(frames, page, n, base, i, job) <= tables_below::<E>(
            frames,
            page,
            n,
            base,
            j,
            job,
        ),
        !job.touches(entry_base(n, base, i as int), entry_base(n, base, j as int))
            ==> tables_below::<E>(frames, page, n, base, i, job) == tables_below::<E>(
            frames,
            page,
            n,
            base,
            j,
            job,
        ),
    decreases j - i,
{
    if i < j {
        let k = (j - 1) as nat;
        lemma_entry_within(n, base, k as int);
        if k > i {
            lemma_entry_within(n, base, i as int);
        }
        lemma_more_entries::<E>(frames, page, n, base, i, k, job);
        assert(tables_below::<E>(frames, page, n, base, j, job) == tables_below::<E>(
            frames,
            page,
            n,
            base,
            k,
            job,
        ) + tables_for_entry::<E>(frames, page, n, base, k, job));
    }
}

} // verus!
