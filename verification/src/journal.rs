//! What it takes to carry out a journal on the physical memory.
use vstd::prelude::*;
use crate::arch::PageTableEntry;
use crate::memory::{replay, word_at, MemoryOp};
use crate::structs::{
    aligned, entry_base, entry_index, lemma_entry_base, lemma_entry_index,
    lemma_entry_within, lemma_index, lemma_low_bits, lemma_offset, table_size, va_index, PageLevel,
    PagingType,
};
use crate::tree::{
    confined_below, has_table, in_tree, is_self_entry, linked, points_to_table, table_at, Frames,
    Places,
};

verus! {

/// Whether the way of `va` leads from the root, not by the self map, to the table in `page` at
/// depth `n`.
pub open spec fn on_way<E: PageTableEntry>(
    frames: Frames,
    root: u64,
    levels: nat,
    page: u64,
    n: nat,
    va: int,
) -> bool {
    &&& n == levels || entry_index(levels, 0, va) != 0x1FE
    &&& has_table::<E>(frames, root, levels, 0, va, n)
    &&& table_at::<E>(frames, root, levels, 0, va, n) == page
}

/// Whether the table in `page` is on the way of every address from `base` on, as many as a table at
/// depth `n` covers.
pub open spec fn at_place<E: PageTableEntry>(
    frames: Frames,
    root: u64,
    levels: nat,
    page: u64,
    n: nat,
    base: int,
) -> bool {
    forall|va: int|
        base <= va < base + table_size(n) ==> #[trigger] on_way::<E>(
            frames,
            root,
            levels,
            page,
            n,
            va,
        )
}

/// Whether the table in `page` is at its place whatever it holds.
pub open spec fn stays_at_place<E: PageTableEntry>(
    frames: Frames,
    root: u64,
    levels: nat,
    page: u64,
    n: nat,
    base: int,
) -> bool {
    forall|words: Seq<u64>|
        words.len() == 512 ==> #[trigger] at_place::<E>(
            frames.insert(page, words),
            root,
            levels,
            page,
            n,
            base,
        )
}

/// Whether a change can be carried out: a page that is cleared does not hold a table, and an entry
/// that is written is that of a table that the root leads to, for the address it is written for.
pub open spec fn op_fits<E: PageTableEntry>(
    frames: Frames,
    root: u64,
    paging_type: PagingType,
    op: MemoryOp,
) -> bool {
    match op {
        MemoryOp::ZeroPage { page } => !frames.contains_key(page),
        MemoryOp::WriteEntry { table, index, word, level, va } => {
            let levels = paging_type.levels();
            let v = va as int % paging_type.space();
            &&& level.depth() <= levels
            &&& index == va_index(level.depth(), va as int)
            &&& on_way::<E>(frames, root, levels, table, level.depth(), v)
        },
    }
}

/// Whether every entry is written for an address whose bits above the address space make up
/// `offset`.
pub open spec fn written_above(ops: Seq<MemoryOp>, paging_type: PagingType, offset: int) -> bool {
    forall|k: int|
        0 <= k < ops.len() ==> match #[trigger] ops[k] {
            MemoryOp::ZeroPage { .. } => true,
            MemoryOp::WriteEntry { va, .. } => va - va as int % paging_type.space() == offset,
        }
}

/// Whether every change can be carried out when its turn comes.
pub open spec fn fits<E: PageTableEntry>(
    frames: Frames,
    root: u64,
    paging_type: PagingType,
    ops: Seq<MemoryOp>,
) -> bool {
    forall|k: int|
        0 <= k < ops.len() ==> op_fits::<E>(
            replay(frames, ops.take(k)),
            root,
            paging_type,
            #[trigger] ops[k],
        )
}

/// Two journals can be carried out one after the other.
pub proof fn lemma_replay_append(frames: Frames, first: Seq<MemoryOp>, second: Seq<MemoryOp>)
    ensures
        replay(frames, first + second) == replay(replay(frames, first), second),
    decreases second.len(),
{
    if second.len() == 0 {
        assert(first + second =~= first);
    } else {
        lemma_replay_append(frames, first, second.drop_last());
        assert((first + second).drop_last() =~= first + second.drop_last());
        assert((first + second).last() == second.last());
    }
}

/// A journal can be carried out in two parts.
pub proof fn lemma_fits_append<E: PageTableEntry>(
    frames: Frames,
    root: u64,
    paging_type: PagingType,
    first: Seq<MemoryOp>,
    second: Seq<MemoryOp>,
)
    requires
        fits::<E>(frames, root, paging_type, first),
        fits::<E>(replay(frames, first), root, paging_type, second),
    ensures
        fits::<E>(frames, root, paging_type, first + second),
{
    let ops = first + second;
    assert forall|k: int| 0 <= k < ops.len() implies op_fits::<E>(
        replay(frames, ops.take(k)),
        root,
        paging_type,
        #[trigger] ops[k],
    ) by {
        if k < first.len() {
            assert(ops.take(k) =~= first.take(k));
            assert(ops[k] == first[k]);
        } else {
            let j = k - first.len();
            assert(ops.take(k) =~= first + second.take(j));
            lemma_replay_append(frames, first, second.take(j));
            assert(ops[k] == second[j]);
        }
    }
}

/// Multiples of a number that are less than the number apart are equal.
proof fn lemma_same_multiple(size: int, first: int, second: int)
    requires
        size > 0,
        first % size == 0,
        second % size == 0,
        -size < first - second < size,
    ensures
        first == second,
{
    let a = first / size;
    let b = second / size;
    vstd::arithmetic::div_mod::lemma_fundamental_div_mod(first, size);
    vstd::arithmetic::div_mod::lemma_fundamental_div_mod(second, size);
    assert(a == b) by (nonlinear_arith)
        requires
            -size < size * a - size * b < size,
            size > 0,
    ;
}

/// Two tables at the same depth that cover the same address begin with the same address.
proof fn lemma_same_base(n: nat, first: int, second: int, va: int)
    requires
        1 <= n <= 5,
        aligned(n + 1, first),
        aligned(n + 1, second),
        first <= va < first + table_size(n),
        second <= va < second + table_size(n),
    ensures
        first == second,
{
    lemma_same_multiple(table_size(n), first, second);
}

/// From a table on the way of an address the way leads to the table that its entry points to.
proof fn lemma_way_down<E: PageTableEntry>(
    frames: Frames,
    page: u64,
    n: nat,
    base: int,
    va: int,
    level: nat,
    low: int,
)
    requires
        2 <= level <= n <= 5,
        aligned(n + 1, base),
        base <= va < base + table_size(n),
        aligned(level + 1, low),
        low <= va < low + table_size(level),
        has_table::<E>(frames, page, n, base, va, level),
        points_to_table::<E>(
            word_at(
                frames,
                table_at::<E>(frames, page, n, base, va, level),
                entry_index(level, low, va),
            ),
            level,
        ),
    ensures
        has_table::<E>(frames, page, n, base, va, (level - 1) as nat),
        table_at::<E>(frames, page, n, base, va, (level - 1) as nat) == E::next_address(
            word_at(
                frames,
                table_at::<E>(frames, page, n, base, va, level),
                entry_index(level, low, va),
            ),
        ),
    decreases n,
{
    let i = entry_index(n, base, va);
    lemma_entry_index(n, base, va);
    lemma_entry_within(n, base, i);
    let next = E::next_address(word_at(frames, page, i));
    let next_base = entry_base(n, base, i);
    let m = (n - 1) as nat;
    let k = (level - 1) as nat;
    assert(has_table::<E>(frames, page, n, base, va, k) == (points_to_table::<E>(
        word_at(frames, page, i),
        n,
    ) && has_table::<E>(frames, next, m, next_base, va, k)));
    assert(table_at::<E>(frames, page, n, base, va, k) == table_at::<E>(
        frames,
        next,
        m,
        next_base,
        va,
        k,
    ));
    if n == level {
        lemma_same_base(n, base, low, va);
    } else {
        lemma_way_down::<E>(frames, next, m, next_base, va, level, low);
    }
}

/// The table that an entry points to is at the place that the entry covers.
pub proof fn lemma_place_down<E: PageTableEntry>(
    frames: Frames,
    root: u64,
    levels: nat,
    page: u64,
    n: nat,
    base: int,
    i: int,
)
    requires
        at_place::<E>(frames, root, levels, page, n, base),
        2 <= n <= levels <= 5,
        0 <= i < 512,
        n == levels ==> i != 0x1FE && base == 0,
        aligned(n + 1, base),
        0 <= base,
        base + table_size(n) <= table_size(levels),
        points_to_table::<E>(word_at(frames, page, i), n),
    ensures
        at_place::<E>(
            frames,
            root,
            levels,
            E::next_address(word_at(frames, page, i)),
            (n - 1) as nat,
            entry_base(n, base, i),
        ),
{
    let low = entry_base(n, base, i);
    let m = (n - 1) as nat;
    lemma_entry_within(n, base, i);
    assert forall|va: int| low <= va < low + table_size(m) implies #[trigger] on_way::<E>(
        frames,
        root,
        levels,
        E::next_address(word_at(frames, page, i)),
        m,
        va,
    ) by {
        lemma_entry_base(n, base, i, va);
        assert(on_way::<E>(frames, root, levels, page, n, va));
        lemma_way_down::<E>(frames, root, levels, 0, va, n, base);
    }
}

/// A change below a table does not change the way to the table.
proof fn lemma_way_kept<E: PageTableEntry>(
    before: Frames,
    after: Frames,
    places: Places,
    root: u64,
    start: u64,
    n: nat,
    base: int,
    va: int,
    page: u64,
)
    requires
        in_tree::<E>(before, places, root, start, n, base),
        base <= va < base + table_size(n),
        !is_self_entry(root, start, entry_index(n, base, va)) || n == places[page].level,
        1 <= places[page].level <= n,
        has_table::<E>(before, start, n, base, va, places[page].level),
        confined_below(before, after, places, page),
    ensures
        has_table::<E>(after, start, n, base, va, places[page].level),
        table_at::<E>(after, start, n, base, va, places[page].level) == table_at::<E>(
            before,
            start,
            n,
            base,
            va,
            places[page].level,
        ),
    decreases n,
{
    if n > places[page].level {
        let i = entry_index(n, base, va);
        lemma_entry_index(n, base, va);
        lemma_entry_within(n, base, i);
        assert(after.contains_key(start) && after[start] == before[start]);
        assert(linked::<E>(before, places, root, start, i));
        let next = E::next_address(word_at(before, start, i));
        lemma_way_kept::<E>(
            before,
            after,
            places,
            root,
            next,
            (n - 1) as nat,
            entry_base(n, base, i),
            va,
            page,
        );
    }
}

/// A change below a table keeps the table at its place.
pub proof fn lemma_place_kept<E: PageTableEntry>(
    before: Frames,
    after: Frames,
    places: Places,
    root: u64,
    levels: nat,
    page: u64,
    n: nat,
    base: int,
)
    requires
        in_tree::<E>(before, places, root, root, levels, 0),
        in_tree::<E>(before, places, root, page, n, base),
        at_place::<E>(before, root, levels, page, n, base),
        0 <= base,
        base + table_size(n) <= table_size(levels),
        confined_below(before, after, places, page),
    ensures
        at_place::<E>(after, root, levels, page, n, base),
{
    assert forall|va: int| base <= va < base + table_size(n) implies #[trigger] on_way::<E>(
        after,
        root,
        levels,
        page,
        n,
        va,
    ) by {
        assert(on_way::<E>(before, root, levels, page, n, va));
        lemma_way_kept::<E>(before, after, places, root, root, levels, 0, va, page);
    }
}

/// An entry of a table at its place can be written.
pub proof fn lemma_write_fits<E: PageTableEntry>(
    frames: Frames,
    root: u64,
    paging_type: PagingType,
    table: u64,
    base: int,
    index: u64,
    word: u64,
    level: PageLevel,
    offset: u64,
    va: u64,
)
    requires
        at_place::<E>(frames, root, paging_type.levels(), table, level.depth(), base),
        level.depth() <= paging_type.levels(),
        aligned(level.depth() + 1, base),
        0 <= base,
        base + table_size(level.depth()) <= paging_type.space(),
        index < 512,
        offset as int % paging_type.space() == 0,
        va == offset + entry_base(level.depth(), base, index as int),
    ensures
        op_fits::<E>(
            frames,
            root,
            paging_type,
            MemoryOp::WriteEntry { table, index, word, level, va },
        ),
{
    let n = level.depth();
    let low = entry_base(n, base, index as int);
    lemma_entry_within(n, base, index as int);
    lemma_entry_base(n, base, index as int, low);
    lemma_offset(paging_type, offset as int, low);
    lemma_index(n, base, low);
    lemma_low_bits(paging_type, n, va, 0);
    assert(on_way::<E>(frames, root, paging_type.levels(), table, n, low));
}

/// Entries that are written in two parts, for addresses of the same form.
pub proof fn lemma_written_append(
    first: Seq<MemoryOp>,
    second: Seq<MemoryOp>,
    paging_type: PagingType,
    offset: int,
)
    requires
        written_above(first, paging_type, offset),
        written_above(second, paging_type, offset),
    ensures
        written_above(first + second, paging_type, offset),
{
    let both = first + second;
    assert forall|k: int| 0 <= k < both.len() implies match #[trigger] both[k] {
        MemoryOp::ZeroPage { .. } => true,
        MemoryOp::WriteEntry { va, .. } => va - va as int % paging_type.space() == offset,
    } by {
        if k < first.len() {
            assert(both[k] == first[k]);
        } else {
            assert(both[k] == second[k - first.len()]);
        }
    }
}

} // verus!
