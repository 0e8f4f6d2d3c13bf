//! What holds of the journal of changes.
use vstd::prelude::*;
use crate::arch::{PageTableEntry, PageTableHal};
use crate::error::PtError;
use crate::journal::{op_fits, written_above};
use crate::laws::bits::{address_count, law_index_bits, lemma_reach, level_count, reach};
use crate::laws::entries::{law_links, number_of, word_for};
use crate::laws::requests::{are_fit, law_new_with_fit_pages};
use crate::memory::{replay, word_at, MemoryOp};
use crate::page_allocator::{PageAllocator, Request};
use crate::paging::{job_for, PageTableInternal};
use crate::structs::{
    aligned, entry_base, entry_index, lemma_entry_index, lemma_entry_within, table_size, PagingType,
    VirtualAddress,
};
use crate::tree::{has_table, table_at, Edit, Frames};

verus! {

/// The table at depth `k` on the way of `va`, if the way leads there. The table in `page` is at
/// depth `n`.
pub open spec fn table_for<E: PageTableEntry>(
    frames: Frames,
    page: u64,
    n: nat,
    va: int,
    k: nat,
) -> Option<u64>
    decreases n,
{
    let word = word_at(frames, page, (va / reach(n)) % 512);
    if n == k {
        Some(page)
    } else if n < k || n == 0 || !E::present(word) || E::leaf(word, n) {
        None
    } else {
        table_for::<E>(frames, E::next_address(word), (n - 1) as nat, va, k)
    }
}

/// Whether a change can be carried out on memory with a root at `root`. A page that is cleared is
/// not one that is held. An entry that is written is the one that the address is translated by at
/// that level, in the table that its way leads to.
pub open spec fn has_its_place<E: PageTableEntry>(
    frames: Frames,
    root: u64,
    paging_type: PagingType,
    op: MemoryOp,
) -> bool {
    match op {
        MemoryOp::ZeroPage { page } => !frames.contains_key(page),
        MemoryOp::WriteEntry { table, index, level, va, .. } => {
            &&& index == (va as int / reach(number_of(level))) % 512
            &&& table_for::<E>(
                frames,
                root,
                level_count(paging_type),
                va as int % address_count(paging_type),
                number_of(level),
            ) == Some(table)
        },
    }
}

/// A table on the way of an address is found by its indices.
proof fn lemma_table_for<E: PageTableEntry>(
    frames: Frames,
    page: u64,
    n: nat,
    base: int,
    va: int,
    k: nat,
)
    requires
        1 <= k <= n <= 5,
        0 <= base,
        aligned(n + 1, base),
        base <= va < base + table_size(n),
        has_table::<E>(frames, page, n, base, va, k),
    ensures
        table_for::<E>(frames, page, n, va, k) == Some(
            table_at::<E>(frames, page, n, base, va, k),
        ),
    decreases n,
{
    if n > k {
        let i = entry_index(n, base, va);
        lemma_reach(n, base, va);
        lemma_entry_index(n, base, va);
        lemma_entry_within(n, base, i);
        lemma_table_for::<E>(
            frames,
            E::next_address(word_at(frames, page, i)),
            (n - 1) as nat,
            entry_base(n, base, i),
            va,
            k,
        );
    }
}

/// A change that fits has its place.
proof fn lemma_op_fits<E: PageTableEntry>(
    frames: Frames,
    root: u64,
    paging_type: PagingType,
    op: MemoryOp,
)
    requires
        op_fits::<E>(frames, root, paging_type, op),
    ensures
        has_its_place::<E>(frames, root, paging_type, op),
{
    if let MemoryOp::WriteEntry { table, index, word, level, va } = op {
        let space = paging_type.space();
        assert(space == address_count(paging_type));
        vstd::arithmetic::div_mod::lemma_mod_bound(va as int, space);
        law_index_bits(level.depth(), va as int);
        lemma_table_for::<E>(
            frames,
            root,
            paging_type.levels(),
            0,
            va as int % space,
            level.depth(),
        );
    }
}

/// What the journal gains comes after what it held.
proof fn lemma_journal_goes_on<P: PageAllocator>(
    before: PageTableInternal<P>,
    after: PageTableInternal<P>,
)
    requires
        after.has_logged(&before),
    ensures
        after.spec_memory().journal() == before.spec_memory().journal() + after.steps_since(
            &before,
        ),
{
    let known = before.spec_memory().journal();
    let journal = after.spec_memory().journal();
    assert forall|i: int| 0 <= i < known.len() implies journal[i] == known[i] by {
        assert(journal.take(known.len() as int)[i] == known[i]);
    }
    assert(journal =~= known + after.steps_since(&before));
}

/// What an edit notes in the journal comes after what it held, and can be carried out in order.
/// When the turn of a change comes, its entry is one of a table that the root leads to by then, and
/// a page that is cleared holds no table.
pub proof fn law_journal_in_order<P: PageAllocator, A: PageTableHal>(
    before: PageTableInternal<P>,
    after: PageTableInternal<P>,
    address: u64,
    size: u64,
    edit: Edit,
    r: Result<(), PtError>,
    k: int,
)
    requires
        before.has_tree::<A>(),
        after.spec_sound(),
        after.edit_outcome::<A>(
            &before,
            job_for(before.spec_paging_type(), address, size, edit),
            r,
        ),
        0 <= k < after.steps_since(&before).len(),
    ensures
        has_its_place::<A::PTE>(
            replay(before.frames(), after.steps_since(&before).take(k)),
            before.root(),
            before.spec_paging_type(),
            after.steps_since(&before)[k],
        ),
        after.spec_memory().journal() == before.spec_memory().journal() + after.steps_since(
            &before,
        ),
{
    assert(after.can_follow::<A>(&before));
    assert(after.same_setup(&before));
    lemma_journal_goes_on(before, after);
    lemma_op_fits::<A::PTE>(
        replay(before.frames(), after.steps_since(&before).take(k)),
        before.root(),
        before.spec_paging_type(),
        after.steps_since(&before)[k],
    );
}

/// Entries are written for addresses that have the bits of the range above the address space.
pub proof fn law_journal_above<P: PageAllocator, A: PageTableHal>(
    before: PageTableInternal<P>,
    after: PageTableInternal<P>,
    address: u64,
    size: u64,
    edit: Edit,
    r: Result<(), PtError>,
    k: int,
)
    requires
        after.edit_outcome::<A>(
            &before,
            job_for(before.spec_paging_type(), address, size, edit),
            r,
        ),
        0 <= k < after.steps_since(&before).len(),
    ensures
        match after.steps_since(&before)[k] {
            MemoryOp::ZeroPage { .. } => true,
            MemoryOp::WriteEntry { va, .. } => va as int / address_count(before.spec_paging_type())
                == address as int / address_count(before.spec_paging_type()),
        },
{
    let paging_type = before.spec_paging_type();
    let space = address_count(paging_type);
    assert(after.same_setup(&before));
    assert(after.has_written_above(
        &before,
        job_for(paging_type, address, size, edit).offset as int,
    ));
    lemma_above(after.steps_since(&before), paging_type, address, k);
}

/// Addresses that differ in their low bits alone have the same bits above the address space.
proof fn lemma_above(ops: Seq<MemoryOp>, paging_type: PagingType, address: u64, k: int)
    requires
        written_above(
            ops,
            paging_type,
            ((address - address as int % paging_type.space()) as u64) as int,
        ),
        0 <= k < ops.len(),
    ensures
        match ops[k] {
            MemoryOp::ZeroPage { .. } => true,
            MemoryOp::WriteEntry { va, .. } => va as int / address_count(paging_type)
                == address as int / address_count(paging_type),
        },
{
    let space = paging_type.space();
    assert(space == address_count(paging_type) && space > 0);
    vstd::arithmetic::div_mod::lemma_mod_bound(address as int, space);
    vstd::arithmetic::div_mod::lemma_mod_decreases(address as nat, space as nat);
    match ops[k] {
        MemoryOp::ZeroPage { .. } => {},
        MemoryOp::WriteEntry { va, .. } => {
            vstd::arithmetic::div_mod::lemma_fundamental_div_mod(va as int, space);
            vstd::arithmetic::div_mod::lemma_fundamental_div_mod(address as int, space);
            let p = va as int / space;
            let q = address as int / space;
            assert(p == q) by (nonlinear_arith)
                requires
                    space > 0,
                    space * p == space * q,
            ;
        },
    }
}

/// The journal of a new page table makes it out of memory that holds nothing, in order.
pub proof fn law_new_journal<P: PageAllocator, A: PageTableHal>(
    page_allocator: P,
    paging_type: PagingType,
    requests: Seq<Request<P>>,
    table: PageTableInternal<P>,
    k: int,
)
    requires
        PageTableInternal::new_outcome::<A>(page_allocator, paging_type, requests, Ok(table)),
        table.spec_sound(),
        0 <= k < table.spec_memory().journal().len(),
    ensures
        has_its_place::<A::PTE>(
            replay(Map::empty(), table.spec_memory().journal().take(k)),
            table.root(),
            paging_type,
            table.spec_memory().journal()[k],
        ),
        table.spec_memory().origin() == Map::<u64, Seq<u64>>::empty(),
        A::spec_zero_va(paging_type) is Ok ==> match table.spec_memory().journal()[k] {
            MemoryOp::ZeroPage { .. } => true,
            MemoryOp::WriteEntry { va, .. } => va as int / address_count(paging_type)
                == A::spec_zero_va(paging_type)->Ok_0.value as int / address_count(paging_type),
        },
{
    let journal = table.spec_memory().journal();
    assert(table.is_new::<A>());
    lemma_op_fits::<A::PTE>(
        replay(Map::empty(), journal.take(k)),
        table.root(),
        paging_type,
        journal[k],
    );
    if let Ok(zero_va) = A::spec_zero_va(paging_type) {
        let space = paging_type.space();
        vstd::arithmetic::div_mod::lemma_mod_bound(zero_va.value as int, space);
        vstd::arithmetic::div_mod::lemma_mod_decreases(zero_va.value as nat, space as nat);
        lemma_above(journal, paging_type, zero_va.value, k);
    }
}

/// A change to an entry is read back from that entry, and from no other. A page that was cleared
/// reads as zero throughout.
pub proof fn law_change_is_read_back(
    frames: Map<u64, Seq<u64>>,
    op: MemoryOp,
    page: u64,
    i: int,
)
    requires
        crate::memory::whole_pages(frames),
        0 <= i < 512,
        op matches MemoryOp::WriteEntry { index, .. } ==> index < 512,
    ensures
        word_at(op.apply(frames), page, i) == match op {
            MemoryOp::ZeroPage { page: cleared } => if page == cleared {
                0
            } else {
                word_at(frames, page, i)
            },
            MemoryOp::WriteEntry { table, index, word, .. } => if page == table && i == index {
                word
            } else {
                word_at(frames, page, i)
            },
        },
{
}

/// What is held of a page is read word by word, and what is not held reads as zero. Whole changes
/// are made one after the other.
pub proof fn law_memory_is_read(
    frames: Map<u64, Seq<u64>>,
    ops: Seq<MemoryOp>,
    op: MemoryOp,
    page: u64,
    i: int,
)
    requires
        0 <= i < 512,
    ensures
        word_at(frames, page, i) == if frames.contains_key(page) {
            frames[page][i]
        } else {
            0
        },
        replay(frames, Seq::empty()) == frames,
        replay(frames, ops.push(op)) == op.apply(replay(frames, ops)),
{
    assert(ops.push(op).drop_last() =~= ops);
}

/// The way of an address leads to a table of the lowest level exactly if the entry above points to
/// one.
proof fn lemma_lowest_table<E: PageTableEntry>(frames: Frames, page: u64, n: nat, va: int)
    requires
        2 <= n,
    ensures
        table_for::<E>(frames, page, n, va, 1) is Some <==> {
            let word = word_for::<E>(frames, page, n, va, 2);
            word is Some && !E::leaf(word->0, 2)
        },
    decreases n,
{
    let word = word_at(frames, page, (va / reach(n)) % 512);
    let next = E::next_address(word);
    if n == 2 {
        assert(table_for::<E>(frames, next, 1, va, 1) is Some);
    } else {
        lemma_lowest_table::<E>(frames, next, (n - 1) as nat, va);
    }
}

/// A new page table holds the tables for the address through which pages are cleared, down to the
/// lowest level.
pub proof fn law_window_is_ready<P: PageAllocator, A: PageTableHal>(
    page_allocator: P,
    paging_type: PagingType,
    requests: Seq<Request<P>>,
    table: PageTableInternal<P>,
    zero_va: VirtualAddress,
)
    requires
        PageTableInternal::new_outcome::<A>(page_allocator, paging_type, requests, Ok(table)),
        are_fit(Map::empty(), requests, A::PTE::address_limit()),
        A::spec_zero_va(paging_type) == Ok::<VirtualAddress, PtError>(zero_va),
    ensures
        table_for::<A::PTE>(
            table.frames(),
            table.root(),
            level_count(paging_type),
            zero_va.value as int % address_count(paging_type),
            1,
        ) is Some,
{
    let va = zero_va.value as int % paging_type.space();
    law_new_with_fit_pages::<P, A>(page_allocator, paging_type, requests, table);
    assert(table.is_new::<A>());
    vstd::arithmetic::div_mod::lemma_mod_bound(zero_va.value as int, paging_type.space());
    lemma_table_for::<A::PTE>(table.frames(), table.root(), paging_type.levels(), 0, va, 1);
}

/// Where there are tables down to the lowest level for an address outside the self map, there still
/// are after every edit.
pub proof fn law_tables_stay<P: PageAllocator, A: PageTableHal>(
    before: PageTableInternal<P>,
    after: PageTableInternal<P>,
    address: u64,
    size: u64,
    edit: Edit,
    r: Result<(), PtError>,
    va: int,
)
    requires
        before.has_tree::<A>(),
        after.spec_sound(),
        after.edit_outcome::<A>(
            &before,
            job_for(before.spec_paging_type(), address, size, edit),
            r,
        ),
        0 <= va < address_count(before.spec_paging_type()),
        va / reach(level_count(before.spec_paging_type())) != 510,
        table_for::<A::PTE>(
            before.frames(),
            before.root(),
            level_count(before.spec_paging_type()),
            va,
            1,
        ) is Some,
    ensures
        table_for::<A::PTE>(
            after.frames(),
            after.root(),
            level_count(before.spec_paging_type()),
            va,
            1,
        ) is Some,
{
    let n = level_count(before.spec_paging_type());
    lemma_lowest_table::<A::PTE>(before.frames(), before.root(), n, va);
    lemma_lowest_table::<A::PTE>(after.frames(), after.root(), n, va);
    law_links::<P, A>(before, after, address, size, edit, r, va, 2);
}

} // verus!
