//! Bringing the tables of an existing page table into an image.
use vstd::prelude::*;
use crate::arch::{PageTableEntry, PageTableHal};
use crate::memory::{word_at, PageMemory};
use crate::structs::{
    entry_base, entry_index, lemma_entry_index, lemma_entry_within, table_size, PageLevel,
    PagingType,
};
use crate::tree::{extent, points_to_table, walk, Frames};

verus! {

/// Whether `page` is, or leads to, the table in `q`. The table in `page` is at depth `n`.
pub open spec fn leads_to<E: PageTableEntry>(frames: Frames, page: u64, n: nat, q: u64) -> bool
    decreases n,
{
    ||| q == page
    ||| n > 1 && exists|i: int|
        0 <= i < 512 && points_to_table::<E>(#[trigger] word_at(frames, page, i), n) && leads_to::<
            E,
        >(frames, E::next_address(word_at(frames, page, i)), (n - 1) as nat, q)
}

/// Whether every table that `page` leads to is held.
pub open spec fn complete<E: PageTableEntry>(frames: Frames, page: u64, n: nat) -> bool {
    forall|q: u64| #[trigger] leads_to::<E>(frames, page, n, q) ==> frames.contains_key(q)
}

/// A table that the table in `page` leads to and that is not held, if there is one.
fn find_missing<E: PageTableEntry>(memory: &PageMemory, page: u64, level: PageLevel) -> (r: Option<
    u64,
>)
    requires
        memory.wf(),
    ensures
        match r {
            Some(q) => !memory@.contains_key(q) && leads_to::<E>(memory@, page, level.depth(), q),
            None => complete::<E>(memory@, page, level.depth()),
        },
    decreases level.depth(),
{
    let ghost frames = memory@;
    let ghost n = level.depth();
    if !memory.contains(page) {
        return Some(page);
    }
    let below: PageLevel = match level.next_level() {
        Some(below) => below,
        None => {
            return None;
        },
    };
    let mut index: u64 = 0;
    while index < 512
        invariant
            memory.wf(),
            frames == memory@,
            frames.contains_key(page),
            n == level.depth(),
            n > 1,
            below.depth() == n - 1,
            index <= 512,
            forall|i: int|
                0 <= i < index && points_to_table::<E>(#[trigger] word_at(frames, page, i), n)
                    ==> complete::<E>(
                    frames,
                    E::next_address(word_at(frames, page, i)),
                    (n - 1) as nat,
                ),
        decreases 512 - index,
    {
        let entry = E::from_word(memory.read(page, index));
        if entry.get_present_bit() && !entry.points_to_pa(level) {
            let next: u64 = entry.get_next_address().value;
            if let Some(q) = find_missing::<E>(memory, next, below) {
                assert(points_to_table::<E>(word_at(frames, page, index as int), n));
                return Some(q);
            }
        }
        index = index + 1;
    }
    assert forall|q: u64| #[trigger] leads_to::<E>(frames, page, n, q) implies frames.contains_key(
        q,
    ) by {
        if q != page {
            let i = choose|i: int|
                0 <= i < 512 && points_to_table::<E>(#[trigger] word_at(frames, page, i), n)
                    && leads_to::<E>(
                    frames,
                    E::next_address(word_at(frames, page, i)),
                    (n - 1) as nat,
                    q,
                );
            assert(complete::<E>(
                frames,
                E::next_address(word_at(frames, page, i)),
                (n - 1) as nat,
            ));
        }
    }
    None
}

/// A table of the page table at `base` that `memory` does not hold, if there is one.
pub fn missing_table<A: PageTableHal>(
    arch: &A,
    memory: &PageMemory,
    base: u64,
    paging_type: PagingType,
) -> (r: Option<u64>)
    requires
        memory.wf(),
    ensures
        match r {
            Some(q) => !memory@.contains_key(q) && leads_to::<A::PTE>(
                memory@,
                base,
                paging_type.levels(),
                q,
            ),
            None => complete::<A::PTE>(memory@, base, paging_type.levels()),
        },
{
    find_missing::<A::PTE>(memory, base, PageLevel::root_level(paging_type))
}

/// An image that holds every table translates every address as the memory that it was made of.
pub proof fn law_complete_image<E: PageTableEntry>(
    image: Frames,
    memory: Frames,
    page: u64,
    n: nat,
    base: int,
    va: int,
)
    requires
        1 <= n <= 5,
        base <= va < base + table_size(n),
        complete::<E>(image, page, n),
        forall|p: u64| #[trigger]
            image.contains_key(p) ==> memory.contains_key(p) && memory[p] == image[p],
    ensures
        walk::<E>(image, page, n, base, va) == walk::<E>(memory, page, n, base, va),
        extent::<E>(image, page, n, base, va) == extent::<E>(memory, page, n, base, va),
    decreases n,
{
    let i = entry_index(n, base, va);
    let word = word_at(image, page, i);
    lemma_entry_index(n, base, va);
    assert(leads_to::<E>(image, page, n, page));
    E::lemma_word(word);
    if n > 1 && points_to_table::<E>(word, n) {
        let next = E::next_address(word);
        lemma_entry_within(n, base, i);
        assert forall|q: u64| #[trigger]
            leads_to::<E>(image, next, (n - 1) as nat, q) implies image.contains_key(q) by {
            assert(leads_to::<E>(image, page, n, q));
        }
        law_complete_image::<E>(image, memory, next, (n - 1) as nat, entry_base(n, base, i), va);
    }
}

} // verus!
