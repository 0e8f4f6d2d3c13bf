//! What holds of entries: where walks end, how large they are after an edit, and how they are
//! listed.
use vstd::prelude::*;
use crate::arch::{canonical_va, is_self_mapped_base, PageTableEntry, PageTableHal};
use crate::attributes::MemoryAttributes;
use crate::error::PtError;
use crate::laws::bits::{address_count, law_index_bits, lemma_reach, level_count, reach};
use crate::laws::edits::{
    edited, in_range, lemma_accepted, lemma_job, lemma_outside_self_map, lemma_resized,
};
use crate::laws::pages::law_largest_pages;
use crate::laws::requests::{are_fit, law_new_with_fit_pages};
use crate::links::{continued, link_attributes};
use crate::memory::word_at;
use crate::page_allocator::{PageAllocator, Request};
use crate::paging::clear::{clears_through_window, window_steps, ClearStep};
use crate::paging::load::leads_to;
use crate::paging::read::{dump_of, level_at, DumpEntry};
use crate::paging::{job_for, PageTableInternal};
use crate::structs::{
    aligned, entry_base, entry_index, entry_size, lemma_entry_base, lemma_entry_index,
    lemma_entry_within, table_size, va_index, PageLevel, PagingType,
};
use crate::tree::{extent, points_to_table, round_down, Edit, EditJob, Frames};

verus! {

/// The number of a level, from 1 for the lowest.
pub open spec fn number_of(level: PageLevel) -> nat {
    match level {
        PageLevel::Level1 => 1,
        PageLevel::Level2 => 2,
        PageLevel::Level3 => 3,
        PageLevel::Level4 => 4,
        PageLevel::Level5 => 5,
    }
}

/// The first address of what an entry at depth `k` stands for, where it stands for `va` too.
#[verifier::opaque]
pub open spec fn block_of(k: nat, va: int) -> int {
    va - va % reach(k)
}

/// The depth of the last entry on the way of `va`: one that is not in use, or that maps memory.
pub open spec fn last_depth<E: PageTableEntry>(frames: Frames, page: u64, k: nat, va: int) -> nat
    decreases k,
{
    let word = word_at(frames, page, (va / reach(k)) % 512);
    if k <= 1 || !E::present(word) || E::leaf(word, k) {
        k
    } else {
        last_depth::<E>(frames, E::next_address(word), (k - 1) as nat, va)
    }
}

/// The entry that covers an address begins where the address, rounded down, is.
proof fn lemma_block(n: nat, base: int, va: int)
    requires
        1 <= n <= 5,
        0 <= base,
        aligned(n + 1, base),
        base <= va < base + table_size(n),
    ensures
        block_of(n, va) == entry_base(n, base, entry_index(n, base, va)),
        reach(n) == entry_size(n),
        block_of(n, va) <= va < block_of(n, va) + reach(n),
{
    let i = entry_index(n, base, va);
    let low = entry_base(n, base, i);
    let size = reach(n);
    reveal(block_of);
    lemma_reach(n, base, va);
    lemma_entry_index(n, base, va);
    lemma_entry_within(n, base, i);
    assert(low % size == 0);
    vstd::arithmetic::div_mod::lemma_fundamental_div_mod(low, size);
    vstd::arithmetic::div_mod::lemma_mod_multiples_vanish(low / size, va - low, size);
    vstd::arithmetic::div_mod::lemma_small_mod((va - low) as nat, size as nat);
}

/// The extent of an address is that of the last entry on its way.
proof fn lemma_extent<E: PageTableEntry>(frames: Frames, page: u64, n: nat, base: int, va: int)
    requires
        1 <= n <= 5,
        0 <= base,
        aligned(n + 1, base),
        base <= va < base + table_size(n),
    ensures
        ({
            let x = extent::<E>(frames, page, n, base, va);
            &&& x.level == last_depth::<E>(frames, page, n, va)
            &&& x.low == block_of(x.level, va)
            &&& 1 <= x.level <= n
            &&& reach(x.level) == entry_size(x.level)
            &&& x.low <= va < x.low + reach(x.level)
        }),
    decreases n,
{
    let i = entry_index(n, base, va);
    let word = word_at(frames, page, i);
    lemma_reach(n, base, va);
    lemma_block(n, base, va);
    lemma_entry_within(n, base, i);
    E::lemma_word(word);
    if n > 1 && points_to_table::<E>(word, n) {
        lemma_entry_index(n, base, va);
        lemma_extent::<E>(
            frames,
            E::next_address(word),
            (n - 1) as nat,
            entry_base(n, base, i),
            va,
        );
    }
}

/// The extent of an address is what the last entry on its way stands for.
pub proof fn law_extent<P: PageAllocator, A: PageTableHal>(table: PageTableInternal<P>, va: int)
    requires
        0 <= va < address_count(table.spec_paging_type()),
    ensures
        ({
            let x = table.extent_at::<A>(va);
            &&& x.level == last_depth::<A::PTE>(
                table.frames(),
                table.root(),
                level_count(table.spec_paging_type()),
                va,
            )
            &&& x.low == block_of(x.level, va)
            &&& 1 <= x.level <= level_count(table.spec_paging_type())
        }),
{
    lemma_extent::<A::PTE>(
        table.frames(),
        table.root(),
        table.spec_paging_type().levels(),
        0,
        va,
    );
}

/// What becomes of the extent of an address in a new table.
proof fn lemma_new_extent(job: EditJob, n: nat, base: int, va: int)
    requires
        1 <= n <= 5,
        0 <= base,
        aligned(n + 1, base),
        base <= va < base + table_size(n),
        job.start % 0x1000 == 0,
        job.end % 0x1000 == 0,
    ensures
        ({
            let y = job.new_extent(n, base, va);
            &&& y.low == block_of(y.level, va)
            &&& 1 <= y.level <= n
            &&& base <= y.low
            &&& y.low + reach(y.level) <= base + table_size(n)
            &&& !(job.start < y.low + reach(y.level) && y.low < job.end) || (job.start <= y.low
                && y.low + reach(y.level) <= job.end && y.level <= 3)
            &&& y.level < n ==> {
                let above = block_of(y.level + 1, va);
                &&& job.start < above + reach(y.level + 1)
                &&& above < job.end
                &&& y.level + 1 <= 3 ==> !(job.start <= above && above + reach(y.level + 1)
                    <= job.end)
            }
        }),
    decreases n,
{
    let i = entry_index(n, base, va);
    let low = entry_base(n, base, i);
    lemma_block(n, base, va);
    lemma_entry_index(n, base, va);
    lemma_entry_within(n, base, i);
    if n == 1 {
        assert(low % 0x1000 == 0);
    } else if job.touches(low, low + entry_size(n)) && !(n <= 3 && job.spans(
        low,
        low + entry_size(n),
    )) {
        lemma_new_extent(job, (n - 1) as nat, low, va);
    }
}

/// What becomes of the extent of an address.
proof fn lemma_extent_after<E: PageTableEntry>(
    frames: Frames,
    page: u64,
    n: nat,
    base: int,
    va: int,
    job: EditJob,
)
    requires
        1 <= n <= 5,
        0 <= base,
        aligned(n + 1, base),
        base <= va < base + table_size(n),
        job.start % 0x1000 == 0,
        job.end % 0x1000 == 0,
    ensures
        ({
            let x = extent::<E>(frames, page, n, base, va);
            let y = job.extent_after::<E>(frames, page, n, base, va);
            let touched = job.start < x.low + reach(x.level) && x.low < job.end;
            let covered = job.start <= x.low && x.low + reach(x.level) <= job.end;
            &&& y.low == block_of(y.level, va)
            &&& 1 <= y.level <= x.level <= n
            &&& x.low <= y.low
            &&& y.low + reach(y.level) <= x.low + reach(x.level)
            &&& !touched || (covered && x.level <= 3) ==> y == x
            &&& y.level < x.level ==> {
                let above = block_of(y.level + 1, va);
                &&& job.start < above + reach(y.level + 1)
                &&& above < job.end
                &&& y.level + 1 <= 3 ==> !(job.start <= above && above + reach(y.level + 1)
                    <= job.end)
                &&& !(job.start < y.low + reach(y.level) && y.low < job.end) || (job.start <= y.low
                    && y.low + reach(y.level) <= job.end && y.level <= 3)
            }
        }),
    decreases n,
{
    let i = entry_index(n, base, va);
    let word = word_at(frames, page, i);
    let low = entry_base(n, base, i);
    lemma_extent::<E>(frames, page, n, base, va);
    lemma_block(n, base, va);
    lemma_entry_index(n, base, va);
    lemma_entry_within(n, base, i);
    E::lemma_word(word);
    if n > 1 && points_to_table::<E>(word, n) {
        let next = E::next_address(word);
        lemma_extent::<E>(frames, next, (n - 1) as nat, low, va);
        if job.touches(low, low + entry_size(n)) {
            lemma_extent_after::<E>(frames, next, (n - 1) as nat, low, va, job);
        }
    } else if n > 1 {
        lemma_new_extent(job, (n - 1) as nat, low, va);
    }
}

/// An edit changes the size of an entry only to keep what it changes apart from what it does not.
/// An entry stays as large as it is if the range holds nothing of it, or all of it and it
/// can map memory. It is never made larger. Where it is made smaller, the range holds all of the
/// new entry or nothing of it, and this is so of no larger one.
pub proof fn law_entries_split<P: PageAllocator, A: PageTableHal>(
    before: PageTableInternal<P>,
    after: PageTableInternal<P>,
    address: u64,
    size: u64,
    edit: Edit,
    va: int,
)
    requires
        edited::<P, A>(before, after, address, size, edit),
        0 <= va < address_count(before.spec_paging_type()),
        va / reach(level_count(before.spec_paging_type())) != 510,
    ensures
        ({
            let start = address as int % address_count(before.spec_paging_type());
            let end = start + size;
            let x = before.extent_at::<A>(va);
            let y = after.extent_at::<A>(va);
            let touched = start < x.low + reach(x.level) && x.low < end;
            let covered = start <= x.low && x.low + reach(x.level) <= end;
            &&& y.low == block_of(y.level, va)
            &&& 1 <= y.level <= x.level
            &&& x.low <= y.low
            &&& y.low + reach(y.level) <= x.low + reach(x.level)
            &&& !touched || (covered && x.level <= 3) ==> y == x
            &&& y.level < x.level ==> {
                let above = block_of(y.level + 1, va);
                &&& start < above + reach(y.level + 1)
                &&& above < end
                &&& y.level + 1 <= 3 ==> !(start <= above && above + reach(y.level + 1) <= end)
                &&& !(start < y.low + reach(y.level) && y.low < end) || (start <= y.low && y.low
                    + reach(y.level) <= end && y.level <= 3)
            }
        }),
{
    let paging_type = before.spec_paging_type();
    let job = job_for(paging_type, address, size, edit);
    reveal_with_fuel(reach, 6);
    lemma_accepted::<P, A>(before, after, address, size, edit);
    lemma_job::<A>(paging_type, address, size, edit);
    lemma_resized::<P, A>(before, after, address, size, edit, va);
    lemma_extent_after::<A::PTE>(before.frames(), before.root(), paging_type.levels(), 0, va, job);
}

/// Memory that was not mapped is mapped by the largest pages that fit. If the 1 GB or 2 MB around
/// an address are all in the range, and there was no table yet further down, the address is mapped
/// by a page of that size at least; and by none that the range does not hold.
pub proof fn law_page_sizes<P: PageAllocator, A: PageTableHal>(
    before: PageTableInternal<P>,
    after: PageTableInternal<P>,
    address: u64,
    size: u64,
    attributes: MemoryAttributes,
    va: int,
    k: nat,
)
    requires
        edited::<P, A>(before, after, address, size, Edit::Mapping { attributes }),
        in_range(before.spec_paging_type(), address, size, va),
        before.walk_at::<A>(va).leaf is None,
        1 <= k <= 3,
    ensures
        ({
            let start = address as int % address_count(before.spec_paging_type());
            let end = start + size;
            let y = after.extent_at::<A>(va);
            &&& 1 <= y.level <= 3
            &&& start <= y.low && y.low + reach(y.level) <= end
            &&& start <= block_of(k, va) && block_of(k, va) + reach(k) <= end
                && before.extent_at::<A>(va).level >= k ==> y.level >= k
        }),
{
    let paging_type = before.spec_paging_type();
    let edit = Edit::Mapping { attributes };
    let job = job_for(paging_type, address, size, edit);
    reveal_with_fuel(reach, 6);
    lemma_accepted::<P, A>(before, after, address, size, edit);
    lemma_job::<A>(paging_type, address, size, edit);
    lemma_outside_self_map::<A>(paging_type, address, size, va);
    law_largest_pages::<P, A>(before, after, address, size, attributes, va);
    let y = after.extent_at::<A>(va);
    let limit = before.extent_at::<A>(va).level;
    if y.level < k && k <= limit {
        assert(!job.spans(round_down(k, va), round_down(k, va) + entry_size(k)));
        reveal(block_of);
        assert(round_down(k, va) == block_of(k, va));
    }
}

/// The full form of the low bits of an address: with `sign_extends`, the upper half of the address
/// space is at the very end of all addresses.
pub open spec fn full_address(low: int, paging_type: PagingType, sign_extends: bool) -> int {
    if sign_extends && low >= address_count(paging_type) / 2 {
        0x1_0000_0000_0000_0000 - (address_count(paging_type) - low)
    } else {
        low
    }
}

/// Addresses are reported in full form, which keeps their order and their low bits.
pub proof fn law_full_address(
    low: int,
    other: int,
    paging_type: PagingType,
    sign_extends: bool,
)
    requires
        0 <= low < address_count(paging_type),
        0 <= other < address_count(paging_type),
    ensures
        canonical_va(low, paging_type, sign_extends) == full_address(
            low,
            paging_type,
            sign_extends,
        ),
        0 <= full_address(low, paging_type, sign_extends) < 0x1_0000_0000_0000_0000,
        full_address(low, paging_type, sign_extends) % address_count(paging_type) == low,
        low < other <==> full_address(low, paging_type, sign_extends) < full_address(
            other,
            paging_type,
            sign_extends,
        ),
{
}

/// The word of the entry at depth `k` on the way of `va`, if the way leads there and the entry is
/// in use. The table in `page` is at depth `n`.
pub open spec fn word_for<E: PageTableEntry>(
    frames: Frames,
    page: u64,
    n: nat,
    va: int,
    k: nat,
) -> Option<u64>
    decreases n,
{
    let word = word_at(frames, page, (va / reach(n)) % 512);
    if n < k || n == 0 || !E::present(word) {
        None
    } else if n == k {
        Some(word)
    } else if E::leaf(word, n) {
        None
    } else {
        word_for::<E>(frames, E::next_address(word), (n - 1) as nat, va, k)
    }
}

/// Whether an item of a dump is about the entry at depth `k` for `va`, which holds `word`.
pub open spec fn is_about(
    item: DumpEntry,
    va: int,
    k: nat,
    word: u64,
    paging_type: PagingType,
    sign_extends: bool,
) -> bool {
    &&& item.va == full_address(block_of(k, va), paging_type, sign_extends)
    &&& number_of(item.level) == k
    &&& item.word == word
}

/// Whether one item comes before another in a dump: by addresses, and from the root down.
pub open spec fn comes_before(first: DumpEntry, second: DumpEntry) -> bool {
    first.va < second.va || (first.va == second.va && number_of(first.level) > number_of(
        second.level,
    ))
}

/// Whether an item lies in what is listed of a table.
spec fn lies_in(
    item: DumpEntry,
    n: nat,
    low: int,
    high: int,
    paging_type: PagingType,
    sign_extends: bool,
) -> bool {
    &&& full_address(low, paging_type, sign_extends) <= item.va <= full_address(
        high - 1,
        paging_type,
        sign_extends,
    )
    &&& 1 <= number_of(item.level) <= n
}

/// Whether an item is about an entry for an address from `low` up to `high` and in the range.
#[verifier::opaque]
spec fn is_justified<E: PageTableEntry>(
    item: DumpEntry,
    frames: Frames,
    page: u64,
    n: nat,
    low: int,
    high: int,
    start: int,
    end: int,
    paging_type: PagingType,
    sign_extends: bool,
) -> bool {
    exists|va: int, k: nat|
        {
            &&& low <= va < high
            &&& start <= va < end
            &&& 1 <= k <= n
            &&& (#[trigger] word_for::<E>(frames, page, n, va, k)) is Some
            &&& is_about(
                item,
                va,
                k,
                word_for::<E>(frames, page, n, va, k)->0,
                paging_type,
                sign_extends,
            )
        }
}

/// What is about an entry for an address in a part is so in the whole.
proof fn lemma_justified<E: PageTableEntry>(
    item: DumpEntry,
    frames: Frames,
    page: u64,
    n: nat,
    part: (int, int),
    whole: (int, int),
    start: int,
    end: int,
    paging_type: PagingType,
    sign_extends: bool,
)
    requires
        whole.0 <= part.0,
        part.1 <= whole.1,
        is_justified::<E>(
            item,
            frames,
            page,
            n,
            part.0,
            part.1,
            start,
            end,
            paging_type,
            sign_extends,
        ),
    ensures
        is_justified::<E>(
            item,
            frames,
            page,
            n,
            whole.0,
            whole.1,
            start,
            end,
            paging_type,
            sign_extends,
        ),
{
    reveal(is_justified);
    let (va, k) = choose|va: int, k: nat|
        {
            &&& part.0 <= va < part.1
            &&& start <= va < end
            &&& 1 <= k <= n
            &&& (#[trigger] word_for::<E>(frames, page, n, va, k)) is Some
            &&& is_about(
                item,
                va,
                k,
                word_for::<E>(frames, page, n, va, k)->0,
                paging_type,
                sign_extends,
            )
        };
    assert(word_for::<E>(frames, page, n, va, k) is Some);
}

/// Whether the dump of a part of a table, from `low` up to `high`, is right.
spec fn is_right<E: PageTableEntry>(
    items: Seq<DumpEntry>,
    frames: Frames,
    page: u64,
    n: nat,
    low: int,
    high: int,
    start: int,
    end: int,
    paging_type: PagingType,
    sign_extends: bool,
) -> bool {
    &&& forall|j: int|
        0 <= j < items.len() ==> lies_in(
            #[trigger] items[j],
            n,
            low,
            high,
            paging_type,
            sign_extends,
        ) && is_justified::<E>(
            items[j],
            frames,
            page,
            n,
            low,
            high,
            start,
            end,
            paging_type,
            sign_extends,
        )
    &&& forall|j: int, l: int|
        0 <= j < l < items.len() ==> comes_before(#[trigger] items[j], #[trigger] items[l])
    &&& forall|va: int, k: nat|
        low <= va < high && start <= va < end && 1 <= k <= n && (#[trigger] word_for::<E>(
            frames,
            page,
            n,
            va,
            k,
        )) is Some ==> exists|j: int|
            0 <= j < items.len() && is_about(
                #[trigger] items[j],
                va,
                k,
                word_for::<E>(frames, page, n, va, k)->0,
                paging_type,
                sign_extends,
            )
}

/// The dump of one entry is that of the entry itself and of the table below.
#[verifier::rlimit(40)]
proof fn lemma_dump_entry<E: PageTableEntry>(
    frames: Frames,
    page: u64,
    n: nat,
    base: int,
    i: int,
    start: int,
    end: int,
    paging_type: PagingType,
    sign_extends: bool,
    item: DumpEntry,
    below: Seq<DumpEntry>,
)
    requires
        1 <= n <= 5,
        0 <= i < 512,
        0 <= base,
        aligned(n + 1, base),
        base + table_size(n) <= address_count(paging_type),
        start < end,
        ({
            let low = entry_base(n, base, i);
            let word = word_at(frames, page, i);
            &&& start < low + entry_size(n)
            &&& low < end
            &&& E::present(word)
            &&& item.va == full_address(low, paging_type, sign_extends)
            &&& number_of(item.level) == n
            &&& item.word == word
            &&& if points_to_table::<E>(word, n) {
                n > 1 && is_right::<E>(
                    below,
                    frames,
                    E::next_address(word),
                    (n - 1) as nat,
                    low,
                    low + entry_size(n),
                    start,
                    end,
                    paging_type,
                    sign_extends,
                )
            } else {
                below.len() == 0
            }
        }),
    ensures
        is_right::<E>(
            seq![item] + below,
            frames,
            page,
            n,
            entry_base(n, base, i),
            entry_base(n, base, i) + entry_size(n),
            start,
            end,
            paging_type,
            sign_extends,
        ),
{
    let low = entry_base(n, base, i);
    let high = low + entry_size(n);
    let word = word_at(frames, page, i);
    let next = E::next_address(word);
    let items = seq![item] + below;
    reveal(is_justified);
    lemma_entry_within(n, base, i);
    E::lemma_word(word);
    assert forall|va: int| low <= va < high implies {
        &&& (#[trigger] (va / reach(n))) % 512 == i
        &&& block_of(n, va) == low
    } by {
        lemma_entry_base(n, base, i, va);
        lemma_reach(n, base, va);
        lemma_block(n, base, va);
    }
    assert forall|va: int, k: nat| low <= va < high && 1 <= k <= n implies #[trigger] word_for::<E>(
        frames,
        page,
        n,
        va,
        k,
    ) == if k == n {
        Some(word)
    } else if points_to_table::<E>(word, n) {
        word_for::<E>(frames, next, (n - 1) as nat, va, k)
    } else {
        None
    } by {
        assert((va / reach(n)) % 512 == i);
    }
    assert forall|j: int| 0 <= j < items.len() implies lies_in(
        #[trigger] items[j],
        n,
        low,
        high,
        paging_type,
        sign_extends,
    ) && is_justified::<E>(
        items[j],
        frames,
        page,
        n,
        low,
        high,
        start,
        end,
        paging_type,
        sign_extends,
    ) by {
        if j == 0 {
            let va = if start < low {
                low
            } else {
                start
            };
            law_full_address(low, high - 1, paging_type, sign_extends);
            assert(word_for::<E>(frames, page, n, va, n) == Some(word));
            assert((va / reach(n)) % 512 == i);
        } else {
            assert(items[j] == below[j - 1]);
            let (va, k) = choose|va: int, k: nat|
                {
                    &&& low <= va < high
                    &&& start <= va < end
                    &&& 1 <= k <= n - 1
                    &&& (#[trigger] word_for::<E>(frames, next, (n - 1) as nat, va, k)) is Some
                    &&& is_about(
                        below[j - 1],
                        va,
                        k,
                        word_for::<E>(frames, next, (n - 1) as nat, va, k)->0,
                        paging_type,
                        sign_extends,
                    )
                };
            assert(word_for::<E>(frames, page, n, va, k) == word_for::<E>(
                frames,
                next,
                (n - 1) as nat,
                va,
                k,
            ));
        }
    }
    assert forall|j: int, l: int| 0 <= j < l < items.len() implies comes_before(
        #[trigger] items[j],
        #[trigger] items[l],
    ) by {
        assert(items[l] == below[l - 1]);
        if j > 0 {
            assert(items[j] == below[j - 1]);
        }
    }
    assert forall|va: int, k: nat|
        low <= va < high && start <= va < end && 1 <= k <= n && (#[trigger] word_for::<E>(
            frames,
            page,
            n,
            va,
            k,
        )) is Some implies exists|j: int|
        0 <= j < items.len() && is_about(
            #[trigger] items[j],
            va,
            k,
            word_for::<E>(frames, page, n, va, k)->0,
            paging_type,
            sign_extends,
        ) by {
        if k == n {
            assert((va / reach(n)) % 512 == i);
            assert(items[0] == item);
        } else {
            let found = word_for::<E>(frames, next, (n - 1) as nat, va, k);
            let j = choose|j: int|
                0 <= j < below.len() && is_about(
                    #[trigger] below[j],
                    va,
                    k,
                    found->0,
                    paging_type,
                    sign_extends,
                );
            assert(items[j + 1] == below[j]);
        }
    }
}

/// The dump of two parts that follow one another is that of both.
proof fn lemma_dump_parts<E: PageTableEntry>(
    frames: Frames,
    page: u64,
    n: nat,
    low: int,
    middle: int,
    high: int,
    start: int,
    end: int,
    paging_type: PagingType,
    sign_extends: bool,
    first: Seq<DumpEntry>,
    second: Seq<DumpEntry>,
)
    requires
        0 <= low < middle <= high <= address_count(paging_type),
        is_right::<E>(
            first,
            frames,
            page,
            n,
            low,
            middle,
            start,
            end,
            paging_type,
            sign_extends,
        ),
        is_right::<E>(
            second,
            frames,
            page,
            n,
            middle,
            high,
            start,
            end,
            paging_type,
            sign_extends,
        ),
        middle == high ==> second.len() == 0,
    ensures
        is_right::<E>(
            first + second,
            frames,
            page,
            n,
            low,
            high,
            start,
            end,
            paging_type,
            sign_extends,
        ),
{
    let items = first + second;
    law_full_address(middle - 1, high - 1, paging_type, sign_extends);
    if middle < high {
        law_full_address(low, middle, paging_type, sign_extends);
        law_full_address(middle - 1, middle, paging_type, sign_extends);
    }
    assert forall|j: int| 0 <= j < items.len() implies lies_in(
        #[trigger] items[j],
        n,
        low,
        high,
        paging_type,
        sign_extends,
    ) && is_justified::<E>(
        items[j],
        frames,
        page,
        n,
        low,
        high,
        start,
        end,
        paging_type,
        sign_extends,
    ) by {
        let part = if j < first.len() {
            assert(items[j] == first[j]);
            (low, middle)
        } else {
            assert(items[j] == second[j - first.len()]);
            (middle, high)
        };
        lemma_justified::<E>(
            items[j],
            frames,
            page,
            n,
            part,
            (low, high),
            start,
            end,
            paging_type,
            sign_extends,
        );
    }
    assert forall|j: int, l: int| 0 <= j < l < items.len() implies comes_before(
        #[trigger] items[j],
        #[trigger] items[l],
    ) by {
        if l < first.len() {
            assert(items[j] == first[j] && items[l] == first[l]);
        } else if j < first.len() {
            assert(items[j] == first[j] && items[l] == second[l - first.len()]);
        } else {
            assert(items[j] == second[j - first.len()] && items[l] == second[l - first.len()]);
        }
    }
    assert forall|va: int, k: nat|
        low <= va < high && start <= va < end && 1 <= k <= n && (#[trigger] word_for::<E>(
            frames,
            page,
            n,
            va,
            k,
        )) is Some implies exists|j: int|
        0 <= j < items.len() && is_about(
            #[trigger] items[j],
            va,
            k,
            word_for::<E>(frames, page, n, va, k)->0,
            paging_type,
            sign_extends,
        ) by {
        let word = word_for::<E>(frames, page, n, va, k)->0;
        if va < middle {
            let j = choose|j: int|
                0 <= j < first.len() && is_about(
                    #[trigger] first[j],
                    va,
                    k,
                    word,
                    paging_type,
                    sign_extends,
                );
            assert(items[j] == first[j]);
        } else {
            let j = choose|j: int|
                0 <= j < second.len() && is_about(
                    #[trigger] second[j],
                    va,
                    k,
                    word,
                    paging_type,
                    sign_extends,
                );
            assert(items[j + first.len()] == second[j]);
        }
    }
}

/// The dump of a table from entry `i` on is right.
proof fn lemma_dump<E: PageTableEntry>(
    frames: Frames,
    page: u64,
    n: nat,
    base: int,
    i: int,
    start: int,
    end: int,
    paging_type: PagingType,
    sign_extends: bool,
)
    requires
        1 <= n <= 5,
        0 <= i <= 512,
        0 <= base,
        aligned(n + 1, base),
        base + table_size(n) <= address_count(paging_type),
        start < end,
    ensures
        is_right::<E>(
            dump_of::<E>(frames, page, n, base, i, start, end, paging_type, sign_extends),
            frames,
            page,
            n,
            entry_base(n, base, i),
            base + table_size(n),
            start,
            end,
            paging_type,
            sign_extends,
        ),
    decreases n, 512 - i,
{
    if i < 512 {
        let low = entry_base(n, base, i);
        let high = low + entry_size(n);
        let word = word_at(frames, page, i);
        lemma_entry_within(n, base, i);
        lemma_dump::<E>(frames, page, n, base, i + 1, start, end, paging_type, sign_extends);
        let rest = dump_of::<E>(
            frames,
            page,
            n,
            base,
            i + 1,
            start,
            end,
            paging_type,
            sign_extends,
        );
        let own = if start < high && low < end && E::present(word) {
            let item = DumpEntry {
                va: canonical_va(low, paging_type, sign_extends) as u64,
                level: level_at(n),
                word,
            };
            let below = if points_to_table::<E>(word, n) {
                dump_of::<E>(
                    frames,
                    E::next_address(word),
                    (n - 1) as nat,
                    low,
                    0,
                    start,
                    end,
                    paging_type,
                    sign_extends,
                )
            } else {
                Seq::empty()
            };
            law_full_address(low, low, paging_type, sign_extends);
            E::lemma_word(word);
            if points_to_table::<E>(word, n) {
                lemma_dump::<E>(
                    frames,
                    E::next_address(word),
                    (n - 1) as nat,
                    low,
                    0,
                    start,
                    end,
                    paging_type,
                    sign_extends,
                );
                assert(entry_base((n - 1) as nat, low, 0) == low);
            }
            lemma_dump_entry::<E>(
                frames,
                page,
                n,
                base,
                i,
                start,
                end,
                paging_type,
                sign_extends,
                item,
                below,
            );
            seq![item] + below
        } else {
            assert forall|va: int, k: nat|
                low <= va < high && start <= va < end && 1 <= k
                    <= n implies #[trigger] word_for::<E>(frames, page, n, va, k) is None by {
                lemma_entry_base(n, base, i, va);
                lemma_reach(n, base, va);
            }
            Seq::empty()
        };
        assert(is_right::<E>(
            own,
            frames,
            page,
            n,
            low,
            high,
            start,
            end,
            paging_type,
            sign_extends,
        ));
        lemma_dump_parts::<E>(
            frames,
            page,
            n,
            low,
            high,
            base + table_size(n),
            start,
            end,
            paging_type,
            sign_extends,
            own,
            rest,
        );
        if i == 511 {
            assert(rest.len() == 0);
        }
        assert(dump_of::<E>(frames, page, n, base, i, start, end, paging_type, sign_extends)
            =~= own + rest);
    }
}

/// The items of a dump of the addresses from `start` up to `end`.
pub open spec fn dumped<P: PageAllocator, A: PageTableHal>(
    table: PageTableInternal<P>,
    start: int,
    end: int,
) -> Seq<DumpEntry> {
    dump_of::<A::PTE>(
        table.frames(),
        table.root(),
        table.spec_paging_type().levels(),
        0,
        0,
        start,
        end,
        table.spec_paging_type(),
        A::spec_sign_extends(),
    )
}

/// A dump holds every entry in use, at whatever depth, on the way of every address in the range.
pub proof fn law_dump_misses_nothing<P: PageAllocator, A: PageTableHal>(
    table: PageTableInternal<P>,
    start: int,
    end: int,
    va: int,
    k: nat,
    word: u64,
)
    requires
        0 <= va < address_count(table.spec_paging_type()),
        start <= va < end,
        1 <= k <= level_count(table.spec_paging_type()),
        word_for::<A::PTE>(
            table.frames(),
            table.root(),
            level_count(table.spec_paging_type()),
            va,
            k,
        ) == Some(word),
    ensures
        exists|j: int|
            0 <= j < dumped::<P, A>(table, start, end).len() && is_about(
                #[trigger] dumped::<P, A>(table, start, end)[j],
                va,
                k,
                word,
                table.spec_paging_type(),
                A::spec_sign_extends(),
            ),
{
    let n = table.spec_paging_type().levels();
    lemma_dump::<A::PTE>(
        table.frames(),
        table.root(),
        n,
        0,
        0,
        start,
        end,
        table.spec_paging_type(),
        A::spec_sign_extends(),
    );
    assert(entry_base(n, 0, 0) == 0 && table_size(n) == address_count(table.spec_paging_type()));
    assert(n == level_count(table.spec_paging_type()));
    let items = dumped::<P, A>(table, start, end);
    assert(word_for::<A::PTE>(table.frames(), table.root(), n, va, k) == Some(word));
    let j = choose|j: int|
        0 <= j < items.len() && is_about(
            #[trigger] items[j],
            va,
            k,
            word_for::<A::PTE>(table.frames(), table.root(), n, va, k)->0,
            table.spec_paging_type(),
            A::spec_sign_extends(),
        );
    assert(is_about(
        items[j],
        va,
        k,
        word,
        table.spec_paging_type(),
        A::spec_sign_extends(),
    ));
}

/// A dump holds nothing but entries in use on the way of addresses in the range, of which it
/// tells the first address that they stand for, the level and the word.
pub proof fn law_dump_holds_entries<P: PageAllocator, A: PageTableHal>(
    table: PageTableInternal<P>,
    start: int,
    end: int,
    j: int,
)
    requires
        start < end,
        0 <= j < dumped::<P, A>(table, start, end).len(),
    ensures
        exists|va: int, k: nat|
            {
                let item = dumped::<P, A>(table, start, end)[j];
                &&& 0 <= va < address_count(table.spec_paging_type())
                &&& start <= va < end
                &&& 1 <= k <= level_count(table.spec_paging_type())
                &&& (#[trigger] word_for::<A::PTE>(
                    table.frames(),
                    table.root(),
                    level_count(table.spec_paging_type()),
                    va,
                    k,
                )) == Some(item.word)
                &&& is_about(
                    item,
                    va,
                    k,
                    item.word,
                    table.spec_paging_type(),
                    A::spec_sign_extends(),
                )
            },
{
    let n = table.spec_paging_type().levels();
    let items = dumped::<P, A>(table, start, end);
    lemma_dump::<A::PTE>(
        table.frames(),
        table.root(),
        n,
        0,
        0,
        start,
        end,
        table.spec_paging_type(),
        A::spec_sign_extends(),
    );
    assert(entry_base(n, 0, 0) == 0 && table_size(n) == address_count(table.spec_paging_type()));
    assert(n == level_count(table.spec_paging_type()));
    reveal(is_justified);
    let item = items[j];
    let (va, k) = choose|va: int, k: nat|
        {
            &&& 0 <= va < table_size(n)
            &&& start <= va < end
            &&& 1 <= k <= n
            &&& (#[trigger] word_for::<A::PTE>(table.frames(), table.root(), n, va, k)) is Some
            &&& is_about(
                item,
                va,
                k,
                word_for::<A::PTE>(table.frames(), table.root(), n, va, k)->0,
                table.spec_paging_type(),
                A::spec_sign_extends(),
            )
        };
    assert(word_for::<A::PTE>(table.frames(), table.root(), n, va, k) == Some(item.word));
}

/// A dump goes by addresses, and from the root down where they are the same. Nothing comes twice.
pub proof fn law_dump_is_ordered<P: PageAllocator, A: PageTableHal>(
    table: PageTableInternal<P>,
    start: int,
    end: int,
    j: int,
    l: int,
)
    requires
        start < end,
        0 <= j < l < dumped::<P, A>(table, start, end).len(),
    ensures
        comes_before(
            dumped::<P, A>(table, start, end)[j],
            dumped::<P, A>(table, start, end)[l],
        ),
{
    lemma_dump::<A::PTE>(
        table.frames(),
        table.root(),
        table.spec_paging_type().levels(),
        0,
        0,
        start,
        end,
        table.spec_paging_type(),
        A::spec_sign_extends(),
    );
}

/// Levels are counted from 1 for the lowest.
pub proof fn law_level_numbers(level: PageLevel, paging_type: PagingType)
    ensures
        level.depth() == number_of(level),
        level_at(number_of(level)) == level,
        paging_type.levels() == level_count(paging_type),
        paging_type.space() == address_count(paging_type),
        entry_size(number_of(level)) == reach(number_of(level)),
{
    reveal_with_fuel(reach, 6);
}

/// Whether the way of `va` from the table in `page`, at depth `n`, goes through the table in `q`.
pub open spec fn passes<E: PageTableEntry>(
    frames: Frames,
    page: u64,
    n: nat,
    va: int,
    q: u64,
) -> bool
    decreases n,
{
    let word = word_at(frames, page, (va / reach(n)) % 512);
    ||| q == page
    ||| n > 1 && E::present(word) && !E::leaf(word, n) && passes::<E>(
        frames,
        E::next_address(word),
        (n - 1) as nat,
        va,
        q,
    )
}

/// A table that another leads to is on the way of an address.
proof fn lemma_passes<E: PageTableEntry>(frames: Frames, page: u64, n: nat, base: int, q: u64) -> (va:
    int)
    requires
        1 <= n <= 5,
        0 <= base,
        aligned(n + 1, base),
        leads_to::<E>(frames, page, n, q),
    ensures
        base <= va < base + table_size(n),
        passes::<E>(frames, page, n, va, q),
    decreases n,
{
    if q == page {
        base
    } else {
        let i = choose|i: int|
            0 <= i < 512 && points_to_table::<E>(#[trigger] word_at(frames, page, i), n)
                && leads_to::<E>(
                frames,
                E::next_address(word_at(frames, page, i)),
                (n - 1) as nat,
                q,
            );
        let low = entry_base(n, base, i);
        lemma_entry_within(n, base, i);
        let va = lemma_passes::<E>(
            frames,
            E::next_address(word_at(frames, page, i)),
            (n - 1) as nat,
            low,
            q,
        );
        lemma_entry_base(n, base, i, va);
        lemma_reach(n, base, va);
        va
    }
}

/// A table leads to the tables on the way of the addresses that it covers.
proof fn lemma_passed<E: PageTableEntry>(
    frames: Frames,
    page: u64,
    n: nat,
    base: int,
    va: int,
    q: u64,
)
    requires
        1 <= n <= 5,
        0 <= base,
        aligned(n + 1, base),
        base <= va < base + table_size(n),
        passes::<E>(frames, page, n, va, q),
    ensures
        leads_to::<E>(frames, page, n, q),
    decreases n,
{
    if q != page {
        let i = entry_index(n, base, va);
        lemma_reach(n, base, va);
        lemma_entry_index(n, base, va);
        lemma_entry_within(n, base, i);
        lemma_passed::<E>(
            frames,
            E::next_address(word_at(frames, page, i)),
            (n - 1) as nat,
            entry_base(n, base, i),
            va,
            q,
        );
        assert(points_to_table::<E>(word_at(frames, page, i), n));
    }
}

/// The tables that have to be held are those on the way of some address, and no others.
pub proof fn law_needed_tables<E: PageTableEntry>(
    frames: Frames,
    root: u64,
    paging_type: PagingType,
    q: u64,
)
    ensures
        leads_to::<E>(frames, root, paging_type.levels(), q) <==> exists|va: int|
            0 <= va < address_count(paging_type) && #[trigger] passes::<E>(
                frames,
                root,
                level_count(paging_type),
                va,
                q,
            ),
{
    let n = paging_type.levels();
    assert(n == level_count(paging_type) && table_size(n) == address_count(paging_type));
    if leads_to::<E>(frames, root, n, q) {
        let va = lemma_passes::<E>(frames, root, n, 0, q);
        assert(passes::<E>(frames, root, n, va, q));
    }
    if exists|va: int|
        0 <= va < address_count(paging_type) && #[trigger] passes::<E>(frames, root, n, va, q) {
        let va = choose|va: int|
            0 <= va < address_count(paging_type) && #[trigger] passes::<E>(frames, root, n, va, q);
        lemma_passed::<E>(frames, root, n, 0, va, q);
    }
}

/// An address in the self map goes through the entry 510 of the root once for each level that it
/// skips, and then by the indices of the address that the table is for.
pub proof fn law_self_map_indices(
    levels: nat,
    level: nat,
    va: int,
    r: int,
    k: nat,
)
    requires
        is_self_mapped_base(levels, level, va, r),
        0 <= va,
        0 <= r,
        levels <= 5,
        1 <= level,
        1 <= k <= levels,
    ensures
        r % 4096 == 0,
        k > levels - level ==> (r / reach(k)) % 512 == 510,
        k <= levels - level ==> (r / reach(k)) % 512 == (va / reach(k + level)) % 512,
{
    law_index_bits(k, r);
    assert(va_index(k, r) == if k > levels - level {
        0x1FE
    } else {
        va_index(k + level, va)
    });
    if k <= levels - level {
        law_index_bits(k + level, va);
    }
}

/// The bits within a page do not count for the entry that an address selects.
proof fn lemma_within_page(base: int, address: int, k: nat)
    requires
        0 <= base <= address < base + 4096,
        base % 4096 == 0,
        1 <= k <= 5,
    ensures
        address / reach(k) == base / reach(k),
{
    reveal_with_fuel(reach, 6);
    let c = reach(k) / 4096;
    assert(reach(k) == 4096 * c && c > 0);
    assert(address / 4096 == base / 4096);
    vstd::arithmetic::div_mod::lemma_div_denominator(address, 4096, c);
    vstd::arithmetic::div_mod::lemma_div_denominator(base, 4096, c);
}

/// A page is cleared through the window in four steps: a word is written to the entry for the
/// address of the window, the page there is filled with zeros, the same entry is emptied, and what
/// the processor has kept of it is dropped. The entry is found through the self map: entry 510 of
/// the root once, then the indices of the address of the window.
pub proof fn law_clear_in_order<A: PageTableHal>(
    steps: Seq<ClearStep>,
    paging_type: PagingType,
    zero_va: u64,
    page: u64,
    k: nat,
)
    requires
        clears_through_window::<A>(steps, paging_type, zero_va, page),
        1 <= k < level_count(paging_type),
    ensures
        steps.len() == 4,
        ({
            &&& steps[0] matches ClearStep::WriteEntry { address, word, va }
            &&& va == zero_va
            &&& word == A::PTE::updated(0, A::spec_default_attributes(), page, true, 1)
            &&& (address / 8) % 512 == (zero_va / 4096) % 512
            &&& (address as int / reach(k)) % 512 == (zero_va as int / reach(k + 1)) % 512
            &&& (address as int / reach(level_count(paging_type))) % 512 == 510
            &&& address % 8 == 0
            &&& steps[1] == (ClearStep::Zero { va: zero_va })
            &&& steps[2] == (ClearStep::WriteEntry { address, word: 0, va: zero_va })
            &&& steps[3] == (ClearStep::Invalidate { va: zero_va })
        }),
{
    let levels = paging_type.levels();
    let address = choose|address: u64|
        {
            let base = address - 8 * va_index(1, zero_va as int);
            &&& is_self_mapped_base(levels, 1, zero_va as int, base)
            &&& base == canonical_va(
                base % paging_type.space(),
                paging_type,
                A::spec_sign_extends(),
            )
            &&& steps =~= #[trigger] window_steps::<A>(address, zero_va, page)
        };
    let index = va_index(1, zero_va as int);
    let base = address - 8 * index;
    law_index_bits(1, zero_va as int);
    assert(reach(1) == 4096);
    assert(base % 4096 == 0);
    assert(0 <= 8 * index < 4096);
    assert(0 <= base);
    law_self_map_indices(levels, 1, zero_va as int, base, k);
    law_self_map_indices(levels, 1, zero_va as int, base, levels);
    lemma_within_page(base, address as int, k);
    lemma_within_page(base, address as int, levels);
    assert(address as int / 8 == base / 8 + index);
    assert((base / 8) % 512 == 0);
}

/// The attributes of the entries on the way of an address that point to tables, one by one.
proof fn lemma_link<E: PageTableEntry>(
    frames: Frames,
    page: u64,
    n: nat,
    base: int,
    va: int,
    k: nat,
)
    requires
        2 <= k <= n <= 5,
        0 <= base,
        aligned(n + 1, base),
        base <= va < base + table_size(n),
    ensures
        ({
            let links = link_attributes::<E>(frames, page, n, base, va);
            match word_for::<E>(frames, page, n, va, k) {
                Some(word) => if E::leaf(word, k) {
                    links.len() <= n - k
                } else {
                    links.len() > n - k && links[n - k] == E::attributes(word)
                },
                None => links.len() <= n - k,
            }
        }),
    decreases n,
{
    let i = entry_index(n, base, va);
    let word = word_at(frames, page, i);
    let low = entry_base(n, base, i);
    lemma_reach(n, base, va);
    lemma_entry_index(n, base, va);
    lemma_entry_within(n, base, i);
    if points_to_table::<E>(word, n) {
        let next = E::next_address(word);
        let below = link_attributes::<E>(frames, next, (n - 1) as nat, low, va);
        assert(link_attributes::<E>(frames, page, n, base, va) =~= seq![E::attributes(word)]
            + below);
        if k < n {
            lemma_link::<E>(frames, next, (n - 1) as nat, low, va, k);
        }
    }
}

/// Whatever comes of an edit, the entries that point to tables keep their attributes, and those
/// that are new have the default attributes. None is taken out. The self map is left out of this.
pub proof fn law_links<P: PageAllocator, A: PageTableHal>(
    before: PageTableInternal<P>,
    after: PageTableInternal<P>,
    address: u64,
    size: u64,
    edit: Edit,
    r: Result<(), PtError>,
    va: int,
    k: nat,
)
    requires
        before.has_tree::<A>(),
        after.spec_sound(),
        after.edit_outcome::<A>(
            &before,
            job_for(before.spec_paging_type(), address, size, edit),
            r,
        ),
        0 <= va < address_count(before.spec_paging_type()),
        va / reach(level_count(before.spec_paging_type())) != 510,
        2 <= k <= level_count(before.spec_paging_type()),
    ensures
        ({
            let n = level_count(before.spec_paging_type());
            let old_word = word_for::<A::PTE>(before.frames(), before.root(), n, va, k);
            let new_word = word_for::<A::PTE>(after.frames(), after.root(), n, va, k);
            let was_link = old_word is Some && !A::PTE::leaf(old_word->0, k);
            let is_link = new_word is Some && !A::PTE::leaf(new_word->0, k);
            &&& was_link ==> is_link && A::PTE::attributes(new_word->0) == A::PTE::attributes(
                old_word->0,
            )
            &&& is_link && !was_link ==> A::PTE::attributes(new_word->0)
                == A::spec_default_attributes()
        }),
{
    let n = before.spec_paging_type().levels();
    reveal_with_fuel(reach, 6);
    lemma_link::<A::PTE>(before.frames(), before.root(), n, 0, va, k);
    lemma_link::<A::PTE>(after.frames(), after.root(), n, 0, va, k);
    let links = before.links_at::<A>(va);
    let links_after = after.links_at::<A>(va);
    assert(continued(links, links_after, A::spec_default_attributes()));
    if links.len() > n - k {
        assert(links_after.take(links.len() as int)[n - k] == links[n - k]);
    }
}

/// In a new page table every entry that points to a table has the default attributes.
pub proof fn law_new_links<P: PageAllocator, A: PageTableHal>(
    page_allocator: P,
    paging_type: PagingType,
    requests: Seq<Request<P>>,
    table: PageTableInternal<P>,
    va: int,
    k: nat,
    word: u64,
)
    requires
        PageTableInternal::new_outcome::<A>(page_allocator, paging_type, requests, Ok(table)),
        are_fit(Map::empty(), requests, A::PTE::address_limit()),
        0 <= va < address_count(paging_type),
        va / reach(level_count(paging_type)) != 510,
        2 <= k <= level_count(paging_type),
        word_for::<A::PTE>(table.frames(), table.root(), level_count(paging_type), va, k) == Some(
            word,
        ),
        !A::PTE::leaf(word, k),
    ensures
        A::PTE::attributes(word) == A::spec_default_attributes(),
{
    let n = paging_type.levels();
    reveal_with_fuel(reach, 6);
    law_new_with_fit_pages::<P, A>(page_allocator, paging_type, requests, table);
    lemma_link::<A::PTE>(table.frames(), table.root(), n, 0, va, k);
    assert(continued(Seq::empty(), table.links_at::<A>(va), A::spec_default_attributes()));
}

} // verus!
