//! What holds of the self map.
use vstd::prelude::*;
use crate::arch::{is_self_mapped_base, PageTableEntry, PageTableHal};
use crate::attributes::MemoryAttributes;
use crate::error::PtError;
use crate::journal::op_fits;
use crate::laws::bits::lemma_union;
use crate::memory::{word_at, MemoryOp};
use crate::page_allocator::PageAllocator;
use crate::paging::PageTableInternal;
use crate::structs::{
    aligned, entry_base, entry_index, lemma_entry_index, lemma_entry_within, lemma_index,
    lemma_low_bits, table_size, va_index, PageLevel, PagingType,
};
use crate::tree::{
    always_table, has_table, in_tree, is_self_entry, linked, table_at, walk, Frames, Leaf, Places,
    Walk,
};

verus! {

/// Whether the walk for `va` reaches a table at depth `level`, by entries that point to tables
/// at whatever depth they are read.
pub open spec fn reaches<E: PageTableEntry>(
    frames: Frames,
    page: u64,
    n: nat,
    base: int,
    va: int,
    level: nat,
) -> bool
    decreases n,
{
    if n <= level {
        n == level
    } else {
        let i = entry_index(n, base, va);
        let word = word_at(frames, page, i);
        always_table::<E>(word) && reaches::<E>(
            frames,
            E::next_address(word),
            (n - 1) as nat,
            entry_base(n, base, i),
            va,
            level,
        )
    }
}

/// A walk that reads the tables `level` levels lower than they are ends in the table at depth
/// `level`, as a page.
proof fn lemma_shifted_walk<E: PageTableEntry>(
    frames: Frames,
    page: u64,
    k: nat,
    base: int,
    seen: int,
    level: nat,
    real_base: int,
    va: int,
)
    requires
        1 <= k,
        1 <= level,
        k + level <= 5,
        aligned(k + 1, base),
        0 <= base <= seen < base + table_size(k),
        aligned(k + level + 1, real_base),
        0 <= real_base <= va < real_base + table_size(k + level),
        forall|j: nat| 1 <= j <= k ==> #[trigger] va_index(j, seen) == va_index(j + level, va),
        reaches::<E>(frames, page, k + level, real_base, va, level),
    ensures
        walk::<E>(frames, page, k, base, seen).leaf matches Some(leaf) && leaf.pa == table_at::<E>(
            frames,
            page,
            k + level,
            real_base,
            va,
            level,
        ) + seen % 0x1000,
    decreases k,
{
    let n = k + level;
    let i = entry_index(n, real_base, va);
    let word = word_at(frames, page, i);
    lemma_index(n, real_base, va);
    lemma_index(k, base, seen);
    assert(va_index(k, seen) == va_index(k + level, va));
    lemma_entry_index(k, base, seen);
    lemma_entry_index(n, real_base, va);
    lemma_entry_within(k, base, i);
    lemma_entry_within(n, real_base, i);
    E::lemma_word(word);
    let next = E::next_address(word);
    let low = entry_base(n, real_base, i);
    assert(table_at::<E>(frames, page, n, real_base, va, level) == table_at::<E>(
        frames,
        next,
        (n - 1) as nat,
        low,
        va,
        level,
    ));
    if k == 1 {
        assert(table_at::<E>(frames, next, level, low, va, level) == next);
        let first = entry_base(1, base, i);
        assert(first % 0x1000 == 0);
        assert(seen - first == seen % 0x1000);
    } else {
        lemma_shifted_walk::<E>(
            frames,
            next,
            (k - 1) as nat,
            entry_base(k, base, i),
            seen,
            level,
            low,
            va,
        );
    }
}

/// A walk that takes the self-map entry of the root for its first `turns` steps, and then reads
/// the tables on the way of `va`, ends in the table at depth `level`.
proof fn lemma_self_walk<E: PageTableEntry>(
    frames: Frames,
    root: u64,
    levels: nat,
    turns: nat,
    base: int,
    seen: int,
    level: nat,
    va: int,
)
    requires
        1 <= level <= levels <= 5,
        turns <= level,
        turns + levels - level >= 1,
        aligned((turns + levels - level + 1) as nat, base),
        0 <= base <= seen < base + table_size((turns + levels - level) as nat),
        0 <= va < table_size(levels),
        always_table::<E>(word_at(frames, root, 0x1FE)),
        E::next_address(word_at(frames, root, 0x1FE)) == root,
        forall|k: nat|
            1 <= k <= turns + levels - level ==> #[trigger] va_index(k, seen) == if k > levels
                - level {
                0x1FE
            } else {
                va_index(k + level, va)
            },
        reaches::<E>(frames, root, levels, 0, va, level),
    ensures
        walk::<E>(frames, root, (turns + levels - level) as nat, base, seen).leaf matches Some(leaf)
            && leaf.pa == table_at::<E>(frames, root, levels, 0, va, level) + seen % 0x1000,
    decreases turns,
{
    let k = (turns + levels - level) as nat;
    if turns == 0 {
        lemma_shifted_walk::<E>(frames, root, k, base, seen, level, 0, va);
    } else {
        let word = word_at(frames, root, 0x1FE);
        E::lemma_word(word);
        lemma_index(k, base, seen);
        lemma_entry_index(k, base, seen);
        assert(va_index(k, seen) == 0x1FE);
        lemma_entry_within(k, base, 0x1FE);
        let low = entry_base(k, base, 0x1FE);
        if k == 1 {
            assert(low % 0x1000 == 0);
            assert(seen - low == seen % 0x1000);
        } else {
            lemma_self_walk::<E>(
                frames,
                root,
                levels,
                (turns - 1) as nat,
                low,
                seen,
                level,
                va,
            );
        }
    }
}

/// The low bits of the address of a page are the address of a page in the address space.
proof fn lemma_page_in_space(paging_type: PagingType, page: u64)
    requires
        page % 0x1000 == 0,
    ensures
        (page as int % paging_type.space()) % 0x1000 == 0,
        0 <= page as int % paging_type.space(),
        page as int % paging_type.space() + 0x1000 <= paging_type.space(),
{
    if paging_type is Paging4Level {
        assert(page as int % paging_type.space() == page as int % 0x1_0000_0000_0000);
    } else {
        assert(page as int % paging_type.space() == page as int % 0x200_0000_0000_0000);
    }
}

/// Through the self map the tables can be seen as memory: at the address that selects, in a root
/// that maps itself, the table at depth `level` for `va`, the byte at `distance` is the byte at
/// `distance` of that table.
pub proof fn law_self_map_shows_tables<E: PageTableEntry>(
    frames: Frames,
    root: u64,
    paging_type: PagingType,
    level: nat,
    va: u64,
    self_mapped_base: u64,
    distance: int,
)
    requires
        1 <= level <= paging_type.levels(),
        always_table::<E>(word_at(frames, root, 0x1FE)),
        E::next_address(word_at(frames, root, 0x1FE)) == root,
        reaches::<E>(
            frames,
            root,
            paging_type.levels(),
            0,
            va as int % paging_type.space(),
            level,
        ),
        is_self_mapped_base(
            paging_type.levels(),
            level,
            va as int,
            self_mapped_base as int,
        ),
        0 <= distance < 0x1000,
    ensures
        walk::<E>(
            frames,
            root,
            paging_type.levels(),
            0,
            self_mapped_base as int % paging_type.space() + distance,
        ).leaf matches Some(leaf) && leaf.pa == table_at::<E>(
            frames,
            root,
            paging_type.levels(),
            0,
            va as int % paging_type.space(),
            level,
        ) + distance,
{
    let levels = paging_type.levels();
    let v = va as int % paging_type.space();
    let first = self_mapped_base as int % paging_type.space();
    let seen = first + distance;
    lemma_page_in_space(paging_type, self_mapped_base);
    vstd::arithmetic::div_mod::lemma_mod_bound(va as int, paging_type.space());
    assert forall|k: nat| 1 <= k <= levels implies #[trigger] va_index(k, seen) == if k > levels
        - level {
        0x1FE
    } else {
        va_index(k + level, v)
    } by {
        lemma_low_bits(paging_type, k, self_mapped_base, distance);
        assert(va_index(k, self_mapped_base as int) == if k > levels - level {
            0x1FE
        } else {
            va_index(k + level, va as int)
        });
        if k <= levels - level {
            lemma_low_bits(paging_type, k + level, va, 0);
        }
    }
    lemma_self_walk::<E>(frames, root, levels, level, 0, seen, level, v);
}

/// In a tree, every table for an address outside the self map can be seen through the self map.
pub proof fn law_tree_is_seen<E: PageTableEntry>(
    frames: Frames,
    places: Places,
    root: u64,
    page: u64,
    n: nat,
    base: int,
    va: int,
    level: nat,
)
    requires
        in_tree::<E>(frames, places, root, page, n, base),
        base <= va < base + table_size(n),
        !is_self_entry(root, page, entry_index(n, base, va)),
        1 <= level,
        has_table::<E>(frames, page, n, base, va, level),
    ensures
        reaches::<E>(frames, page, n, base, va, level),
    decreases n,
{
    if n > level {
        let i = entry_index(n, base, va);
        lemma_entry_index(n, base, va);
        lemma_entry_within(n, base, i);
        E::lemma_word(word_at(frames, page, i));
        assert(linked::<E>(frames, places, root, page, i));
        law_tree_is_seen::<E>(
            frames,
            places,
            root,
            E::next_address(word_at(frames, page, i)),
            (n - 1) as nat,
            entry_base(n, base, i),
            va,
            level,
        );
    }
}

/// A change that can be carried out can be carried out through the self map: at the address for its
/// entry there, the processor finds the entry itself.
pub proof fn law_change_reaches_its_entry<E: PageTableEntry>(
    frames: Frames,
    places: Places,
    root: u64,
    paging_type: PagingType,
    table: u64,
    index: u64,
    word: u64,
    level: PageLevel,
    va: u64,
    self_mapped_base: u64,
)
    requires
        in_tree::<E>(frames, places, root, root, paging_type.levels(), 0),
        always_table::<E>(word_at(frames, root, 0x1FE)),
        E::next_address(word_at(frames, root, 0x1FE)) == root,
        op_fits::<E>(
            frames,
            root,
            paging_type,
            MemoryOp::WriteEntry { table, index, word, level, va },
        ),
        is_self_mapped_base(
            paging_type.levels(),
            level.depth(),
            va as int,
            self_mapped_base as int,
        ),
    ensures
        walk::<E>(
            frames,
            root,
            paging_type.levels(),
            0,
            self_mapped_base as int % paging_type.space() + 8 * index,
        ).leaf matches Some(leaf) && leaf.pa == table + 8 * index,
{
    let levels = paging_type.levels();
    let v = va as int % paging_type.space();
    let n = level.depth();
    assert(0 <= v < paging_type.space()) by {
        vstd::arithmetic::div_mod::lemma_mod_bound(va as int, paging_type.space());
    }
    if n < levels {
        lemma_entry_index(levels, 0, v);
        law_tree_is_seen::<E>(frames, places, root, root, levels, 0, v, n);
    }
    assert(index < 512);
    law_self_map_shows_tables::<E>(
        frames,
        root,
        paging_type,
        n,
        va,
        self_mapped_base,
        8 * index as int,
    );
}

/// A walk that takes the self-map entry of the root at every step ends in the root, with the
/// attributes of that entry.
proof fn lemma_self_turns<E: PageTableEntry>(
    frames: Frames,
    root: u64,
    k: nat,
    base: int,
    seen: int,
)
    requires
        1 <= k <= 5,
        aligned(k + 1, base),
        0 <= base <= seen < base + table_size(k),
        always_table::<E>(word_at(frames, root, 0x1FE)),
        E::next_address(word_at(frames, root, 0x1FE)) == root,
        E::restrictions(word_at(frames, root, 0x1FE)) == 0,
        forall|j: nat| 1 <= j <= k ==> #[trigger] va_index(j, seen) == 0x1FE,
    ensures
        walk::<E>(frames, root, k, base, seen) == (Walk {
            restrictions: 0,
            leaf: Some(
                Leaf {
                    pa: root + seen % 0x1000,
                    attributes: E::attributes(word_at(frames, root, 0x1FE)),
                },
            ),
        }),
    decreases k,
{
    E::lemma_word(word_at(frames, root, 0x1FE));
    lemma_index(k, base, seen);
    lemma_entry_index(k, base, seen);
    assert(va_index(k, seen) == 0x1FE);
    lemma_entry_within(k, base, 0x1FE);
    let low = entry_base(k, base, 0x1FE);
    if k == 1 {
        assert(low % 0x1000 == 0);
        assert(seen - low == seen % 0x1000);
    } else {
        lemma_self_turns::<E>(frames, root, (k - 1) as nat, low, seen);
        lemma_union(0, 0);
    }
}

/// An address in the page of the root in the self map has the self-map entry of the root at every
/// step.
proof fn lemma_root_page(paging_type: PagingType, va: u64, self_mapped_base: u64, distance: int)
    requires
        is_self_mapped_base(
            paging_type.levels(),
            paging_type.levels(),
            va as int,
            self_mapped_base as int,
        ),
        0 <= distance < 0x1000,
    ensures
        forall|k: nat|
            1 <= k <= paging_type.levels() ==> #[trigger] va_index(
                k,
                self_mapped_base as int % paging_type.space() + distance,
            ) == 0x1FE,
{
    assert forall|k: nat| 1 <= k <= paging_type.levels() implies #[trigger] va_index(
        k,
        self_mapped_base as int % paging_type.space() + distance,
    ) == 0x1FE by {
        lemma_low_bits(paging_type, k, self_mapped_base, distance);
        assert(va_index(k, self_mapped_base as int) == 0x1FE);
    }
}

/// What is seen of the root in the self map has the attributes of the self-map entry.
proof fn lemma_root_seen<E: PageTableEntry>(
    frames: Frames,
    root: u64,
    paging_type: PagingType,
    va: u64,
    self_mapped_base: u64,
    seen: int,
)
    requires
        always_table::<E>(word_at(frames, root, 0x1FE)),
        E::next_address(word_at(frames, root, 0x1FE)) == root,
        E::restrictions(word_at(frames, root, 0x1FE)) == 0,
        is_self_mapped_base(
            paging_type.levels(),
            paging_type.levels(),
            va as int,
            self_mapped_base as int,
        ),
        self_mapped_base as int % paging_type.space() <= seen < self_mapped_base as int
            % paging_type.space() + 0x1000,
    ensures
        walk::<E>(frames, root, paging_type.levels(), 0, seen).effective() == Some(
            E::attributes(word_at(frames, root, 0x1FE)),
        ),
{
    let first = self_mapped_base as int % paging_type.space();
    let bits = E::attributes(word_at(frames, root, 0x1FE));
    lemma_page_in_space(paging_type, self_mapped_base);
    lemma_root_page(paging_type, va, self_mapped_base, seen - first);
    assert(first + (seen - first) == seen);
    lemma_self_turns::<E>(frames, root, paging_type.levels(), 0, seen);
    lemma_union(bits, 0);
}

/// A query of the root through the self map, or of a part of it from `from` up to `to`, gives the
/// default attributes, in a page table that maps itself with these, as a new one does.
pub proof fn law_query_self_map<P: PageAllocator, A: PageTableHal>(
    table: PageTableInternal<P>,
    va: u64,
    self_mapped_base: u64,
    from: int,
    to: int,
    answer: Result<MemoryAttributes, PtError>,
)
    requires
        table.self_mapped_by_default::<A>(),
        is_self_mapped_base(
            table.spec_paging_type().levels(),
            table.spec_paging_type().levels(),
            va as int,
            self_mapped_base as int,
        ),
        ({
            let first = self_mapped_base as int % table.spec_paging_type().space();
            &&& first <= from < to <= first + 0x1000
            &&& table.is_answer::<A>(from, to, answer)
        }),
    ensures
        answer == Ok::<MemoryAttributes, PtError>(
            MemoryAttributes { bits: A::spec_default_attributes() },
        ),
{
    let bits = A::spec_default_attributes();
    assert forall|seen: int| from <= seen < to implies #[trigger] table.status_at::<A>(seen)
        == Some(bits) by {
        lemma_root_seen::<A::PTE>(
            table.frames(),
            table.root(),
            table.spec_paging_type(),
            va,
            self_mapped_base,
            seen,
        );
    }
    assert(table.uniform::<A>(from, to));
}

} // verus!
