//! The attributes of the entries that point to tables.
use vstd::prelude::*;
use crate::arch::PageTableEntry;
use crate::memory::{word_at, words_of};
use crate::structs::{
    entry_base, entry_index, entry_size, lemma_entry_base, lemma_entry_index,
    lemma_entry_within, table_size,
};
use crate::tree::{
    confined, in_tree, is_self_entry, linked, pieces_of, points_to_table, same_step, Frames, Places,
};

verus! {

/// The attributes of the entries that point to tables on the way of `va`, from the table in
/// `page` down.
pub open spec fn link_attributes<E: PageTableEntry>(
    frames: Frames,
    page: u64,
    n: nat,
    base: int,
    va: int,
) -> Seq<u64>
    decreases n,
{
    let i = entry_index(n, base, va);
    let word = word_at(frames, page, i);
    if n > 1 && points_to_table::<E>(word, n) {
        seq![E::attributes(word)] + link_attributes::<E>(
            frames,
            E::next_address(word),
            (n - 1) as nat,
            entry_base(n, base, i),
            va,
        )
    } else {
        Seq::empty()
    }
}

/// Whether the entries that point to tables are those of before, with nothing but entries with the
/// given attributes below them.
pub open spec fn continued(before: Seq<u64>, after: Seq<u64>, attributes: u64) -> bool {
    &&& before.len() <= after.len()
    &&& after.take(before.len() as int) =~= before
    &&& forall|k: int| before.len() <= k < after.len() ==> #[trigger] after[k] == attributes
}

/// Whether this holds for all addresses of entry `i` of the table in `page`.
pub open spec fn entry_links_done<E: PageTableEntry>(
    before: Frames,
    after: Frames,
    page: u64,
    n: nat,
    base: int,
    i: int,
    attributes: u64,
) -> bool {
    forall|va: int|
        entry_base(n, base, i) <= va < entry_base(n, base, i) + entry_size(n) ==> continued(
            link_attributes::<E>(before, page, n, base, va),
            #[trigger] link_attributes::<E>(after, page, n, base, va),
            attributes,
        )
}

/// Whether this holds for all addresses of the table in `page`.
pub open spec fn links_done<E: PageTableEntry>(
    before: Frames,
    after: Frames,
    root: u64,
    page: u64,
    n: nat,
    base: int,
    attributes: u64,
) -> bool {
    forall|va: int|
        base <= va < base + table_size(n) && !is_self_entry(root, page, entry_index(n, base, va))
            ==> continued(
            link_attributes::<E>(before, page, n, base, va),
            #[trigger] link_attributes::<E>(after, page, n, base, va),
            attributes,
        )
}

/// What is continued twice is continued.
pub proof fn lemma_continued(first: Seq<u64>, second: Seq<u64>, third: Seq<u64>, attributes: u64)
    requires
        continued(first, second, attributes),
        continued(second, third, attributes),
    ensures
        continued(first, third, attributes),
{
    assert forall|k: int| 0 <= k < second.len() implies #[trigger] third[k] == second[k] by {
        assert(third.take(second.len() as int)[k] == second[k]);
    }
    assert forall|k: int| 0 <= k < first.len() implies #[trigger] second[k] == first[k] by {
        assert(second.take(first.len() as int)[k] == first[k]);
    }
}

/// What is continued below an entry is continued from the entry on.
pub proof fn lemma_continued_below(first: u64, before: Seq<u64>, after: Seq<u64>, attributes: u64)
    requires
        continued(before, after, attributes),
    ensures
        continued(seq![first] + before, seq![first] + after, attributes),
        before.len() == 0 && first == attributes ==> continued(
            Seq::empty(),
            seq![first] + after,
            attributes,
        ),
{
    let whole = seq![first] + before;
    let whole_after = seq![first] + after;
    assert forall|k: int| 0 <= k < before.len() implies #[trigger] after[k] == before[k] by {
        assert(after.take(before.len() as int)[k] == before[k]);
    }
    assert forall|k: int| 0 <= k < whole.len() implies #[trigger] whole_after[k] == whole[k] by {
        if k > 0 {
            assert(whole[k] == before[k - 1]);
            assert(whole_after[k] == after[k - 1]);
        }
    }
    assert(whole_after.take(whole.len() as int) =~= whole);
    assert forall|k: int| whole.len() <= k < whole_after.len() implies #[trigger] whole_after[k]
        == attributes by {
        assert(whole_after[k] == after[k - 1]);
    }
    if before.len() == 0 && first == attributes {
        assert(whole_after.take(0) =~= Seq::<u64>::empty());
        assert forall|k: int| 0 <= k < whole_after.len() implies #[trigger] whole_after[k]
            == attributes by {
            if k > 0 {
                assert(whole_after[k] == after[k - 1]);
            }
        }
    }
}

/// Nothing changes where the memory is the same.
pub proof fn lemma_links_none<E: PageTableEntry>(
    frames: Frames,
    root: u64,
    page: u64,
    n: nat,
    base: int,
    attributes: u64,
)
    ensures
        links_done::<E>(frames, frames, root, page, n, base, attributes),
        forall|i: int| #[trigger]
            entry_links_done::<E>(frames, frames, page, n, base, i, attributes),
{
}

/// If two memories hold the same words on the way of `va`, then they hold the same entries for
/// tables there.
proof fn lemma_same_links<E: PageTableEntry>(
    before: Frames,
    after: Frames,
    places: Places,
    root: u64,
    page: u64,
    n: nat,
    base: int,
    va: int,
)
    requires
        in_tree::<E>(before, places, root, page, n, base),
        base <= va < base + table_size(n),
        !is_self_entry(root, page, entry_index(n, base, va)),
        forall|q: u64| #[trigger]
            places.contains_key(q) && places[q].level <= n && places[q].covers(va) ==> same_step(
                before,
                after,
                places,
                q,
                va,
            ),
    ensures
        link_attributes::<E>(after, page, n, base, va) == link_attributes::<E>(
            before,
            page,
            n,
            base,
            va,
        ),
    decreases n,
{
    let i = entry_index(n, base, va);
    lemma_entry_index(n, base, va);
    lemma_entry_within(n, base, i);
    assert(same_step(before, after, places, page, va));
    let word = word_at(before, page, i);
    E::lemma_word(word);
    if points_to_table::<E>(word, n) {
        assert(linked::<E>(before, places, root, page, i));
        lemma_same_links::<E>(
            before,
            after,
            places,
            root,
            E::next_address(word),
            (n - 1) as nat,
            entry_base(n, base, i),
            va,
        );
    }
}

/// An entry that points to no table before or after an edit.
pub proof fn lemma_links_in_one<E: PageTableEntry>(
    before: Frames,
    after: Frames,
    page: u64,
    n: nat,
    base: int,
    i: int,
    attributes: u64,
)
    requires
        1 <= n <= 5,
        0 <= i < 512,
        !points_to_table::<E>(word_at(before, page, i), n),
        !points_to_table::<E>(word_at(after, page, i), n),
    ensures
        entry_links_done::<E>(before, after, page, n, base, i, attributes),
{
    let low = entry_base(n, base, i);
    assert forall|va: int| low <= va < low + entry_size(n) implies continued(
        link_attributes::<E>(before, page, n, base, va),
        #[trigger] link_attributes::<E>(after, page, n, base, va),
        attributes,
    ) by {
        lemma_entry_base(n, base, i, va);
        assert(link_attributes::<E>(after, page, n, base, va) =~= Seq::<u64>::empty());
    }
}

/// An entry that points to a table, or was pointed at one just before, with the given attributes.
pub proof fn lemma_links_below<E: PageTableEntry>(
    before: Frames,
    linked_frames: Frames,
    after: Frames,
    root: u64,
    page: u64,
    n: nat,
    base: int,
    i: int,
    attributes: u64,
    extended: bool,
)
    requires
        2 <= n <= 5,
        0 <= i < 512,
        points_to_table::<E>(word_at(linked_frames, page, i), n),
        word_at(after, page, i) == word_at(linked_frames, page, i),
        E::next_address(word_at(linked_frames, page, i)) != root,
        links_done::<E>(
            linked_frames,
            after,
            root,
            E::next_address(word_at(linked_frames, page, i)),
            (n - 1) as nat,
            entry_base(n, base, i),
            attributes,
        ),
        !extended ==> linked_frames == before,
        extended ==> {
            &&& !points_to_table::<E>(word_at(before, page, i), n)
            &&& E::attributes(word_at(linked_frames, page, i)) == attributes
            &&& pieces_of::<E>(
                words_of(linked_frames, E::next_address(word_at(linked_frames, page, i))),
                word_at(before, page, i),
                n,
            )
        },
    ensures
        entry_links_done::<E>(before, after, page, n, base, i, attributes),
{
    let low = entry_base(n, base, i);
    let word = word_at(linked_frames, page, i);
    let next = E::next_address(word);
    let m = (n - 1) as nat;
    lemma_entry_within(n, base, i);
    assert forall|va: int| low <= va < low + entry_size(n) implies continued(
        link_attributes::<E>(before, page, n, base, va),
        #[trigger] link_attributes::<E>(after, page, n, base, va),
        attributes,
    ) by {
        lemma_entry_base(n, base, i, va);
        lemma_entry_index(m, low, va);
        let below = link_attributes::<E>(linked_frames, next, m, low, va);
        let below_after = link_attributes::<E>(after, next, m, low, va);
        assert(continued(below, below_after, attributes));
        lemma_continued_below(E::attributes(word), below, below_after, attributes);
        if extended {
            let j = entry_index(m, low, va);
            let piece = words_of(linked_frames, next)[j];
            assert(word_at(linked_frames, next, j) == piece);
            assert(!points_to_table::<E>(piece, m));
        }
    }
}

/// What holds for the entries so far holds for one more after it was edited.
pub proof fn lemma_links_step<E: PageTableEntry>(
    before: Frames,
    between: Frames,
    after: Frames,
    places_between: Places,
    root: u64,
    page: u64,
    n: nat,
    base: int,
    i: int,
    attributes: u64,
)
    requires
        in_tree::<E>(between, places_between, root, page, n, base),
        0 <= i < 512,
        links_done::<E>(before, between, root, page, n, base, attributes),
        entry_links_done::<E>(between, after, page, n, base, i, attributes),
        confined(between, after, places_between, page, i),
    ensures
        links_done::<E>(before, after, root, page, n, base, attributes),
{
    let low = entry_base(n, base, i);
    assert forall|va: int|
        base <= va < base + table_size(n) && !is_self_entry(
            root,
            page,
            entry_index(n, base, va),
        ) implies continued(
        link_attributes::<E>(before, page, n, base, va),
        #[trigger] link_attributes::<E>(after, page, n, base, va),
        attributes,
    ) by {
        let middle = link_attributes::<E>(between, page, n, base, va);
        if low <= va < low + entry_size(n) {
            lemma_continued(
                link_attributes::<E>(before, page, n, base, va),
                middle,
                link_attributes::<E>(after, page, n, base, va),
                attributes,
            );
        } else {
            lemma_entry_index(n, base, va);
            assert forall|q: u64| #[trigger]
                places_between.contains_key(q) && places_between[q].level <= n
                    && places_between[q].covers(va) implies same_step(
                between,
                after,
                places_between,
                q,
                va,
            ) by {
                if q == page {
                    assert(entry_index(n, base, va) != i);
                }
            }
            lemma_same_links::<E>(between, after, places_between, root, page, n, base, va);
        }
    }
}

} // verus!
