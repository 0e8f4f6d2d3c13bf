//! What a page table means: the translation of addresses by a walk through the tables.
use vstd::prelude::*;
use crate::arch::PageTableEntry;
use crate::attributes::{read_protected, MemoryAttributes};
use crate::links::{continued, lemma_continued_below, link_attributes};
use crate::memory::{whole_pages, word_at, words_of};
use crate::structs::{
    aligned, entry_base, entry_index, entry_size, lemma_entry_base, lemma_entry_index,
    lemma_entry_within, table_size,
};

verus! {

/// The contents of the pages that hold tables.
pub type Frames = Map<u64, Seq<u64>>;

/// Where a leaf entry sends an address, and with which attributes.
pub struct Leaf {
    pub pa: int,
    pub attributes: u64,
}

/// The outcome of a walk through the tables.
pub struct Walk {
    /// The restrictions of all table entries on the way.
    pub restrictions: u64,
    /// The leaf at the end, if there is one.
    pub leaf: Option<Leaf>,
}

impl Walk {
    /// The attributes in force for the address, if it is mapped.
    pub open spec fn effective(self) -> Option<u64> {
        match self.leaf {
            Some(leaf) => Some(leaf.attributes | self.restrictions),
            None => None,
        }
    }
}

/// The physical address `x`, less what lies within one entry at depth `n`.
pub open spec fn round_down(n: nat, x: int) -> int {
    if n <= 1 {
        x - x % 0x1000
    } else if n == 2 {
        x - x % 0x20_0000
    } else {
        x - x % 0x4000_0000
    }
}

/// The leaf that a word at depth `n` is, for an address `distance` bytes into the entry.
pub open spec fn leaf_of<E: PageTableEntry>(word: u64, n: nat, distance: int) -> Leaf {
    Leaf {
        pa: round_down(n, E::next_address(word) as int) + distance,
        attributes: E::attributes(word),
    }
}

/// Whether a word in a table at depth `n` points to a table.
pub open spec fn points_to_table<E: PageTableEntry>(word: u64, n: nat) -> bool {
    E::present(word) && !E::leaf(word, n)
}

/// Whether a word points to a table at whatever depth it is read, as it is through the self map.
pub open spec fn always_table<E: PageTableEntry>(word: u64) -> bool {
    E::present(word) && forall|k: nat| k >= 2 ==> !E::leaf(word, k)
}

/// The walk for the address `va` from the table in `page`, which is at depth `n` and covers
/// addresses from `base` on.
pub open spec fn walk<E: PageTableEntry>(
    frames: Frames,
    page: u64,
    n: nat,
    base: int,
    va: int,
) -> Walk
    decreases n,
{
    let i = entry_index(n, base, va);
    let word = word_at(frames, page, i);
    if n == 0 || !E::present(word) {
        Walk { restrictions: 0, leaf: None }
    } else if E::leaf(word, n) {
        Walk {
            restrictions: 0,
            leaf: Some(leaf_of::<E>(word, n, va - entry_base(n, base, i))),
        }
    } else {
        let below = walk::<E>(
            frames,
            E::next_address(word),
            (n - 1) as nat,
            entry_base(n, base, i),
            va,
        );
        Walk { restrictions: E::restrictions(word) | below.restrictions, leaf: below.leaf }
    }
}

/// The depth of a table, and the first address that it covers.
pub struct Place {
    pub level: nat,
    pub base: int,
}

impl Place {
    /// Whether the table at this place covers `va`.
    pub open spec fn covers(self, va: int) -> bool {
        self.base <= va < self.base + table_size(self.level)
    }

    /// Whether everything that the table at this place covers lies in a range.
    pub open spec fn within(self, low: int, high: int) -> bool {
        low <= self.base && self.base + table_size(self.level) <= high
    }
}

/// The places of the tables of a page table.
pub type Places = Map<u64, Place>;

/// Whether every table of `places` still is at its place in `after`.
pub open spec fn kept(places: Places, after: Places) -> bool {
    forall|p: u64| #[trigger]
        places.contains_key(p) ==> after.contains_key(p) && after[p] == places[p]
}

/// The entry that the page table keeps for itself.
pub open spec fn is_self_entry(root: u64, page: u64, i: int) -> bool {
    page == root && i == 0x1FE
}

/// Entry `i` of `page`, if it points to a table, points to the table for what it covers.
pub open spec fn linked<E: PageTableEntry>(
    frames: Frames,
    places: Places,
    root: u64,
    page: u64,
    i: int,
) -> bool {
    places.contains_key(page) && 0 <= i < 512 && !is_self_entry(root, page, i) ==> {
        let word = word_at(frames, page, i);
        let n = places[page].level;
        points_to_table::<E>(word, n) ==> {
            &&& always_table::<E>(word)
            &&& places.contains_key(E::next_address(word))
            &&& places[E::next_address(word)] == (Place {
                level: (n - 1) as nat,
                base: entry_base(n, places[page].base, i),
            })
        }
    }
}

/// The tables form a tree: every table has one place, and every entry that points to a
/// table, but for the self map, points to the table for its own addresses.
pub open spec fn is_tree<E: PageTableEntry>(frames: Frames, places: Places, root: u64) -> bool {
    &&& whole_pages(frames)
    &&& places.contains_key(root)
    &&& forall|p: u64| #[trigger]
        places.contains_key(p) ==> frames.contains_key(p) && 1 <= places[p].level <= 5
    &&& forall|p: u64, i: int| #[trigger] linked::<E>(frames, places, root, p, i)
}

/// Whether `page` holds the table at depth `n` for addresses from `base` on, in a tree.
pub open spec fn in_tree<E: PageTableEntry>(
    frames: Frames,
    places: Places,
    root: u64,
    page: u64,
    n: nat,
    base: int,
) -> bool {
    &&& is_tree::<E>(frames, places, root)
    &&& places.contains_key(page)
    &&& places[page] == Place { level: n, base }
    &&& n <= places[root].level
}

/// Whether, of the tables in `places`, only entry `i` of `page` and tables below that entry
/// differ between two memories.
pub open spec fn confined(
    before: Frames,
    after: Frames,
    places: Places,
    page: u64,
    i: int,
) -> bool {
    let n = places[page].level;
    let low = entry_base(n, places[page].base, i);
    &&& forall|q: u64| #[trigger]
        places.contains_key(q) && q != page && !(places[q].level < n && places[q].within(
            low,
            low + entry_size(n),
        )) ==> after.contains_key(q) && after[q] == before[q]
    &&& forall|j: int|
        0 <= j < 512 && j != i ==> #[trigger] word_at(after, page, j) == word_at(before, page, j)
}

/// Whether, of the tables in `places`, only `page` and tables below it differ between two
/// memories.
pub open spec fn confined_below(before: Frames, after: Frames, places: Places, page: u64) -> bool {
    let n = places[page].level;
    let low = places[page].base;
    forall|q: u64| #[trigger]
        places.contains_key(q) && !(places[q].level <= n && places[q].within(
            low,
            low + table_size(n),
        )) ==> after.contains_key(q) && after[q] == before[q]
}

/// Whether the two memories hold the same word on the way of `va` through the table `q`.
pub open spec fn same_step(
    before: Frames,
    after: Frames,
    places: Places,
    q: u64,
    va: int,
) -> bool {
    let i = entry_index(places[q].level, places[q].base, va);
    word_at(after, q, i) == word_at(before, q, i)
}

/// The addresses that the last entry on the way of an address covers: the first of them, and
/// the depth of the entry.
pub struct Extent {
    pub low: int,
    pub level: nat,
}

/// The extent of the entry at which the walk for `va` ends.
pub open spec fn extent<E: PageTableEntry>(
    frames: Frames,
    page: u64,
    n: nat,
    base: int,
    va: int,
) -> Extent
    decreases n,
{
    let i = entry_index(n, base, va);
    let word = word_at(frames, page, i);
    if n > 1 && points_to_table::<E>(word, n) {
        extent::<E>(frames, E::next_address(word), (n - 1) as nat, entry_base(n, base, i), va)
    } else {
        Extent { low: entry_base(n, base, i), level: n }
    }
}

/// How an edit changes the translation of an address.
#[derive(Clone, Copy, Debug, PartialEq, Eq, Structural)]
pub enum Edit {
    /// The address is mapped to itself.
    Mapping { attributes: MemoryAttributes },
    /// The address is not mapped any more.
    Removal,
}

/// An edit of the addresses from `start` up to `end`.
#[derive(Clone, Copy, Debug, PartialEq, Eq, Structural)]
pub struct EditJob {
    pub edit: Edit,
    pub start: u64,
    pub end: u64,
    /// What has to be added to an address for its canonical form.
    pub offset: u64,
}

impl EditJob {
    /// The range is made of whole pages, the offset keeps the alignment of every leaf, and
    /// an entry can hold the attributes.
    pub open spec fn wf<E: PageTableEntry>(self) -> bool {
        &&& self.start < self.end
        &&& self.start % 0x1000 == 0
        &&& self.end % 0x1000 == 0
        &&& self.offset % 0x4000_0000 == 0
        &&& match self.edit {
            Edit::Mapping { attributes } => E::supported(attributes.bits),
            Edit::Removal => true,
        }
    }

    /// The leaf that the edit gives to `va`.
    pub open spec fn target<E: PageTableEntry>(self, va: int) -> Option<Leaf> {
        match self.edit {
            Edit::Mapping { attributes } => if read_protected(attributes.bits) {
                None
            } else {
                Some(
                    Leaf {
                        pa: (self.offset + va) % E::address_limit(),
                        attributes: E::stored(attributes.bits),
                    },
                )
            },
            Edit::Removal => None,
        }
    }

    /// The walk for `va` once the edit is done for the addresses below `cut`.
    pub open spec fn edited<E: PageTableEntry>(self, walk: Walk, va: int, cut: int) -> Walk {
        if self.start <= va < cut {
            Walk { restrictions: walk.restrictions, leaf: self.target::<E>(va) }
        } else {
            walk
        }
    }

    /// Whether the range holds everything from `low` up to `high`.
    pub open spec fn spans(self, low: int, high: int) -> bool {
        self.start <= low && high <= self.end
    }

    /// Whether the range holds anything from `low` up to `high`.
    pub open spec fn touches(self, low: int, high: int) -> bool {
        self.start < high && low < self.end
    }

    /// Whether an entry at depth `n` that covers addresses from `low` on, and does not point to
    /// a table, already is as the edit wants it.
    pub open spec fn matched<E: PageTableEntry>(self, word: u64, n: nat, low: int) -> bool {
        match self.edit {
            Edit::Mapping { attributes } => E::present(word) && E::attributes(word) == E::stored(
                attributes.bits,
            ) && round_down(n, E::next_address(word) as int) == (self.offset + low)
                % E::address_limit(),
            Edit::Removal => !E::present(word),
        }
    }

    /// Whether an entry at depth `n` that covers addresses from `low` on, and does not point to
    /// a table, can be edited without a table below it.
    pub open spec fn in_one<E: PageTableEntry>(self, word: u64, n: nat, low: int) -> bool {
        ||| n <= 3 && self.spans(low, low + entry_size(n))
        ||| self.matched::<E>(word, n, low)
    }

    /// Whether the edit at `va` needs no new table.
    pub open spec fn ready<E: PageTableEntry>(
        self,
        frames: Frames,
        page: u64,
        n: nat,
        base: int,
        va: int,
    ) -> bool
        decreases n,
    {
        let i = entry_index(n, base, va);
        let word = word_at(frames, page, i);
        let low = entry_base(n, base, i);
        if n == 0 {
            true
        } else if points_to_table::<E>(word, n) {
            self.ready::<E>(frames, E::next_address(word), (n - 1) as nat, low, va)
        } else {
            self.in_one::<E>(word, n, low)
        }
    }

    /// The extent of `va` in a table at depth `n` that was made for the edit.
    pub open spec fn new_extent(self, n: nat, base: int, va: int) -> Extent
        decreases n,
    {
        let low = entry_base(n, base, entry_index(n, base, va));
        if n <= 1 || !self.touches(low, low + entry_size(n)) || (n <= 3 && self.spans(
            low,
            low + entry_size(n),
        )) {
            Extent { low, level: n }
        } else {
            self.new_extent((n - 1) as nat, low, va)
        }
    }

    /// The extent of `va` after the edit: that of the entry before the edit, unless the edit
    /// changes a part of what the entry covers. Then there are new tables, down to entries that
    /// are edited as a whole or not at all.
    pub open spec fn extent_after<E: PageTableEntry>(
        self,
        frames: Frames,
        page: u64,
        n: nat,
        base: int,
        va: int,
    ) -> Extent
        decreases n,
    {
        let i = entry_index(n, base, va);
        let word = word_at(frames, page, i);
        let low = entry_base(n, base, i);
        if !self.touches(low, low + entry_size(n)) {
            extent::<E>(frames, page, n, base, va)
        } else if n > 1 && points_to_table::<E>(word, n) {
            self.extent_after::<E>(frames, E::next_address(word), (n - 1) as nat, low, va)
        } else if n <= 1 || self.in_one::<E>(word, n, low) {
            Extent { low, level: n }
        } else {
            self.new_extent((n - 1) as nat, low, va)
        }
    }
}

/// How far an edit has come: the places of all tables, and the first address that the edit
/// has not reached.
pub struct Progress {
    pub places: Places,
    pub cut: int,
}

/// Whether `job` is done for the addresses below `cut` in the table in `page`: the tables
/// still form a tree, only tables below `page` have changed, and every walk through the
/// table is as the edit wants it or as before.
pub open spec fn edit_done<E: PageTableEntry>(
    before: Frames,
    after: Frames,
    places: Places,
    places_after: Places,
    root: u64,
    page: u64,
    job: EditJob,
    cut: int,
) -> bool {
    let n = places[page].level;
    let base = places[page].base;
    &&& is_tree::<E>(after, places_after, root)
    &&& kept(places, places_after)
    &&& confined_below(before, after, places, page)
    &&& forall|j: int|
        0 <= j < 512 && !job.touches(
            entry_base(n, base, j),
            entry_base(n, base, j) + entry_size(n),
        ) ==> #[trigger] word_at(after, page, j) == word_at(before, page, j)
    &&& forall|va: int|
        base <= va < base + table_size(n) && !is_self_entry(root, page, entry_index(n, base, va))
            ==> #[trigger] walk::<E>(after, page, n, base, va) == job.edited::<E>(
            walk::<E>(before, page, n, base, va),
            va,
            cut,
        )
}

/// Whether `job` is done for the addresses below `cut` in entry `i` of the table in `page`.
pub open spec fn entry_edit_done<E: PageTableEntry>(
    before: Frames,
    after: Frames,
    places: Places,
    places_after: Places,
    root: u64,
    page: u64,
    i: int,
    job: EditJob,
    cut: int,
) -> bool {
    let n = places[page].level;
    let base = places[page].base;
    let low = entry_base(n, base, i);
    &&& is_tree::<E>(after, places_after, root)
    &&& kept(places, places_after)
    &&& confined(before, after, places, page, i)
    &&& forall|va: int|
        low <= va < low + entry_size(n) ==> #[trigger] walk::<E>(after, page, n, base, va)
            == job.edited::<E>(walk::<E>(before, page, n, base, va), va, cut)
}

/// Whether `job` needs no new table anywhere in entry `i` of the table in `page`.
pub open spec fn entry_ready<E: PageTableEntry>(
    frames: Frames,
    page: u64,
    n: nat,
    base: int,
    i: int,
    job: EditJob,
) -> bool {
    forall|va: int|
        job.start <= va < job.end && entry_base(n, base, i) <= va < entry_base(n, base, i)
            + entry_size(n) ==> #[trigger] job.ready::<E>(frames, page, n, base, va)
}

/// Whether `job` needs no new table anywhere in the table in `page`.
pub open spec fn all_ready<E: PageTableEntry>(
    frames: Frames,
    page: u64,
    n: nat,
    base: int,
    job: EditJob,
) -> bool {
    forall|va: int|
        job.start <= va < job.end && base <= va < base + table_size(n) ==> #[trigger] job.ready::<
            E,
        >(frames, page, n, base, va)
}

/// Whether the edit is done as to the sizes of entries, for the addresses of a table below
/// `position`, and not begun for the others.
pub open spec fn extents_until<E: PageTableEntry>(
    before: Frames,
    after: Frames,
    root: u64,
    page: u64,
    n: nat,
    base: int,
    job: EditJob,
    position: int,
) -> bool {
    forall|va: int|
        base <= va < base + table_size(n) && !is_self_entry(root, page, entry_index(n, base, va))
            ==> (#[trigger] extent::<E>(after, page, n, base, va)) == (if va < position {
            job.extent_after::<E>(before, page, n, base, va)
        } else {
            extent::<E>(before, page, n, base, va)
        }) && (va >= position ==> job.extent_after::<E>(after, page, n, base, va)
            == job.extent_after::<E>(before, page, n, base, va))
}

/// Whether the edit is done as to the sizes of entries, for all addresses of a table.
pub open spec fn extents_done<E: PageTableEntry>(
    before: Frames,
    after: Frames,
    root: u64,
    page: u64,
    n: nat,
    base: int,
    job: EditJob,
) -> bool {
    forall|va: int|
        base <= va < base + table_size(n) && !is_self_entry(root, page, entry_index(n, base, va))
            ==> #[trigger] extent::<E>(after, page, n, base, va) == job.extent_after::<E>(
            before,
            page,
            n,
            base,
            va,
        )
}

/// Whether the edit is done as to the sizes of entries, for the addresses of entry `i` of a
/// table.
pub open spec fn entry_extents_done<E: PageTableEntry>(
    before: Frames,
    after: Frames,
    page: u64,
    n: nat,
    base: int,
    i: int,
    job: EditJob,
) -> bool {
    forall|va: int|
        entry_base(n, base, i) <= va < entry_base(n, base, i) + entry_size(n)
            ==> #[trigger] extent::<E>(after, page, n, base, va) == job.extent_after::<E>(
            before,
            page,
            n,
            base,
            va,
        )
}

/// An address `distance` bytes into a leaf for itself is mapped to itself.
pub proof fn lemma_identity(n: nat, x: int, distance: int, limit: int)
    requires
        1 <= n <= 3,
        aligned(n, x),
        0 <= distance < entry_size(n),
        limit > 0,
        limit % 0x4000_0000 == 0,
    ensures
        round_down(n, x % limit) + distance == (x + distance) % limit,
{
    let s = entry_size(n);
    let t = limit / s;
    let q = x / limit;
    let r = x % limit;
    let k = r / s;
    assert(limit % s == 0 && x % s == 0) by {
        if n == 1 {
            assert(limit % 0x1000 == 0);
        } else if n == 2 {
            assert(limit % 0x20_0000 == 0);
        } else {
            assert(limit % 0x4000_0000 == 0);
        }
    }
    vstd::arithmetic::div_mod::lemma_fundamental_div_mod(limit, s);
    assert(t > 0) by (nonlinear_arith)
        requires
            limit == s * t,
            limit > 0,
            s > 0,
    ;
    vstd::arithmetic::div_mod::lemma_mod_mod(x, s, t);
    vstd::arithmetic::div_mod::lemma_fundamental_div_mod(r, s);
    vstd::arithmetic::div_mod::lemma_mod_bound(x, limit);
    assert(r + s <= limit) by (nonlinear_arith)
        requires
            limit == s * t,
            r == s * k,
            r < limit,
            s > 0,
    ;
    vstd::arithmetic::div_mod::lemma_fundamental_div_mod(x, limit);
    vstd::arithmetic::mul::lemma_mul_is_commutative(limit, q);
    vstd::arithmetic::div_mod::lemma_fundamental_div_mod_converse(
        x + distance,
        limit,
        q,
        r + distance,
    );
    assert(round_down(n, r) == r) by {
        if n == 1 {
            assert(r % 0x1000 == 0);
        } else if n == 2 {
            assert(r % 0x20_0000 == 0);
        } else {
            assert(r % 0x4000_0000 == 0);
        }
    }
}

/// An address stays aligned when a multiple of the largest leaf is added.
pub proof fn lemma_aligned_offset(n: nat, x: int, offset: int)
    requires
        1 <= n <= 3,
        aligned(n, x),
        offset % 0x4000_0000 == 0,
    ensures
        aligned(n, offset + x),
        (offset + x) % 0x1000 == 0,
{
    let q = offset / 0x4000_0000;
    assert(offset == q * 0x4000_0000);
    if n == 1 {
        assert((offset + x) % 0x1000 == 0);
    } else if n == 2 {
        assert((offset + x) % 0x20_0000 == 0);
    } else {
        assert((offset + x) % 0x4000_0000 == 0);
    }
}

/// If two memories hold the same words on the way of `va`, then the walk is the same.
pub proof fn lemma_same_walk<E: PageTableEntry>(
    before: Frames,
    after: Frames,
    places: Places,
    root: u64,
    page: u64,
    n: nat,
    base: int,
    va: int,
    job: EditJob,
)
    requires
        in_tree::<E>(before, places, root, page, n, base),
        base <= va < base + table_size(n),
        !is_self_entry(root, page, entry_index(n, base, va)),
        forall|q: u64| #[trigger]
            places.contains_key(q) && places[q].level <= n && places[q].covers(va) ==> same_step(
                before,
                after,
                places,
                q,
                va,
            ),
    ensures
        walk::<E>(after, page, n, base, va) == walk::<E>(before, page, n, base, va),
        extent::<E>(after, page, n, base, va) == extent::<E>(before, page, n, base, va),
        job.ready::<E>(after, page, n, base, va) == job.ready::<E>(before, page, n, base, va),
        job.extent_after::<E>(after, page, n, base, va) == job.extent_after::<E>(
            before,
            page,
            n,
            base,
            va,
        ),
    decreases n,
{
    let i = entry_index(n, base, va);
    lemma_entry_index(n, base, va);
    lemma_entry_within(n, base, i);
    assert(same_step(before, after, places, page, va));
    let word = word_at(before, page, i);
    E::lemma_word(word);
    if points_to_table::<E>(word, n) {
        assert(linked::<E>(before, places, root, page, i));
        let next = E::next_address(word);
        lemma_same_walk::<E>(
            before,
            after,
            places,
            root,
            next,
            (n - 1) as nat,
            entry_base(n, base, i),
            va,
            job,
        );
    }
}

/// A change that is confined to one entry leaves the walks through other entries alone.
pub proof fn lemma_confined_walk<E: PageTableEntry>(
    before: Frames,
    after: Frames,
    places: Places,
    root: u64,
    page: u64,
    n: nat,
    base: int,
    i: int,
    va: int,
    job: EditJob,
)
    requires
        in_tree::<E>(before, places, root, page, n, base),
        confined(before, after, places, page, i),
        0 <= i < 512,
        base <= va < base + table_size(n),
        !is_self_entry(root, page, entry_index(n, base, va)),
        !(entry_base(n, base, i) <= va < entry_base(n, base, i) + entry_size(n)),
    ensures
        walk::<E>(after, page, n, base, va) == walk::<E>(before, page, n, base, va),
        extent::<E>(after, page, n, base, va) == extent::<E>(before, page, n, base, va),
        job.ready::<E>(after, page, n, base, va) == job.ready::<E>(before, page, n, base, va),
        job.extent_after::<E>(after, page, n, base, va) == job.extent_after::<E>(
            before,
            page,
            n,
            base,
            va,
        ),
{
    lemma_entry_index(n, base, va);
    assert forall|q: u64| #[trigger]
        places.contains_key(q) && places[q].level <= n && places[q].covers(va) implies same_step(
        before,
        after,
        places,
        q,
        va,
    ) by {
        if q == page {
            assert(entry_index(n, base, va) != i);
        }
    }
    lemma_same_walk::<E>(before, after, places, root, page, n, base, va, job);
}

/// A word that is not for a table can be replaced by another such word.
pub proof fn lemma_set_word<E: PageTableEntry>(
    before: Frames,
    places: Places,
    root: u64,
    page: u64,
    n: nat,
    base: int,
    i: int,
    word: u64,
)
    requires
        in_tree::<E>(before, places, root, page, n, base),
        0 <= i < 512,
        !points_to_table::<E>(word_at(before, page, i), n),
        !points_to_table::<E>(word, n),
    ensures
        ({
            let after = before.insert(page, words_of(before, page).update(i, word));
            let low = entry_base(n, base, i);
            &&& is_tree::<E>(after, places, root)
            &&& confined(before, after, places, page, i)
            &&& forall|va: int|
                low <= va < low + entry_size(n) ==> #[trigger] walk::<E>(after, page, n, base, va)
                    == (Walk {
                    restrictions: 0,
                    leaf: if E::present(word) {
                        Some(leaf_of::<E>(word, n, va - low))
                    } else {
                        None
                    },
                })
            &&& forall|va: int|
                low <= va < low + entry_size(n) ==> (#[trigger] walk::<E>(
                    before,
                    page,
                    n,
                    base,
                    va,
                )).restrictions == 0
        }),
{
    let after = before.insert(page, words_of(before, page).update(i, word));
    let low = entry_base(n, base, i);
    assert forall|p: u64, j: int| #[trigger] linked::<E>(after, places, root, p, j) by {
        assert(linked::<E>(before, places, root, p, j));
    }
    assert forall|va: int| low <= va < low + entry_size(n) implies #[trigger] walk::<E>(
        after,
        page,
        n,
        base,
        va,
    ) == (Walk {
        restrictions: 0,
        leaf: if E::present(word) {
            Some(leaf_of::<E>(word, n, va - low))
        } else {
            None
        },
    }) by {
        lemma_entry_base(n, base, i, va);
    }
    assert forall|va: int| low <= va < low + entry_size(n) implies (#[trigger] walk::<E>(
        before,
        page,
        n,
        base,
        va,
    )).restrictions == 0 by {
        lemma_entry_base(n, base, i, va);
    }
}

/// An entry that is not for a table can be pointed at a new table without tables below it.
#[verifier::rlimit(30)]
pub proof fn lemma_link<E: PageTableEntry>(
    before: Frames,
    places: Places,
    root: u64,
    page: u64,
    n: nat,
    base: int,
    i: int,
    word: u64,
    words: Seq<u64>,
)
    requires
        in_tree::<E>(before, places, root, page, n, base),
        n >= 2,
        0 <= i < 512,
        !points_to_table::<E>(word_at(before, page, i), n),
        points_to_table::<E>(word, n),
        always_table::<E>(word),
        E::restrictions(word) == 0,
        !before.contains_key(E::next_address(word)),
        words.len() == 512,
        forall|j: int|
            0 <= j < 512 ==> !points_to_table::<E>(#[trigger] words[j], (n - 1) as nat),
    ensures
        ({
            let next = E::next_address(word);
            let low = entry_base(n, base, i);
            let m = (n - 1) as nat;
            let after = before.insert(next, words).insert(
                page,
                words_of(before, page).update(i, word),
            );
            let places_after = places.insert(next, Place { level: m, base: low });
            &&& is_tree::<E>(after, places_after, root)
            &&& confined(before, after, places, page, i)
            &&& !places.contains_key(next)
            &&& word_at(after, page, i) == word
            &&& forall|va: int|
                low <= va < low + entry_size(n) ==> #[trigger] walk::<E>(after, page, n, base, va)
                    == (Walk {
                    restrictions: 0,
                    leaf: if E::present(words[entry_index(m, low, va)]) {
                        Some(
                            leaf_of::<E>(
                                words[entry_index(m, low, va)],
                                m,
                                va - entry_base(m, low, entry_index(m, low, va)),
                            ),
                        )
                    } else {
                        None
                    },
                })
            &&& forall|va: int|
                low <= va < low + entry_size(n) ==> (#[trigger] walk::<E>(
                    before,
                    page,
                    n,
                    base,
                    va,
                )).restrictions == 0
        }),
{
    let next = E::next_address(word);
    let low = entry_base(n, base, i);
    let m = (n - 1) as nat;
    let after = before.insert(next, words).insert(page, words_of(before, page).update(i, word));
    let places_after = places.insert(next, Place { level: m, base: low });
    assert(next != page);
    assert(!places.contains_key(next));
    assert forall|p: u64, j: int| #[trigger] linked::<E>(after, places_after, root, p, j) by {
        assert(linked::<E>(before, places, root, p, j));
        if p == next && 0 <= j < 512 {
            assert(word_at(after, p, j) == words[j]);
        }
    }
    assert(0u64 | 0u64 == 0u64) by (bit_vector);
    assert forall|va: int| low <= va < low + entry_size(n) implies #[trigger] walk::<E>(
        after,
        page,
        n,
        base,
        va,
    ) == (Walk {
        restrictions: 0,
        leaf: if E::present(words[entry_index(m, low, va)]) {
            Some(
                leaf_of::<E>(
                    words[entry_index(m, low, va)],
                    m,
                    va - entry_base(m, low, entry_index(m, low, va)),
                ),
            )
        } else {
            None
        },
    }) by {
        lemma_entry_base(n, base, i, va);
        lemma_entry_within(n, base, i);
        lemma_entry_index(m, low, va);
        let k = entry_index(m, low, va);
        assert(!points_to_table::<E>(words[k], m));
        assert(word_at(after, next, k) == words[k]);
        reveal_with_fuel(walk, 3);
    }
    assert forall|va: int| low <= va < low + entry_size(n) implies (#[trigger] walk::<E>(
        before,
        page,
        n,
        base,
        va,
    )).restrictions == 0 by {
        lemma_entry_base(n, base, i, va);
    }
}

/// Whether the entries `words` of a table at depth `n - 1` together map what `word`, an entry
/// at depth `n`, maps.
pub open spec fn pieces_of<E: PageTableEntry>(words: Seq<u64>, word: u64, n: nat) -> bool {
    let m = (n - 1) as nat;
    &&& words.len() == 512
    &&& forall|j: int| #![trigger words[j]]
        0 <= j < 512 ==> if E::present(word) {
            &&& E::present(words[j])
            &&& E::leaf(words[j], m)
            &&& E::attributes(words[j]) == E::attributes(word)
            &&& E::next_address(words[j]) == entry_base(
                m,
                round_down(n, E::next_address(word) as int),
                j,
            )
        } else {
            !E::present(words[j])
        }
}

/// An entry that is not for a table can be pointed at a new table that maps the same.
#[verifier::rlimit(30)]
pub proof fn lemma_extend<E: PageTableEntry>(
    before: Frames,
    places: Places,
    root: u64,
    page: u64,
    n: nat,
    base: int,
    i: int,
    word: u64,
    words: Seq<u64>,
)
    requires
        in_tree::<E>(before, places, root, page, n, base),
        n >= 2,
        0 <= i < 512,
        !points_to_table::<E>(word_at(before, page, i), n),
        points_to_table::<E>(word, n),
        always_table::<E>(word),
        E::restrictions(word) == 0,
        !before.contains_key(E::next_address(word)),
        pieces_of::<E>(words, word_at(before, page, i), n),
    ensures
        ({
            let next = E::next_address(word);
            let low = entry_base(n, base, i);
            let after = before.insert(next, words).insert(
                page,
                words_of(before, page).update(i, word),
            );
            &&& !places.contains_key(next)
            &&& is_tree::<E>(
                after,
                places.insert(next, Place { level: (n - 1) as nat, base: low }),
                root,
            )
            &&& confined(before, after, places, page, i)
            &&& word_at(after, page, i) == word
            &&& forall|va: int|
                low <= va < low + entry_size(n) ==> #[trigger] walk::<E>(after, page, n, base, va)
                    == walk::<E>(before, page, n, base, va)
        }),
{
    let old_word = word_at(before, page, i);
    let next = E::next_address(word);
    let low = entry_base(n, base, i);
    let m = (n - 1) as nat;
    let after = before.insert(next, words).insert(page, words_of(before, page).update(i, word));
    E::lemma_word(old_word);
    assert forall|j: int| 0 <= j < 512 implies !points_to_table::<E>(#[trigger] words[j], m) by {}
    lemma_link::<E>(before, places, root, page, n, base, i, word, words);
    assert forall|va: int| low <= va < low + entry_size(n) implies #[trigger] walk::<E>(
        after,
        page,
        n,
        base,
        va,
    ) == walk::<E>(before, page, n, base, va) by {
        lemma_entry_base(n, base, i, va);
        lemma_entry_within(n, base, i);
        lemma_entry_index(m, low, va);
        let k = entry_index(m, low, va);
        let piece = words[k];
        if E::present(old_word) {
            let pa = round_down(n, E::next_address(old_word) as int);
            assert(round_down(m, entry_base(m, pa, k)) == entry_base(m, pa, k));
            assert(leaf_of::<E>(piece, m, va - entry_base(m, low, k)) == leaf_of::<E>(
                old_word,
                n,
                va - low,
            ));
        }
    }
}

/// A change below a table changes the walks through the entry that points to the table
/// just as it changes the walks through the table.
pub proof fn lemma_descend<E: PageTableEntry>(
    before: Frames,
    after: Frames,
    places: Places,
    root: u64,
    page: u64,
    n: nat,
    base: int,
    i: int,
)
    requires
        in_tree::<E>(before, places, root, page, n, base),
        0 <= i < 512,
        !is_self_entry(root, page, i),
        points_to_table::<E>(word_at(before, page, i), n),
        confined_below(before, after, places, E::next_address(word_at(before, page, i))),
    ensures
        ({
            let word = word_at(before, page, i);
            let next = E::next_address(word);
            let low = entry_base(n, base, i);
            let m = (n - 1) as nat;
            &&& n >= 2
            &&& table_size(m) == entry_size(n)
            &&& places.contains_key(next)
            &&& places[next] == (Place { level: m, base: low })
            &&& next != root
            &&& confined(before, after, places, page, i)
            &&& word_at(after, page, i) == word
            &&& forall|va: int|
                low <= va < low + entry_size(n) ==> {
                    &&& (#[trigger] walk::<E>(after, page, n, base, va)) == (Walk {
                        restrictions: E::restrictions(word) | walk::<E>(
                            after,
                            next,
                            m,
                            low,
                            va,
                        ).restrictions,
                        leaf: walk::<E>(after, next, m, low, va).leaf,
                    })
                    &&& walk::<E>(before, page, n, base, va) == (Walk {
                        restrictions: E::restrictions(word) | walk::<E>(
                            before,
                            next,
                            m,
                            low,
                            va,
                        ).restrictions,
                        leaf: walk::<E>(before, next, m, low, va).leaf,
                    })
                }
        }),
{
    let word = word_at(before, page, i);
    let next = E::next_address(word);
    let low = entry_base(n, base, i);
    let m = (n - 1) as nat;
    E::lemma_word(word);
    assert(linked::<E>(before, places, root, page, i));
    lemma_entry_within(n, base, i);
    assert(after.contains_key(page) && after[page] == before[page]);
    assert forall|va: int| low <= va < low + entry_size(n) implies {
        &&& (#[trigger] walk::<E>(after, page, n, base, va)) == (Walk {
            restrictions: E::restrictions(word) | walk::<E>(after, next, m, low, va).restrictions,
            leaf: walk::<E>(after, next, m, low, va).leaf,
        })
        &&& walk::<E>(before, page, n, base, va) == (Walk {
            restrictions: E::restrictions(word) | walk::<E>(before, next, m, low, va).restrictions,
            leaf: walk::<E>(before, next, m, low, va).leaf,
        })
    } by {
        lemma_entry_base(n, base, i, va);
    }
}

/// A leaf written for the whole of an entry edits what the entry covers.
#[verifier::rlimit(30)]
pub proof fn lemma_edit_leaf<E: PageTableEntry>(
    before: Frames,
    places: Places,
    root: u64,
    page: u64,
    n: nat,
    base: int,
    i: int,
    word: u64,
    job: EditJob,
)
    requires
        in_tree::<E>(before, places, root, page, n, base),
        job.wf::<E>(),
        0 <= i < 512,
        n <= 3,
        aligned(n, entry_base(n, base, i)),
        job.spans(entry_base(n, base, i), entry_base(n, base, i) + entry_size(n)),
        !points_to_table::<E>(word_at(before, page, i), n),
        E::present(word) ==> E::leaf(word, n),
        match job.edit {
            Edit::Mapping { attributes } => {
                &&& E::present(word) == !read_protected(attributes.bits)
                &&& E::attributes(word) == E::stored(attributes.bits)
                &&& E::next_address(word) == (job.offset + entry_base(n, base, i))
                    % E::address_limit()
            },
            Edit::Removal => !E::present(word),
        },
    ensures
        entry_edit_done::<E>(
            before,
            before.insert(page, words_of(before, page).update(i, word)),
            places,
            places,
            root,
            page,
            i,
            job,
            job.end as int,
        ),
{
    let after = before.insert(page, words_of(before, page).update(i, word));
    let low = entry_base(n, base, i);
    lemma_set_word::<E>(before, places, root, page, n, base, i, word);
    E::lemma_word(word);
    lemma_aligned_offset(n, low, job.offset as int);
    assert forall|va: int| low <= va < low + entry_size(n) implies #[trigger] walk::<E>(
        after,
        page,
        n,
        base,
        va,
    ) == job.edited::<E>(walk::<E>(before, page, n, base, va), va, job.end as int) by {
        lemma_identity(n, job.offset + low, va - low, E::address_limit());
    }
}

/// An entry that already is as the edit wants it can stay.
#[verifier::rlimit(30)]
pub proof fn lemma_edit_matched<E: PageTableEntry>(
    before: Frames,
    places: Places,
    root: u64,
    page: u64,
    n: nat,
    base: int,
    i: int,
    job: EditJob,
)
    requires
        in_tree::<E>(before, places, root, page, n, base),
        job.wf::<E>(),
        0 <= i < 512,
        aligned(n, entry_base(n, base, i)),
        !points_to_table::<E>(word_at(before, page, i), n),
        job.matched::<E>(word_at(before, page, i), n, entry_base(n, base, i)),
    ensures
        entry_edit_done::<E>(
            before,
            before,
            places,
            places,
            root,
            page,
            i,
            job,
            job.end as int,
        ),
{
    let low = entry_base(n, base, i);
    let word = word_at(before, page, i);
    E::lemma_word(word);
    match job.edit {
        Edit::Mapping { attributes } => {
            E::lemma_updated(word, attributes.bits, 0, true, 1);
            assert(n <= 3);
            lemma_aligned_offset(n, low, job.offset as int);
        },
        Edit::Removal => {},
    }
    assert forall|va: int| low <= va < low + entry_size(n) implies #[trigger] walk::<E>(
        before,
        page,
        n,
        base,
        va,
    ) == job.edited::<E>(walk::<E>(before, page, n, base, va), va, job.end as int) by {
        lemma_entry_base(n, base, i, va);
        if E::present(word) {
            lemma_identity(n, job.offset + low, va - low, E::address_limit());
        }
    }
}

/// An edit that has not begun has changed nothing.
pub proof fn lemma_edit_none<E: PageTableEntry>(
    before: Frames,
    places: Places,
    root: u64,
    page: u64,
    n: nat,
    base: int,
    i: int,
    job: EditJob,
)
    ensures
        in_tree::<E>(before, places, root, page, n, base) ==> entry_edit_done::<E>(
            before,
            before,
            places,
            places,
            root,
            page,
            i,
            job,
            entry_base(n, base, i),
        ),
{
}

/// An edit of the table that an entry points to edits what the entry covers, also when the
/// entry was pointed at the table just before.
#[verifier::rlimit(30)]
pub proof fn lemma_edit_below<E: PageTableEntry>(
    before: Frames,
    linked_frames: Frames,
    after: Frames,
    places: Places,
    places_linked: Places,
    places_after: Places,
    root: u64,
    page: u64,
    n: nat,
    base: int,
    i: int,
    job: EditJob,
    cut: int,
)
    requires
        in_tree::<E>(before, places, root, page, n, base),
        in_tree::<E>(linked_frames, places_linked, root, page, n, base),
        kept(places, places_linked),
        0 <= i < 512,
        !is_self_entry(root, page, i),
        confined(before, linked_frames, places, page, i),
        forall|va: int|
            entry_base(n, base, i) <= va < entry_base(n, base, i) + entry_size(n)
                ==> #[trigger] walk::<E>(linked_frames, page, n, base, va) == walk::<E>(
                before,
                page,
                n,
                base,
                va,
            ),
        points_to_table::<E>(word_at(linked_frames, page, i), n),
        edit_done::<E>(
            linked_frames,
            after,
            places_linked,
            places_after,
            root,
            E::next_address(word_at(linked_frames, page, i)),
            job,
            cut,
        ),
    ensures
        entry_edit_done::<E>(before, after, places, places_after, root, page, i, job, cut),
{
    let low = entry_base(n, base, i);
    let next = E::next_address(word_at(linked_frames, page, i));
    let m = (n - 1) as nat;
    lemma_descend::<E>(linked_frames, after, places_linked, root, page, n, base, i);
    assert forall|va: int| low <= va < low + entry_size(n) implies #[trigger] walk::<E>(
        after,
        page,
        n,
        base,
        va,
    ) == job.edited::<E>(walk::<E>(before, page, n, base, va), va, cut) by {
        assert(walk::<E>(after, next, m, low, va) == job.edited::<E>(
            walk::<E>(linked_frames, next, m, low, va),
            va,
            cut,
        ));
    }
    assert(confined(linked_frames, after, places_linked, page, i));
    assert(confined(before, after, places, page, i)) by {
        assert forall|q: u64| #[trigger]
            places.contains_key(q) && q != page && !(places[q].level < n && places[q].within(
                low,
                low + entry_size(n),
            )) implies after.contains_key(q) && after[q] == before[q] by {
            assert(places_linked.contains_key(q));
        }
        assert forall|j: int| 0 <= j < 512 && j != i implies #[trigger] word_at(after, page, j)
            == word_at(before, page, j) by {
            assert(word_at(linked_frames, page, j) == word_at(before, page, j));
        }
    }
}

/// An edit that has come to entry `i` of a table, and then is done for that entry up to
/// `cut`, is done for the table up to `cut`.
#[verifier::rlimit(30)]
pub proof fn lemma_edit_step<E: PageTableEntry>(
    before: Frames,
    between: Frames,
    after: Frames,
    places: Places,
    places_between: Places,
    places_after: Places,
    root: u64,
    page: u64,
    n: nat,
    base: int,
    i: int,
    job: EditJob,
    entry_cut: int,
    cut: int,
)
    requires
        in_tree::<E>(before, places, root, page, n, base),
        0 <= i < 512,
        edit_done::<E>(
            before,
            between,
            places,
            places_between,
            root,
            page,
            job,
            entry_base(n, base, i),
        ),
        entry_edit_done::<E>(
            between,
            after,
            places_between,
            places_after,
            root,
            page,
            i,
            job,
            entry_cut,
        ),
        job.touches(entry_base(n, base, i), entry_base(n, base, i) + entry_size(n)),
        entry_base(n, base, i) <= cut <= entry_base(n, base, i) + entry_size(n),
        cut == entry_cut || (cut == entry_base(n, base, i) + entry_size(n) && cut <= entry_cut),
    ensures
        edit_done::<E>(before, after, places, places_after, root, page, job, cut),
        forall|va: int|
            entry_base(n, base, i) + entry_size(n) <= va < base + table_size(n)
                && !is_self_entry(root, page, entry_index(n, base, va)) ==> #[trigger] job.ready::<
                E,
            >(after, page, n, base, va) == job.ready::<E>(between, page, n, base, va),
{
    let low = entry_base(n, base, i);
    lemma_entry_within(n, base, i);
    assert(places_between.contains_key(page) && places_between[page] == places[page]);
    assert(places_between.contains_key(root) && places_between[root] == places[root]);
    assert(confined_below(before, after, places, page)) by {
        assert forall|q: u64| #[trigger]
            places.contains_key(q) && !(places[q].level <= n && places[q].within(
                base,
                base + table_size(n),
            )) implies after.contains_key(q) && after[q] == before[q] by {
            assert(places_between.contains_key(q) && places_between[q] == places[q]);
        }
    }
    assert forall|j: int|
        0 <= j < 512 && !job.touches(
            entry_base(n, base, j),
            entry_base(n, base, j) + entry_size(n),
        ) implies #[trigger] word_at(after, page, j) == word_at(before, page, j) by {
        assert(j != i);
        assert(word_at(between, page, j) == word_at(before, page, j));
    }
    assert forall|va: int|
        base <= va < base + table_size(n) && !is_self_entry(
            root,
            page,
            entry_index(n, base, va),
        ) implies #[trigger] walk::<E>(after, page, n, base, va) == job.edited::<E>(
        walk::<E>(before, page, n, base, va),
        va,
        cut,
    ) by {
        if !(low <= va < low + entry_size(n)) {
            lemma_confined_walk::<E>(
                between,
                after,
                places_between,
                root,
                page,
                n,
                base,
                i,
                va,
                job,
            );
        }
        assert(walk::<E>(between, page, n, base, va) == job.edited::<E>(
            walk::<E>(before, page, n, base, va),
            va,
            low,
        ));
    }
    assert forall|va: int|
        low + entry_size(n) <= va < base + table_size(n) && !is_self_entry(
            root,
            page,
            entry_index(n, base, va),
        ) implies #[trigger] job.ready::<E>(after, page, n, base, va) == job.ready::<E>(
        between,
        page,
        n,
        base,
        va,
    ) by {
        lemma_confined_walk::<E>(between, after, places_between, root, page, n, base, i, va, job);
    }
}

/// An edit that needs no new table for an entry needs none in the table below the entry.
pub proof fn lemma_ready_below<E: PageTableEntry>(
    frames: Frames,
    page: u64,
    n: nat,
    base: int,
    i: int,
    job: EditJob,
)
    requires
        2 <= n <= 5,
        0 <= i < 512,
        points_to_table::<E>(word_at(frames, page, i), n),
        entry_ready::<E>(frames, page, n, base, i, job),
    ensures
        all_ready::<E>(
            frames,
            E::next_address(word_at(frames, page, i)),
            (n - 1) as nat,
            entry_base(n, base, i),
            job,
        ),
{
    let next = E::next_address(word_at(frames, page, i));
    let low = entry_base(n, base, i);
    let m = (n - 1) as nat;
    lemma_entry_within(n, base, i);
    assert forall|va: int|
        job.start <= va < job.end && low <= va < low + table_size(m) implies #[trigger] job.ready::<
        E,
    >(frames, next, m, low, va) by {
        lemma_entry_base(n, base, i, va);
        assert(job.ready::<E>(frames, page, n, base, va));
    }
}

/// Whether no table maps anything: every entry in use, but for the self map, points to a
/// table, restricts nothing, and has the given attributes.
pub open spec fn no_leaves<E: PageTableEntry>(
    frames: Frames,
    places: Places,
    root: u64,
    attributes: u64,
) -> bool {
    forall|p: u64, i: int|
        #![trigger word_at(frames, p, i)]
        places.contains_key(p) && 0 <= i < 512 && !is_self_entry(root, p, i) && E::present(
            word_at(frames, p, i),
        ) ==> points_to_table::<E>(word_at(frames, p, i), places[p].level) && E::restrictions(
            word_at(frames, p, i),
        ) == 0 && E::attributes(word_at(frames, p, i)) == attributes
}

/// Where no table maps anything, every walk ends without a leaf, by entries with the given
/// attributes.
pub proof fn lemma_no_leaves<E: PageTableEntry>(
    frames: Frames,
    places: Places,
    root: u64,
    page: u64,
    n: nat,
    base: int,
    va: int,
    attributes: u64,
)
    requires
        in_tree::<E>(frames, places, root, page, n, base),
        no_leaves::<E>(frames, places, root, attributes),
        base <= va < base + table_size(n),
        !is_self_entry(root, page, entry_index(n, base, va)),
    ensures
        walk::<E>(frames, page, n, base, va) == (Walk { restrictions: 0, leaf: None }),
        continued(
            Seq::empty(),
            link_attributes::<E>(frames, page, n, base, va),
            attributes,
        ),
    decreases n,
{
    let i = entry_index(n, base, va);
    let word = word_at(frames, page, i);
    lemma_entry_index(n, base, va);
    E::lemma_word(word);
    if E::present(word) {
        assert(linked::<E>(frames, places, root, page, i));
        lemma_entry_within(n, base, i);
        lemma_no_leaves::<E>(
            frames,
            places,
            root,
            E::next_address(word),
            (n - 1) as nat,
            entry_base(n, base, i),
            va,
            attributes,
        );
        assert(0u64 | 0u64 == 0u64) by (bit_vector);
        lemma_continued_below(
            attributes,
            Seq::empty(),
            link_attributes::<E>(
                frames,
                E::next_address(word),
                (n - 1) as nat,
                entry_base(n, base, i),
                va,
            ),
            attributes,
        );
    } else {
        assert(link_attributes::<E>(frames, page, n, base, va) =~= Seq::<u64>::empty());
    }
}

/// Whether two walks end in the same way: with the same restrictions, and without a leaf or
/// in the same leaf, `distance` bytes apart.
pub open spec fn same_end(first: Walk, second: Walk, distance: int) -> bool {
    &&& first.restrictions == second.restrictions
    &&& match (first.leaf, second.leaf) {
        (Some(a), Some(b)) => a.attributes == b.attributes && b.pa == a.pa + distance,
        (None, None) => true,
        _ => false,
    }
}

/// All addresses of an extent are translated alike.
#[verifier::rlimit(30)]
pub proof fn lemma_extent<E: PageTableEntry>(
    frames: Frames,
    page: u64,
    n: nat,
    base: int,
    va: int,
)
    requires
        1 <= n <= 5,
        base <= va < base + table_size(n),
    ensures
        ({
            let x = extent::<E>(frames, page, n, base, va);
            &&& 1 <= x.level <= n
            &&& base <= x.low <= va < x.low + entry_size(x.level) <= base + table_size(n)
            &&& aligned(n + 1, base) ==> aligned(x.level, x.low)
            &&& walk::<E>(frames, page, n, base, va).leaf is Some ==> x.level <= 3
            &&& forall|other: int|
                x.low <= other < x.low + entry_size(x.level) ==> extent::<E>(
                    frames,
                    page,
                    n,
                    base,
                    other,
                ) == x && same_end(
                    walk::<E>(frames, page, n, base, va),
                    #[trigger] walk::<E>(frames, page, n, base, other),
                    other - va,
                )
        }),
    decreases n,
{
    let i = entry_index(n, base, va);
    let word = word_at(frames, page, i);
    let low = entry_base(n, base, i);
    let x = extent::<E>(frames, page, n, base, va);
    lemma_entry_index(n, base, va);
    lemma_entry_within(n, base, i);
    E::lemma_word(word);
    if n > 1 && points_to_table::<E>(word, n) {
        lemma_extent::<E>(frames, E::next_address(word), (n - 1) as nat, low, va);
        assert forall|other: int| x.low <= other < x.low + entry_size(x.level) implies extent::<E>(
            frames,
            page,
            n,
            base,
            other,
        ) == x && same_end(
            walk::<E>(frames, page, n, base, va),
            #[trigger] walk::<E>(frames, page, n, base, other),
            other - va,
        ) by {
            lemma_entry_base(n, base, i, other);
            assert(same_end(
                walk::<E>(frames, E::next_address(word), (n - 1) as nat, low, va),
                walk::<E>(frames, E::next_address(word), (n - 1) as nat, low, other),
                other - va,
            ));
        }
    } else {
        assert forall|other: int| x.low <= other < x.low + entry_size(x.level) implies extent::<E>(
            frames,
            page,
            n,
            base,
            other,
        ) == x && same_end(
            walk::<E>(frames, page, n, base, va),
            #[trigger] walk::<E>(frames, page, n, base, other),
            other - va,
        ) by {
            lemma_entry_base(n, base, i, other);
        }
    }
}

/// An entry that is edited in one piece keeps its size.
pub proof fn lemma_extents_in_one<E: PageTableEntry>(
    before: Frames,
    after: Frames,
    page: u64,
    n: nat,
    base: int,
    i: int,
    job: EditJob,
)
    requires
        1 <= n <= 5,
        0 <= i < 512,
        job.touches(entry_base(n, base, i), entry_base(n, base, i) + entry_size(n)),
        !points_to_table::<E>(word_at(before, page, i), n),
        !points_to_table::<E>(word_at(after, page, i), n),
        job.in_one::<E>(word_at(before, page, i), n, entry_base(n, base, i)),
    ensures
        entry_extents_done::<E>(before, after, page, n, base, i, job),
{
    let low = entry_base(n, base, i);
    assert forall|va: int| low <= va < low + entry_size(n) implies #[trigger] extent::<E>(
        after,
        page,
        n,
        base,
        va,
    ) == job.extent_after::<E>(before, page, n, base, va) by {
        lemma_entry_base(n, base, i, va);
    }
}

/// In a table made of the pieces of an entry that is not as the edit wants it, no entry is.
#[verifier::rlimit(30)]
pub proof fn lemma_pieces_unmatched<E: PageTableEntry>(
    words: Seq<u64>,
    word: u64,
    n: nat,
    low: int,
    job: EditJob,
    j: int,
)
    requires
        2 <= n <= 5,
        aligned(n, low),
        job.wf::<E>(),
        pieces_of::<E>(words, word, n),
        !points_to_table::<E>(word, n),
        !job.matched::<E>(word, n, low),
        0 <= j < 512,
    ensures
        !points_to_table::<E>(words[j], (n - 1) as nat),
        !job.matched::<E>(words[j], (n - 1) as nat, entry_base((n - 1) as nat, low, j)),
{
    let m = (n - 1) as nat;
    let piece = words[j];
    let piece_low = entry_base(m, low, j);
    E::lemma_word(word);
    E::lemma_word(piece);
    lemma_entry_within(m, low, j);
    if job.edit is Mapping && E::present(word) {
        let limit = E::address_limit();
        let x = job.offset + low;
        let pa = round_down(n, E::next_address(word) as int);
        lemma_aligned_offset(n, low, job.offset as int);
        lemma_identity(n, x, 0, limit);
        lemma_identity(n, x, piece_low - low, limit);
        assert(round_down(m, entry_base(m, pa, j)) == entry_base(m, pa, j));
    }
}

/// In a table made of the pieces of an entry that is not as the edit wants it, the edit alone
/// decides on the sizes of entries.
pub proof fn lemma_new_extent<E: PageTableEntry>(
    frames: Frames,
    next: u64,
    word: u64,
    n: nat,
    low: int,
    job: EditJob,
    va: int,
)
    requires
        2 <= n <= 5,
        aligned(n, low),
        job.wf::<E>(),
        pieces_of::<E>(words_of(frames, next), word, n),
        !points_to_table::<E>(word, n),
        !job.matched::<E>(word, n, low),
        low <= va < low + entry_size(n),
    ensures
        job.extent_after::<E>(frames, next, (n - 1) as nat, low, va) == job.new_extent(
            (n - 1) as nat,
            low,
            va,
        ),
{
    let m = (n - 1) as nat;
    let j = entry_index(m, low, va);
    lemma_entry_index(m, low, va);
    lemma_pieces_unmatched::<E>(words_of(frames, next), word, n, low, job, j);
    assert(word_at(frames, next, j) == words_of(frames, next)[j]);
}

/// An edit of the table that an entry points to gives the entries below the sizes that the edit
/// calls for, also when the entry was pointed at the table just before.
#[verifier::rlimit(30)]
pub proof fn lemma_extents_below<E: PageTableEntry>(
    before: Frames,
    linked_frames: Frames,
    after: Frames,
    root: u64,
    page: u64,
    n: nat,
    base: int,
    i: int,
    job: EditJob,
    extended: bool,
)
    requires
        2 <= n <= 5,
        0 <= i < 512,
        aligned(n, entry_base(n, base, i)),
        job.wf::<E>(),
        job.touches(entry_base(n, base, i), entry_base(n, base, i) + entry_size(n)),
        points_to_table::<E>(word_at(linked_frames, page, i), n),
        word_at(after, page, i) == word_at(linked_frames, page, i),
        E::next_address(word_at(linked_frames, page, i)) != root,
        extents_done::<E>(
            linked_frames,
            after,
            root,
            E::next_address(word_at(linked_frames, page, i)),
            (n - 1) as nat,
            entry_base(n, base, i),
            job,
        ),
        !extended ==> linked_frames == before,
        extended ==> !points_to_table::<E>(word_at(before, page, i), n) && !job.in_one::<E>(
            word_at(before, page, i),
            n,
            entry_base(n, base, i),
        ) && pieces_of::<E>(
            words_of(linked_frames, E::next_address(word_at(linked_frames, page, i))),
            word_at(before, page, i),
            n,
        ),
    ensures
        entry_extents_done::<E>(before, after, page, n, base, i, job),
{
    let low = entry_base(n, base, i);
    let next = E::next_address(word_at(linked_frames, page, i));
    let m = (n - 1) as nat;
    lemma_entry_within(n, base, i);
    assert forall|va: int| low <= va < low + entry_size(n) implies #[trigger] extent::<E>(
        after,
        page,
        n,
        base,
        va,
    ) == job.extent_after::<E>(before, page, n, base, va) by {
        lemma_entry_base(n, base, i, va);
        lemma_entry_index(m, low, va);
        assert(extent::<E>(after, page, n, base, va) == extent::<E>(after, next, m, low, va));
        assert(extent::<E>(after, next, m, low, va) == job.extent_after::<E>(
            linked_frames,
            next,
            m,
            low,
            va,
        ));
        if extended {
            lemma_new_extent::<E>(
                linked_frames,
                next,
                word_at(before, page, i),
                n,
                low,
                job,
                va,
            );
        }
    }
}

/// Sizes that are right up to an entry, and then for the entry, are right up to the next.
#[verifier::rlimit(30)]
pub proof fn lemma_extents_step<E: PageTableEntry>(
    before: Frames,
    between: Frames,
    after: Frames,
    places_between: Places,
    root: u64,
    page: u64,
    n: nat,
    base: int,
    i: int,
    job: EditJob,
)
    requires
        in_tree::<E>(between, places_between, root, page, n, base),
        0 <= i < 512,
        !is_self_entry(root, page, i),
        extents_until::<E>(before, between, root, page, n, base, job, entry_base(n, base, i)),
        entry_extents_done::<E>(between, after, page, n, base, i, job),
        confined(between, after, places_between, page, i),
    ensures
        extents_until::<E>(
            before,
            after,
            root,
            page,
            n,
            base,
            job,
            entry_base(n, base, i) + entry_size(n),
        ),
{
    let low = entry_base(n, base, i);
    let position = low + entry_size(n);
    assert forall|va: int|
        base <= va < base + table_size(n) && !is_self_entry(
            root,
            page,
            entry_index(n, base, va),
        ) implies (#[trigger] extent::<E>(after, page, n, base, va)) == (if va < position {
        job.extent_after::<E>(before, page, n, base, va)
    } else {
        extent::<E>(before, page, n, base, va)
    }) && (va >= position ==> job.extent_after::<E>(after, page, n, base, va)
        == job.extent_after::<E>(before, page, n, base, va)) by {
        let x = extent::<E>(between, page, n, base, va);
        if !(low <= va < position) {
            lemma_confined_walk::<E>(
                between,
                after,
                places_between,
                root,
                page,
                n,
                base,
                i,
                va,
                job,
            );
        }
    }
}

/// Before the first entry that an edit touches, sizes are right from the start.
pub proof fn lemma_extents_start<E: PageTableEntry>(
    before: Frames,
    root: u64,
    page: u64,
    n: nat,
    base: int,
    i: int,
    job: EditJob,
)
    requires
        1 <= n <= 5,
        0 <= i < 512,
        entry_base(n, base, i) <= job.start || i == 0,
    ensures
        extents_until::<E>(
            before,
            before,
            root,
            page,
            n,
            base,
            job,
            entry_base(n, base, i),
        ),
{
    assert forall|va: int|
        base <= va < base + table_size(n) && va < entry_base(
            n,
            base,
            i,
        ) implies #[trigger] extent::<E>(before, page, n, base, va) == job.extent_after::<E>(
        before,
        page,
        n,
        base,
        va,
    ) by {
        lemma_entry_index(n, base, va);
    }
}

/// After the last entry that an edit touches, sizes are right up to the end.
pub proof fn lemma_extents_end<E: PageTableEntry>(
    before: Frames,
    after: Frames,
    root: u64,
    page: u64,
    n: nat,
    base: int,
    i: int,
    job: EditJob,
)
    requires
        1 <= n <= 5,
        0 <= i <= 512,
        i == 512 || job.end <= entry_base(n, base, i),
        extents_until::<E>(before, after, root, page, n, base, job, entry_base(n, base, i)),
    ensures
        extents_done::<E>(before, after, root, page, n, base, job),
{
    assert forall|va: int|
        base <= va < base + table_size(n) && !is_self_entry(
            root,
            page,
            entry_index(n, base, va),
        ) implies #[trigger] extent::<E>(after, page, n, base, va) == job.extent_after::<E>(
        before,
        page,
        n,
        base,
        va,
    ) by {
        lemma_entry_index(n, base, va);
    }
}

/// Whether there is a table at depth `level` on the way of `va`.
pub open spec fn has_table<E: PageTableEntry>(
    frames: Frames,
    page: u64,
    n: nat,
    base: int,
    va: int,
    level: nat,
) -> bool
    decreases n,
{
    if n <= level {
        n == level
    } else {
        let i = entry_index(n, base, va);
        let word = word_at(frames, page, i);
        points_to_table::<E>(word, n) && has_table::<E>(
            frames,
            E::next_address(word),
            (n - 1) as nat,
            entry_base(n, base, i),
            va,
            level,
        )
    }
}

/// The page that holds the table at depth `level` on the way of `va`.
pub open spec fn table_at<E: PageTableEntry>(
    frames: Frames,
    page: u64,
    n: nat,
    base: int,
    va: int,
    level: nat,
) -> u64
    decreases n,
{
    if n <= level {
        page
    } else {
        let i = entry_index(n, base, va);
        table_at::<E>(
            frames,
            E::next_address(word_at(frames, page, i)),
            (n - 1) as nat,
            entry_base(n, base, i),
            va,
            level,
        )
    }
}

/// An edit of the table that an entry points to is an edit of the entry, also when the entry was
/// pointed at the table just before.
pub proof fn lemma_entry_of_table<E: PageTableEntry>(
    before: Frames,
    linked_frames: Frames,
    after: Frames,
    places: Places,
    places_linked: Places,
    progress: Progress,
    root: u64,
    page: u64,
    n: nat,
    base: int,
    i: int,
    job: EditJob,
    extended: bool,
    complete: bool,
)
    requires
        in_tree::<E>(before, places, root, page, n, base),
        in_tree::<E>(linked_frames, places_linked, root, page, n, base),
        kept(places, places_linked),
        0 <= i < 512,
        !is_self_entry(root, page, i),
        aligned(n + 1, base),
        job.wf::<E>(),
        job.touches(entry_base(n, base, i), entry_base(n, base, i) + entry_size(n)),
        points_to_table::<E>(word_at(linked_frames, page, i), n),
        edit_done::<E>(
            linked_frames,
            after,
            places_linked,
            progress.places,
            root,
            E::next_address(word_at(linked_frames, page, i)),
            job,
            progress.cut,
        ),
        complete ==> extents_done::<E>(
            linked_frames,
            after,
            root,
            E::next_address(word_at(linked_frames, page, i)),
            (n - 1) as nat,
            entry_base(n, base, i),
            job,
        ),
        !extended ==> linked_frames == before,
        extended ==> {
            &&& confined(before, linked_frames, places, page, i)
            &&& forall|va: int|
                entry_base(n, base, i) <= va < entry_base(n, base, i) + entry_size(n)
                    ==> #[trigger] walk::<E>(linked_frames, page, n, base, va) == walk::<E>(
                    before,
                    page,
                    n,
                    base,
                    va,
                )
            &&& !points_to_table::<E>(word_at(before, page, i), n)
            &&& !job.in_one::<E>(word_at(before, page, i), n, entry_base(n, base, i))
            &&& pieces_of::<E>(
                words_of(linked_frames, E::next_address(word_at(linked_frames, page, i))),
                word_at(before, page, i),
                n,
            )
        },
    ensures
        entry_edit_done::<E>(
            before,
            after,
            places,
            progress.places,
            root,
            page,
            i,
            job,
            progress.cut,
        ),
        complete ==> entry_extents_done::<E>(before, after, page, n, base, i, job),
{
    lemma_entry_within(n, base, i);
    lemma_edit_below::<E>(
        before,
        linked_frames,
        after,
        places,
        places_linked,
        progress.places,
        root,
        page,
        n,
        base,
        i,
        job,
        progress.cut,
    );
    lemma_descend::<E>(linked_frames, after, places_linked, root, page, n, base, i);
    if complete {
        lemma_extents_below::<E>(
            before,
            linked_frames,
            after,
            root,
            page,
            n,
            base,
            i,
            job,
            extended,
        );
    }
}

} // verus!
