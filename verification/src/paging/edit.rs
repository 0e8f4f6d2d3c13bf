//! Editing the tables: mapping and unmapping of ranges.
use vstd::prelude::*;
use crate::arch::{PageTableEntry, PageTableHal};
use crate::attributes::{read_protected, MemoryAttributes};
use crate::demand::{
    lemma_confined_demand, lemma_more_entries, lemma_new_tables, tables_below, tables_for_entry,
};
use crate::error::PtError;
use crate::journal::{
    at_place, lemma_place_kept, lemma_write_fits, op_fits, stays_at_place, written_above,
};
use crate::links::{
    lemma_links_below, lemma_links_in_one, lemma_links_none, lemma_links_step, links_done,
};
use crate::memory::{word_at, words_of, zero_words, MemoryOp};
use crate::page_allocator::{PageAllocator, Request};
use crate::paging::read::{entry_position, leaf_address};
use crate::paging::PageTableInternal;
use crate::structs::{
    aligned, entry_base, entry_size, lemma_entry_base, lemma_entry_index, lemma_entry_within,
    lemma_offset, table_size, PageLevel, PhysicalAddress, PAGE_SIZE, SIZE_1GB, SIZE_2MB,
};
use crate::tree::{
    all_ready, always_table, confined, edit_done, entry_ready, extents_until, is_self_entry,
    lemma_aligned_offset, lemma_edit_leaf, lemma_edit_matched, lemma_edit_none, lemma_edit_step,
    lemma_entry_of_table, lemma_extend, lemma_extents_end, lemma_extents_in_one,
    lemma_extents_start, lemma_extents_step, lemma_identity, lemma_link, lemma_ready_below,
    pieces_of, points_to_table, round_down, walk, Edit, EditJob, Place, Places, Progress,
};

verus! {

/// The word of an entry for the table at `page`, in place of `word`.
pub(crate) fn table_word<A: PageTableHal>(
    arch: &A,
    word: u64,
    page: u64,
    level: PageLevel,
) -> (r: u64)
    requires
        page % 0x1000 == 0,
        level.depth() >= 2,
    ensures
        r == A::PTE::updated(word, A::spec_default_attributes(), page, false, level.depth()),
        points_to_table::<A::PTE>(r, level.depth()),
        A::PTE::restrictions(r) == 0,
        A::PTE::next_address(r) == page as int % A::PTE::address_limit(),
        always_table::<A::PTE>(r),
        A::PTE::attributes(r) == A::spec_default_attributes(),
{
    let mut entry = A::PTE::from_word(word);
    proof {
        A::lemma_default_attributes(word, page, level.depth());
        A::PTE::lemma_updated(word, A::spec_default_attributes(), page, false, level.depth());
    }
    let result = entry.update_fields(
        arch.default_attributes(),
        PhysicalAddress::new(page),
        false,
        level,
    );
    assert(result is Ok);
    entry.to_word()
}

/// The word of an entry that maps the memory at `pa`, in place of `word`.
pub(crate) fn leaf_word<E: PageTableEntry>(
    word: u64,
    attributes: MemoryAttributes,
    pa: u64,
    level: PageLevel,
) -> (r: u64)
    requires
        pa % 0x1000 == 0,
        level.depth() <= 3,
        E::supported(attributes.bits),
    ensures
        r == E::updated(word, attributes.bits, pa, true, level.depth()),
        E::present(r) == !read_protected(attributes.bits),
        E::leaf(r, level.depth()),
        E::attributes(r) == E::stored(attributes.bits),
        E::next_address(r) == pa as int % E::address_limit(),
        read_protected(E::stored(attributes.bits)) == read_protected(attributes.bits),
{
    let mut entry = E::from_word(word);
    proof {
        E::lemma_updated(word, attributes.bits, pa, true, level.depth());
    }
    let result = entry.update_fields(attributes, PhysicalAddress::new(pa), true, level);
    assert(result is Ok);
    entry.to_word()
}

/// Whether `word`, the entry at `level` for addresses from `low` on, already is as `job`
/// wants it.
fn is_matched<E: PageTableEntry>(word: u64, level: PageLevel, low: u64, job: EditJob) -> (r: bool)
    requires
        job.wf::<E>(),
        job.offset + low < 0x1_0000_0000_0000_0000,
        aligned(level.depth(), low as int),
        E::present(word) ==> E::leaf(word, level.depth()),
    ensures
        r == job.matched::<E>(word, level.depth(), low as int),
{
    let entry = E::from_word(word);
    match job.edit {
        Edit::Mapping { attributes } => {
            proof {
                E::lemma_word(word);
            }
            if !entry.get_present_bit() {
                return false;
            }
            proof {
                lemma_aligned_offset(level.depth(), low as int, job.offset as int);
            }
            let wanted = E::from_word(
                leaf_word::<E>(word, attributes, job.offset + low, level),
            );
            proof {
                let limit = E::address_limit();
                lemma_identity(level.depth(), job.offset + low, 0, limit);
            }
            entry.get_attributes().bits == wanted.get_attributes().bits && leaf_address(
                level,
                entry.get_next_address().value,
            ) == leaf_address(level, wanted.get_next_address().value)
        },
        Edit::Removal => !entry.get_present_bit(),
    }
}

impl<P: PageAllocator> PageTableInternal<P> {
    /// Asks the allocator for a page for a table that is not the root.
    pub(crate) fn ask_page(&mut self) -> (r: Result<u64, PtError>)
        requires
            old(self).wf(),
        ensures
            final(self).wf(),
            final(self).same_setup(old(self)),
            final(self).spec_sound() == old(self).spec_sound(),
            final(self).spec_memory() == old(self).spec_memory(),
            final(self).frames() == old(self).frames(),
            final(self).requests() == old(self).requests().push(
                Request { is_root: false, answer: r, after: final(self).allocator() },
            ),
            old(self).allocator().may_answer(&final(self).allocator(), 0x1000, 0x1000, false, r),
    {
        let result = self.page_allocator.allocate_page(PAGE_SIZE, PAGE_SIZE, false);
        let ghost request = Request {
            is_root: false,
            answer: result,
            after: self.page_allocator,
        };
        self.requests = Ghost(self.requests@.push(request));
        result
    }

    /// Takes the page that the allocator handed out, if it did, for a table without
    /// entries.
    pub fn accept_page(&mut self, result: Result<u64, PtError>) -> (r: Result<u64, PtError>)
        requires
            old(self).wf(),
        ensures
            final(self).wf(),
            final(self).same_setup(old(self)),
            final(self).allocator() == old(self).allocator(),
            final(self).requests() == old(self).requests(),
            match result {
                Ok(page) => if page % 0x1000 == 0 {
                    &&& r == Ok::<u64, PtError>(page)
                    &&& final(self).frames() == old(self).frames().insert(page, zero_words())
                    &&& final(self).spec_sound() == (old(self).spec_sound()
                        && !old(self).frames().contains_key(page))
                    &&& final(self).spec_memory().journal() == old(
                        self,
                    ).spec_memory().journal().push(MemoryOp::ZeroPage { page })
                } else {
                    &&& r == Err::<u64, PtError>(PtError::UnalignedPageBase)
                    &&& *final(self) == *old(self)
                },
                Err(e) => r == Err::<u64, PtError>(e) && *final(self) == *old(self),
            },
    {
        match result {
            Ok(page) => {
                if page % PAGE_SIZE != 0 {
                    return Err(PtError::UnalignedPageBase);
                }
                if self.memory.contains(page) {
                    self.sound = false;
                }
                self.memory.zero_page(page);
                Ok(page)
            },
            Err(e) => Err(e),
        }
    }

    /// Fills the table in `next` with entries that together map what the leaf `word` maps, which
    /// is at `level` and covers addresses from `low` on.
    #[verifier::rlimit(40)]
    fn fill_table<A: PageTableHal>(
        &mut self,
        next: u64,
        word: u64,
        level: PageLevel,
        low: u64,
        offset: u64,
    ) -> (r: Ghost<Seq<u64>>)
        requires
            old(self).wf(),
            2 <= level.depth() <= 3,
            A::PTE::present(word),
            aligned(level.depth(), low as int),
            low + entry_size(level.depth()) <= old(self).spec_paging_type().space(),
            low + entry_size(level.depth()) + offset <= 0x1_0000_0000_0000_0000,
            offset as int % old(self).spec_paging_type().space() == 0,
            old(self).frames().contains_key(next),
        ensures
            final(self).wf(),
            final(self).same_setup(old(self)),
            final(self).spec_sound() == old(self).spec_sound(),
            final(self).allocator() == old(self).allocator(),
            final(self).requests() == old(self).requests(),
            final(self).frames() == old(self).frames().insert(next, r@),
            pieces_of::<A::PTE>(r@, word, level.depth()),
            final(self).has_logged(old(self)),
            stays_at_place::<A::PTE>(
                old(self).frames(),
                old(self).root(),
                old(self).spec_paging_type().levels(),
                next,
                (level.depth() - 1) as nat,
                low as int,
            ) ==> final(self).can_follow::<A>(old(self)),
            final(self).has_written_above(old(self), offset as int),
    {
        proof {
            A::PTE::lemma_word(word);
            self.memory.lemma_wf();
            self.lemma_follow_none::<A>(old(self));
        }
        let entry = A::PTE::from_word(word);
        let attributes = entry.get_attributes();
        let address: u64 = entry.get_next_address().value;
        let below: PageLevel = if let PageLevel::Level3 = level {
            PageLevel::Level2
        } else {
            PageLevel::Level1
        };
        let pa: u64 = if let PageLevel::Level3 = level {
            address - address % SIZE_1GB
        } else {
            address - address % SIZE_2MB
        };
        let step: u64 = below.entry_va_size();
        let ghost m = below.depth();
        let ghost limit = A::PTE::address_limit();
        let ghost root = self.root();
        let ghost paging_type = self.spec_paging_type();
        let ghost reached = stays_at_place::<A::PTE>(
            old(self).frames(),
            root,
            paging_type.levels(),
            next,
            m,
            low as int,
        );
        let mut words: Ghost<Seq<u64>> = Ghost(self.frames()[next]);
        let mut j: u64 = 0;
        let mut distance: u64 = 0;
        assert(self.frames() =~= self.frames().insert(next, words@));
        while j < 512
            invariant
                old(self).wf(),
                self.wf(),
                self.same_setup(old(self)),
                root == old(self).root(),
                paging_type == old(self).spec_paging_type(),
                self.spec_sound() == old(self).spec_sound(),
                self.allocator() == old(self).allocator(),
                self.requests() == old(self).requests(),
                self.frames() == old(self).frames().insert(next, words@),
                self.has_logged(old(self)),
                self.has_written_above(old(self), offset as int),
                reached ==> self.can_follow::<A>(old(self)),
                reached == stays_at_place::<A::PTE>(
                    old(self).frames(),
                    root,
                    paging_type.levels(),
                    next,
                    m,
                    low as int,
                ),
                words@.len() == 512,
                2 <= level.depth() <= 3,
                m == level.depth() - 1,
                m == below.depth(),
                step == entry_size(m),
                j <= 512,
                distance == entry_base(m, 0, j as int),
                aligned(level.depth(), low as int),
                low + entry_size(level.depth()) <= paging_type.space(),
                offset as int % paging_type.space() == 0,
                A::PTE::present(word),
                attributes.bits == A::PTE::attributes(word),
                !read_protected(attributes.bits),
                A::PTE::supported(attributes.bits),
                A::PTE::stored(attributes.bits) == attributes.bits,
                pa == round_down(level.depth(), A::PTE::next_address(word) as int),
                pa % 0x20_0000 == 0,
                limit == A::PTE::address_limit(),
                pa + entry_size(level.depth()) <= limit <= 0x8000_0000_0000_0000,
                low + entry_size(level.depth()) + offset <= 0x1_0000_0000_0000_0000,
                forall|k: int| #![trigger words@[k]]
                    0 <= k < j ==> {
                        &&& A::PTE::present(words@[k])
                        &&& A::PTE::leaf(words@[k], m)
                        &&& A::PTE::attributes(words@[k]) == A::PTE::attributes(word)
                        &&& A::PTE::next_address(words@[k]) == entry_base(m, pa as int, k)
                    },
            decreases 512 - j,
        {
            assert((pa + distance) % limit == pa + distance) by {
                vstd::arithmetic::div_mod::lemma_small_mod(
                    (pa + distance) as nat,
                    limit as nat,
                );
            }
            let filled: u64 = leaf_word::<A::PTE>(0, attributes, pa + distance, below);
            let ghost between = *self;
            let ghost before = words@;
            self.memory.write(next, j, filled, below, low + offset + distance);
            proof {
                words@ = words@.update(j as int, filled);
                let va = (low + offset + distance) as u64;
                let op = MemoryOp::WriteEntry {
                    table: next,
                    index: j,
                    word: filled,
                    level: below,
                    va,
                };
                lemma_offset(paging_type, offset as int, low + distance);
                self.lemma_follow_one::<A>(&between, op);
                assert(written_above(seq![op], paging_type, offset as int));
                if reached {
                    assert(at_place::<A::PTE>(
                        old(self).frames().insert(next, before),
                        root,
                        paging_type.levels(),
                        next,
                        m,
                        low as int,
                    ));
                    lemma_write_fits::<A::PTE>(
                        between.frames(),
                        root,
                        paging_type,
                        next,
                        low as int,
                        j,
                        filled,
                        below,
                        offset,
                        va,
                    );
                }
                self.lemma_follow::<A>(&between, old(self));
            }
            assert(self.frames() =~= old(self).frames().insert(next, words@));
            assert forall|k: int| #![trigger words@[k]] 0 <= k < j + 1 implies {
                &&& A::PTE::present(words@[k])
                &&& A::PTE::leaf(words@[k], m)
                &&& A::PTE::attributes(words@[k]) == A::PTE::attributes(word)
                &&& A::PTE::next_address(words@[k]) == entry_base(m, pa as int, k)
            } by {
                if k < j {
                    assert(words@[k] == before[k]);
                }
            }
            j = j + 1;
            distance = distance + step;
        }
        words
    }

    /// Points entry `index` of the table in `page` at a new table, which maps what the entry
    /// has mapped so far. `result` is what the allocator answered when asked for a page for
    /// the new table.
    #[verifier::rlimit(40)]
    pub fn extend_entry<A: PageTableHal>(
        &mut self,
        arch: &A,
        page: u64,
        level: PageLevel,
        index: u64,
        low: u64,
        offset: u64,
        result: Result<u64, PtError>,
        Ghost(places): Ghost<Places>,
        Ghost(base): Ghost<int>,
    ) -> (r: Result<u64, PtError>)
        requires
            old(self).wf(),
            level.depth() >= 2,
            index < 512,
            low == entry_base(level.depth(), base, index as int),
            aligned(level.depth() + 1, base),
            low + entry_size(level.depth()) <= old(self).spec_paging_type().space(),
            low + entry_size(level.depth()) + offset <= 0x1_0000_0000_0000_0000,
            offset as int % old(self).spec_paging_type().space() == 0,
        ensures
            final(self).wf(),
            final(self).same_setup(old(self)),
            final(self).allocator() == old(self).allocator(),
            final(self).requests() == old(self).requests(),
            final(self).has_logged(old(self)),
            final(self).has_written_above(old(self), offset as int),
            r == (match result {
                Ok(next) => if next % 0x1000 == 0 {
                    Ok::<u64, PtError>(next)
                } else {
                    Err::<u64, PtError>(PtError::UnalignedPageBase)
                },
                Err(e) => Err::<u64, PtError>(e),
            }),
            match r {
                Ok(next) => final(self).spec_sound() == (old(self).spec_sound() && !old(
                    self,
                ).frames().contains_key(next) && next < A::PTE::address_limit()),
                Err(_) => *final(self) == *old(self),
            },
            r matches Ok(next) ==> final(self).spec_sound() && old(self).holds::<A>(
                places,
                page,
                level.depth(),
                base,
            ) && !is_self_entry(old(self).root(), page, index as int) && !points_to_table::<A::PTE>(
                word_at(old(self).frames(), page, index as int),
                level.depth(),
            ) ==> {
                let n = level.depth();
                let word = word_at(final(self).frames(), page, index as int);
                let places_after = places.insert(
                    next,
                    Place { level: (n - 1) as nat, base: low as int },
                );
                &&& !places.contains_key(next)
                &&& final(self).holds::<A>(places_after, page, n, base)
                &&& final(self).holds::<A>(places_after, next, (n - 1) as nat, low as int)
                &&& final(self).can_follow::<A>(old(self))
                &&& confined(
                    old(self).frames(),
                    final(self).frames(),
                    places,
                    page,
                    index as int,
                )
                &&& points_to_table::<A::PTE>(word, n)
                &&& A::PTE::next_address(word) == next
                &&& A::PTE::restrictions(word) == 0
                &&& A::PTE::attributes(word) == A::spec_default_attributes()
                &&& final(self).frames().dom() == old(self).frames().dom().insert(next)
                &&& pieces_of::<A::PTE>(
                    words_of(final(self).frames(), next),
                    word_at(old(self).frames(), page, index as int),
                    n,
                )
                &&& forall|va: int|
                    low <= va < low + entry_size(n) ==> #[trigger] walk::<A::PTE>(
                        final(self).frames(),
                        page,
                        n,
                        base,
                        va,
                    ) == walk::<A::PTE>(old(self).frames(), page, n, base, va)
            },
    {
        let ghost n = level.depth();
        let ghost before = self.frames();
        let ghost holds = old(self).holds::<A>(places, page, n, base) && !is_self_entry(
            self.root(),
            page,
            index as int,
        ) && !points_to_table::<A::PTE>(word_at(before, page, index as int), n);
        let word: u64 = self.memory.read(page, index);
        let next: u64 = match self.accept_page(result) {
            Ok(next) => next,
            Err(e) => {
                proof {
                    self.lemma_follow_none::<A>(old(self));
                }
                return Err(e);
            },
        };
        let ghost cleared = *self;
        let entry = A::PTE::from_word(word);
        let linked: u64 = table_word::<A>(arch, word, next, level);
        proof {
            A::PTE::lemma_word(word);
            let limit = A::PTE::address_limit();
            if next < limit {
                vstd::arithmetic::div_mod::lemma_small_mod(next as nat, limit as nat);
            } else {
                vstd::arithmetic::div_mod::lemma_mod_bound(next as int, limit);
            }
            let op = MemoryOp::ZeroPage { page: next };
            self.lemma_follow_one::<A>(old(self), op);
            assert(written_above(seq![op], self.spec_paging_type(), offset as int));
            lemma_entry_within(n, base, index as int);
        }
        if A::PTE::from_word(linked).get_next_address().value != next {
            self.sound = false;
        }
        // The table is linked before it is filled, so that it can be reached through the self map.
        self.memory.write(page, index, linked, level, low + offset);
        let ghost written = *self;
        proof {
            let op = MemoryOp::WriteEntry {
                table: page,
                index,
                word: linked,
                level,
                va: (low + offset) as u64,
            };
            lemma_offset(self.spec_paging_type(), offset as int, low as int);
            written.lemma_follow_one::<A>(&cleared, op);
            assert(written_above(seq![op], self.spec_paging_type(), offset as int));
            written.lemma_follow::<A>(&cleared, old(self));
        }
        let mut words: Ghost<Seq<u64>> = Ghost(zero_words());
        if entry.get_present_bit() && entry.points_to_pa(level) {
            words = self.fill_table::<A>(next, word, level, low, offset);
            proof {
                self.lemma_follow::<A>(&written, old(self));
            }
        }
        assert(!points_to_table::<A::PTE>(word, n) ==> pieces_of::<A::PTE>(words@, word, n));
        proof {
            if self.spec_sound() && holds {
                assert(self.frames() =~= written.frames().insert(next, words@));
                self.lemma_extended::<A>(
                    old(self),
                    &cleared,
                    &written,
                    places,
                    page,
                    level,
                    base,
                    index,
                    low,
                    offset,
                    linked,
                    words@,
                );
                assert(self.frames().dom() =~= before.dom().insert(next));
            }
        }
        Ok(next)
    }

    /// What holds after an entry was pointed at a new table.
    #[verifier::rlimit(40)]
    proof fn lemma_extended<A: PageTableHal>(
        &self,
        before: &Self,
        cleared: &Self,
        written: &Self,
        places: Places,
        page: u64,
        level: PageLevel,
        base: int,
        index: u64,
        low: u64,
        offset: u64,
        linked: u64,
        words: Seq<u64>,
    )
        requires
            before.wf(),
            written.wf(),
            level.depth() >= 2,
            index < 512,
            low == entry_base(level.depth(), base, index as int),
            aligned(level.depth() + 1, base),
            low + entry_size(level.depth()) + offset <= 0x1_0000_0000_0000_0000,
            offset as int % before.spec_paging_type().space() == 0,
            before.holds::<A>(places, page, level.depth(), base),
            !is_self_entry(before.root(), page, index as int),
            !points_to_table::<A::PTE>(
                word_at(before.frames(), page, index as int),
                level.depth(),
            ),
            points_to_table::<A::PTE>(linked, level.depth()),
            always_table::<A::PTE>(linked),
            A::PTE::restrictions(linked) == 0,
            !before.frames().contains_key(A::PTE::next_address(linked)),
            pieces_of::<A::PTE>(
                words,
                word_at(before.frames(), page, index as int),
                level.depth(),
            ),
            self.same_setup(written),
            written.same_setup(cleared),
            cleared.same_setup(before),
            cleared.frames() == before.frames().insert(A::PTE::next_address(linked), zero_words()),
            written.frames() == cleared.frames().insert(
                page,
                words_of(cleared.frames(), page).update(index as int, linked),
            ),
            self.frames() == written.frames().insert(A::PTE::next_address(linked), words),
            cleared.can_follow::<A>(before),
            op_fits::<A::PTE>(
                cleared.frames(),
                written.root(),
                written.spec_paging_type(),
                MemoryOp::WriteEntry {
                    table: page,
                    index,
                    word: linked,
                    level,
                    va: (low + offset) as u64,
                },
            ) ==> written.can_follow::<A>(before),
            stays_at_place::<A::PTE>(
                written.frames(),
                before.root(),
                before.spec_paging_type().levels(),
                A::PTE::next_address(linked),
                (level.depth() - 1) as nat,
                low as int,
            ) && written.can_follow::<A>(before) ==> self.can_follow::<A>(before),
        ensures
            ({
                let n = level.depth();
                let next = A::PTE::next_address(linked);
                let places_after = places.insert(
                    next,
                    Place { level: (n - 1) as nat, base: low as int },
                );
                &&& !places.contains_key(next)
                &&& self.holds::<A>(places_after, page, n, base)
                &&& self.holds::<A>(places_after, next, (n - 1) as nat, low as int)
                &&& self.can_follow::<A>(before)
                &&& confined(before.frames(), self.frames(), places, page, index as int)
                &&& word_at(self.frames(), page, index as int) == linked
                &&& words_of(self.frames(), next) == words
                &&& forall|va: int|
                    low <= va < low + entry_size(n) ==> #[trigger] walk::<A::PTE>(
                        self.frames(),
                        page,
                        n,
                        base,
                        va,
                    ) == walk::<A::PTE>(before.frames(), page, n, base, va)
            }),
    {
        let n = level.depth();
        let m = (n - 1) as nat;
        let next = A::PTE::next_address(linked);
        let root = self.root();
        let levels = self.spec_paging_type().levels();
        let places_after = places.insert(next, Place { level: m, base: low as int });
        before.memory.lemma_wf();
        assert(next != page);
        lemma_entry_within(n, base, index as int);
        lemma_place_kept::<A::PTE>(
            before.frames(),
            cleared.frames(),
            places,
            root,
            levels,
            page,
            n,
            base,
        );
        lemma_write_fits::<A::PTE>(
            cleared.frames(),
            root,
            self.spec_paging_type(),
            page,
            base,
            index,
            linked,
            level,
            offset,
            (low + offset) as u64,
        );
        A::PTE::lemma_word(0);
        assert forall|j: int| 0 <= j < 512 implies !points_to_table::<A::PTE>(
            #[trigger] zero_words()[j],
            m,
        ) by {}
        lemma_link::<A::PTE>(
            before.frames(),
            places,
            root,
            page,
            n,
            base,
            index as int,
            linked,
            zero_words(),
        );
        assert(written.frames() =~= before.frames().insert(next, zero_words()).insert(
            page,
            words_of(before.frames(), page).update(index as int, linked),
        ));
        written.lemma_holds_kept::<A>(before, places, places_after, page, n, base);
        written.lemma_holds_below::<A>(places_after, page, n, base, index as int);
        assert forall|other: Seq<u64>| other.len() == 512 implies #[trigger] at_place::<A::PTE>(
            written.frames().insert(next, other),
            root,
            levels,
            next,
            m,
            low as int,
        ) by {
            lemma_place_kept::<A::PTE>(
                written.frames(),
                written.frames().insert(next, other),
                places_after,
                root,
                levels,
                next,
                m,
                low as int,
            );
        }
        lemma_extend::<A::PTE>(
            before.frames(),
            places,
            root,
            page,
            n,
            base,
            index as int,
            linked,
            words,
        );
        assert(self.frames() =~= before.frames().insert(next, words).insert(
            page,
            words_of(before.frames(), page).update(index as int, linked),
        ));
        self.lemma_holds_kept::<A>(before, places, places_after, page, n, base);
        self.lemma_holds_below::<A>(places_after, page, n, base, index as int);
    }

    /// Carries out `job` for the whole of entry `index` of the table in `page`, which does not
    /// point to a table. The entry covers addresses from `low` on.
    #[verifier::rlimit(40)]
    fn edit_whole<A: PageTableHal>(
        &mut self,
        page: u64,
        level: PageLevel,
        index: u64,
        low: u64,
        job: EditJob,
        Ghost(places): Ghost<Places>,
        Ghost(base): Ghost<int>,
    )
        requires
            old(self).wf(),
            job.wf::<A::PTE>(),
            index < 512,
            level.depth() <= 3,
            low == entry_base(level.depth(), base, index as int),
            aligned(level.depth() + 1, base),
            low + entry_size(level.depth()) <= old(self).spec_paging_type().space(),
            job.offset + low + entry_size(level.depth()) <= 0x1_0000_0000_0000_0000,
            job.offset as int % old(self).spec_paging_type().space() == 0,
            job.spans(low as int, low + entry_size(level.depth())),
            !points_to_table::<A::PTE>(
                word_at(old(self).frames(), page, index as int),
                level.depth(),
            ),
        ensures
            final(self).wf(),
            final(self).same_setup(old(self)),
            final(self).spec_sound() == old(self).spec_sound(),
            final(self).allocator() == old(self).allocator(),
            final(self).requests() == old(self).requests(),
            final(self).has_logged(old(self)),
            final(self).has_written_above(old(self), job.offset as int),
            old(self).holds::<A>(places, page, level.depth(), base) ==> final(self).entry_edited::<
                A,
            >(
                old(self),
                places,
                page,
                level.depth(),
                base,
                index as int,
                job,
                Progress { places, cut: job.end as int },
                true,
            ) && final(self).frames().dom() == old(self).frames().dom(),
    {
        let ghost n = level.depth();
        let ghost before = self.frames();
        let ghost root = self.root();
        let ghost holds = self.holds::<A>(places, page, n, base);
        let word: u64 = self.memory.read(page, index);
        let entry = A::PTE::from_word(word);
        proof {
            A::PTE::lemma_word(word);
            lemma_entry_within(n, base, index as int);
            lemma_aligned_offset(n, low as int, job.offset as int);
            self.lemma_follow_none::<A>(old(self));
            self.lemma_asked_none::<A>(old(self));
        }
        let changed: u64 = match job.edit {
            Edit::Mapping { attributes } => leaf_word::<A::PTE>(
                word,
                attributes,
                job.offset + low,
                level,
            ),
            Edit::Removal => {
                if !entry.get_present_bit() {
                    proof {
                        if holds {
                            lemma_links_none::<A::PTE>(
                                before,
                                root,
                                page,
                                n,
                                base,
                                A::spec_default_attributes(),
                            );
                            lemma_edit_matched::<A::PTE>(
                                before,
                                places,
                                root,
                                page,
                                n,
                                base,
                                index as int,
                                job,
                            );
                            lemma_extents_in_one::<A::PTE>(
                                before,
                                before,
                                page,
                                n,
                                base,
                                index as int,
                                job,
                            );
                        }
                    }
                    return;
                }
                let mut unmapped = A::PTE::from_word(word);
                unmapped.unmap();
                unmapped.to_word()
            },
        };
        self.memory.write(page, index, changed, level, job.offset + low);
        proof {
            let va = (job.offset + low) as u64;
            let op = MemoryOp::WriteEntry { table: page, index, word: changed, level, va };
            lemma_offset(self.spec_paging_type(), job.offset as int, low as int);
            self.lemma_follow_one::<A>(old(self), op);
            assert(written_above(seq![op], self.spec_paging_type(), job.offset as int));
            self.lemma_asked_none::<A>(old(self));
            if holds {
                lemma_write_fits::<A::PTE>(
                    before,
                    root,
                    self.spec_paging_type(),
                    page,
                    base,
                    index,
                    changed,
                    level,
                    job.offset,
                    va,
                );
                lemma_edit_leaf::<A::PTE>(
                    before,
                    places,
                    root,
                    page,
                    n,
                    base,
                    index as int,
                    changed,
                    job,
                );
                lemma_extents_in_one::<A::PTE>(
                    before,
                    self.frames(),
                    page,
                    n,
                    base,
                    index as int,
                    job,
                );
                lemma_links_in_one::<A::PTE>(
                    before,
                    self.frames(),
                    page,
                    n,
                    base,
                    index as int,
                    A::spec_default_attributes(),
                );
                assert(self.frames().dom() =~= before.dom());
            }
        }
    }

    /// Carries out the part of `job` that falls to entry `index` of the table in `page`. The
    /// entry covers addresses from `low` on.
    #[verifier::rlimit(40)]
    fn edit_entry<A: PageTableHal>(
        &mut self,
        arch: &A,
        page: u64,
        level: PageLevel,
        index: u64,
        low: u64,
        job: EditJob,
        Ghost(places): Ghost<Places>,
        Ghost(base): Ghost<int>,
    ) -> (r: (Result<(), PtError>, Ghost<Progress>))
        requires
            old(self).wf(),
            job.wf::<A::PTE>(),
            index < 512,
            low == entry_base(level.depth(), base, index as int),
            aligned(level.depth() + 1, base),
            low + entry_size(level.depth()) <= old(self).spec_paging_type().space(),
            job.offset + low + entry_size(level.depth()) <= 0x1_0000_0000_0000_0000,
            job.offset as int % old(self).spec_paging_type().space() == 0,
            job.touches(low as int, low + entry_size(level.depth())),
        ensures
            final(self).wf(),
            final(self).same_setup(old(self)),
            final(self).spec_sound() ==> old(self).spec_sound(),
            final(self).has_logged(old(self)),
            final(self).has_written_above(old(self), job.offset as int),
            final(self).has_asked(old(self), r.0),
            old(self).holds::<A>(places, page, level.depth(), base) && !is_self_entry(
                old(self).root(),
                page,
                index as int,
            ) ==> final(self).sound_if_fit::<A>(old(self)),
            final(self).spec_sound() && old(self).holds::<A>(places, page, level.depth(), base)
                && !is_self_entry(old(self).root(), page, index as int) ==> final(self).entry_edited::<A>(
                old(self),
                places,
                page,
                level.depth(),
                base,
                index as int,
                job,
                r.1@,
                r.0 is Ok,
            ),
            match r.0 {
                Ok(_) => r.1@.cut == job.end,
                Err(_) => low <= r.1@.cut <= low + entry_size(level.depth()) && r.1@.cut
                    <= job.end,
            },
            old(self).spec_sound() && old(self).holds::<A>(places, page, level.depth(), base)
                && !is_self_entry(old(self).root(), page, index as int) && entry_ready::<A::PTE>(
                old(self).frames(),
                page,
                level.depth(),
                base,
                index as int,
                job,
            ) ==> r.0 is Ok && final(self).spec_sound() && final(self).requests() == old(
                self,
            ).requests(),
        decreases level.depth(), 0int,
    {
        let ghost n = level.depth();
        let ghost before = self.frames();
        let ghost root = self.root();
        let ghost first = if job.start <= low { low as int } else { job.start as int };
        let ghost holds = self.holds::<A>(places, page, n, base) && !is_self_entry(
            root,
            page,
            index as int,
        );
        let size: u64 = level.entry_va_size();
        let word: u64 = self.memory.read(page, index);
        let entry = A::PTE::from_word(word);
        proof {
            A::PTE::lemma_word(word);
            lemma_entry_within(n, base, index as int);
            lemma_entry_base(n, base, index as int, first);
            self.lemma_follow_none::<A>(old(self));
            self.lemma_asked_none::<A>(old(self));
            lemma_links_none::<A::PTE>(
                before,
                root,
                page,
                n,
                base,
                A::spec_default_attributes(),
            );
        }
        if entry.get_present_bit() && !entry.points_to_pa(level) {
            let next: u64 = entry.get_next_address().value;
            match level.next_level() {
                None => {
                    assert(false);
                    (Ok(()), Ghost(Progress { places, cut: job.end as int }))
                },
                Some(below) => {
                    proof {
                        if holds {
                            self.lemma_holds_below::<A>(places, page, n, base, index as int);
                        }
                        if entry_ready::<A::PTE>(before, page, n, base, index as int, job) {
                            lemma_ready_below::<A::PTE>(before, page, n, base, index as int, job);
                        }
                    }
                    let r = self.edit_level(arch, next, below, low, job, Ghost(places));
                    proof {
                        if self.spec_sound() && holds {
                            lemma_links_below::<A::PTE>(
                                before,
                                before,
                                self.frames(),
                                root,
                                page,
                                n,
                                base,
                                index as int,
                                A::spec_default_attributes(),
                                false,
                            );
                            lemma_entry_of_table::<A::PTE>(
                                before,
                                before,
                                self.frames(),
                                places,
                                places,
                                r.1@,
                                root,
                                page,
                                n,
                                base,
                                index as int,
                                job,
                                false,
                                r.0 is Ok,
                            );
                        }
                    }
                    r
                },
            }
        } else if arch.level_supports_pa_entry(level) && job.start <= low && size <= job.end - low {
            self.edit_whole::<A>(page, level, index, low, job, Ghost(places), Ghost(base));
            proof {
                self.lemma_asked_none::<A>(old(self));
            }
            (Ok(()), Ghost(Progress { places, cut: job.end as int }))
        } else if is_matched::<A::PTE>(word, level, low, job) {
            proof {
                if holds {
                    lemma_edit_matched::<A::PTE>(
                        before,
                        places,
                        root,
                        page,
                        n,
                        base,
                        index as int,
                        job,
                    );
                    lemma_extents_in_one::<A::PTE>(
                        before,
                        before,
                        page,
                        n,
                        base,
                        index as int,
                        job,
                    );
                }
            }
            (Ok(()), Ghost(Progress { places, cut: job.end as int }))
        } else {
            assert(!job.ready::<A::PTE>(before, page, n, base, first));
            match level.next_level() {
                None => {
                    assert(false);
                    (Ok(()), Ghost(Progress { places, cut: job.end as int }))
                },
                Some(below) => {
                    let result = self.ask_page();
                    let ghost asked = *self;
                    match self.extend_entry(
                        arch,
                        page,
                        level,
                        index,
                        low,
                        job.offset,
                        result,
                        Ghost(places),
                        Ghost(base),
                    ) {
                        Err(e) => {
                            proof {
                                self.lemma_asked_one::<A>(old(self), result);
                                self.lemma_follow_none::<A>(old(self));
                                lemma_edit_none::<A::PTE>(
                                    before,
                                    places,
                                    root,
                                    page,
                                    n,
                                    base,
                                    index as int,
                                    job,
                                );
                            }
                            (Err(e), Ghost(Progress { places, cut: low as int }))
                        },
                        Ok(next) => {
                            let ghost places_linked = places.insert(
                                next,
                                Place { level: (n - 1) as nat, base: low as int },
                            );
                            let ghost extended = *self;
                            proof {
                                self.lemma_asked_one::<A>(old(self), result);
                            }
                            let r = self.edit_level(
                                arch,
                                next,
                                below,
                                low,
                                job,
                                Ghost(places_linked),
                            );
                            proof {
                                self.lemma_follow::<A>(&extended, &asked);
                                assert(self.steps_since(old(self)) == self.steps_since(&asked));
                                assert(self.has_written_above(&asked, job.offset as int));
                                self.lemma_asked::<A>(&extended, old(self), r.0);
                                if self.spec_sound() && holds {
                                    assert(asked.holds::<A>(places, page, n, base));
                                    lemma_new_tables::<A::PTE>(
                                        extended.frames(),
                                        next,
                                        word,
                                        n,
                                        low as int,
                                        512,
                                        job,
                                    );
                                    lemma_links_below::<A::PTE>(
                                        before,
                                        extended.frames(),
                                        self.frames(),
                                        root,
                                        page,
                                        n,
                                        base,
                                        index as int,
                                        A::spec_default_attributes(),
                                        true,
                                    );
                                    lemma_entry_of_table::<A::PTE>(
                                        before,
                                        extended.frames(),
                                        self.frames(),
                                        places,
                                        places_linked,
                                        r.1@,
                                        root,
                                        page,
                                        n,
                                        base,
                                        index as int,
                                        job,
                                        true,
                                        r.0 is Ok,
                                    );
                                }
                            }
                            r
                        },
                    }
                },
            }
        }
    }

    /// Carries out the part of `job` that falls to the table in `page`, which is at `level`
    /// and covers addresses from `base` on.
    #[verifier::rlimit(40)]
    pub(crate) fn edit_level<A: PageTableHal>(
        &mut self,
        arch: &A,
        page: u64,
        level: PageLevel,
        base: u64,
        job: EditJob,
        Ghost(places): Ghost<Places>,
    ) -> (r: (Result<(), PtError>, Ghost<Progress>))
        requires
            old(self).wf(),
            job.wf::<A::PTE>(),
            aligned(level.depth() + 1, base as int),
            base + table_size(level.depth()) <= old(self).spec_paging_type().space(),
            job.offset + base + table_size(level.depth()) <= 0x1_0000_0000_0000_0000,
            job.offset as int % old(self).spec_paging_type().space() == 0,
            job.touches(base as int, base + table_size(level.depth())),
        ensures
            final(self).wf(),
            final(self).same_setup(old(self)),
            final(self).spec_sound() ==> old(self).spec_sound(),
            final(self).has_logged(old(self)),
            final(self).has_written_above(old(self), job.offset as int),
            final(self).has_asked(old(self), r.0),
            old(self).holds::<A>(places, page, level.depth(), base as int) && (page == old(
                self,
            ).root() ==> job.end <= entry_base(level.depth(), base as int, 0x1FE))
                ==> final(self).sound_if_fit::<A>(old(self)),
            final(self).spec_sound() && old(self).holds::<A>(
                places,
                page,
                level.depth(),
                base as int,
            ) && (page == old(self).root() ==> job.end <= entry_base(
                level.depth(),
                base as int,
                0x1FE,
            )) ==> final(self).table_edited::<A>(
                old(self),
                places,
                page,
                level.depth(),
                base as int,
                job,
                r.1@,
                r.0 is Ok,
            ),
            match r.0 {
                Ok(_) => r.1@.cut == job.end,
                Err(_) => base <= r.1@.cut <= base + table_size(level.depth()) && r.1@.cut
                    <= job.end,
            },
            old(self).spec_sound() && old(self).holds::<A>(
                places,
                page,
                level.depth(),
                base as int,
            ) && (page == old(self).root() ==> job.end <= entry_base(
                level.depth(),
                base as int,
                0x1FE,
            )) && all_ready::<A::PTE>(
                old(self).frames(),
                page,
                level.depth(),
                base as int,
                job,
            ) ==> r.0 is Ok && final(self).spec_sound() && final(self).requests() == old(
                self,
            ).requests(),
        decreases level.depth(), 1int,
    {
        let ghost n = level.depth();
        let ghost before = self.frames();
        let ghost root = self.root();
        let ghost space = self.spec_paging_type().space();
        let ghost holds = self.holds::<A>(places, page, n, base as int) && (page == root
            ==> job.end <= entry_base(n, base as int, 0x1FE));
        let ghost ready = self.spec_sound() && holds && all_ready::<A::PTE>(
            before,
            page,
            n,
            base as int,
            job,
        );
        let size: u64 = level.entry_va_size();
        let first: u64 = if job.start < base {
            base
        } else {
            job.start
        };
        let (mut index, mut low) = entry_position(level, base, first);
        let ghost mut places_now = places;
        proof {
            lemma_entry_within(n, base as int, index as int);
            lemma_extents_start::<A::PTE>(
                before,
                root,
                page,
                n,
                base as int,
                index as int,
                job,
            );
            self.lemma_follow_none::<A>(old(self));
            self.lemma_asked_none::<A>(old(self));
            lemma_more_entries::<A::PTE>(before, page, n, base as int, 0, index as nat, job);
            lemma_links_none::<A::PTE>(
                before,
                root,
                page,
                n,
                base as int,
                A::spec_default_attributes(),
            );
        }
        while index < 512 && low < job.end
            invariant
                old(self).wf(),
                n == level.depth(),
                before == old(self).frames(),
                root == old(self).root(),
                space == old(self).spec_paging_type().space(),
                size == entry_size(n),
                index <= 512,
                low == entry_base(n, base as int, index as int),
                self.wf(),
                self.same_setup(old(self)),
                self.spec_sound() ==> old(self).spec_sound(),
                self.has_logged(old(self)),
                self.has_written_above(old(self), job.offset as int),
                self.has_asked(old(self), Ok(())),
                holds ==> self.sound_if_fit::<A>(old(self)),
                job.wf::<A::PTE>(),
                job.start < low + size,
                aligned(n + 1, base as int),
                base + table_size(n) <= space <= 0x200_0000_0000_0000,
                job.offset + base + table_size(n) <= 0x1_0000_0000_0000_0000,
                job.offset as int % space == 0,
                holds == (old(self).holds::<A>(places, page, n, base as int) && (page == root
                    ==> job.end <= entry_base(n, base as int, 0x1FE))),
                ready == (old(self).spec_sound() && holds && all_ready::<A::PTE>(
                    before,
                    page,
                    n,
                    base as int,
                    job,
                )),
                self.spec_sound() && holds ==> {
                    &&& self.holds::<A>(places_now, page, n, base as int)
                    &&& self.can_follow::<A>(old(self))
                    &&& links_done::<A::PTE>(
                        before,
                        self.frames(),
                        root,
                        page,
                        n,
                        base as int,
                        A::spec_default_attributes(),
                    )
                    &&& self.asked_since(old(self)).len() == tables_below::<A::PTE>(
                        before,
                        page,
                        n,
                        base as int,
                        index as nat,
                        job,
                    )
                    &&& forall|j: nat|
                        index <= j < 512 && !is_self_entry(root, page, j as int)
                            ==> #[trigger] tables_for_entry::<A::PTE>(
                            self.frames(),
                            page,
                            n,
                            base as int,
                            j,
                            job,
                        ) == tables_for_entry::<A::PTE>(before, page, n, base as int, j, job)
                    &&& edit_done::<A::PTE>(
                        before,
                        self.frames(),
                        places,
                        places_now,
                        root,
                        page,
                        job,
                        if low < job.end {
                            low as int
                        } else {
                            job.end as int
                        },
                    )
                    &&& extents_until::<A::PTE>(
                        before,
                        self.frames(),
                        root,
                        page,
                        n,
                        base as int,
                        job,
                        low as int,
                    )
                },
                ready ==> holds && self.spec_sound() && self.requests() == old(self).requests()
                    && forall|va: int|
                    low <= va < base + table_size(n) && job.start <= va < job.end
                        ==> #[trigger] job.ready::<A::PTE>(
                        self.frames(),
                        page,
                        n,
                        base as int,
                        va,
                    ),
            decreases 512 - index,
        {
            let ghost between = *self;
            let ghost places_between = places_now;
            let ghost high = low + size;
            proof {
                lemma_entry_within(n, base as int, index as int);
            }
            let (result, Ghost(progress)) = self.edit_entry(
                arch,
                page,
                level,
                index,
                low,
                job,
                Ghost(places_now),
                Ghost(base as int),
            );
            proof {
                places_now = progress.places;
                self.lemma_follow::<A>(&between, old(self));
                self.lemma_asked::<A>(&between, old(self), result);
                if self.spec_sound() && holds {
                    lemma_edit_step::<A::PTE>(
                        before,
                        between.frames(),
                        self.frames(),
                        places,
                        places_between,
                        places_now,
                        root,
                        page,
                        n,
                        base as int,
                        index as int,
                        job,
                        progress.cut,
                        if progress.cut < high {
                            progress.cut
                        } else {
                            high
                        },
                    );
                    self.lemma_holds_kept::<A>(
                        old(self),
                        places,
                        places_now,
                        page,
                        n,
                        base as int,
                    );
                    if result is Ok {
                        lemma_extents_step::<A::PTE>(
                            before,
                            between.frames(),
                            self.frames(),
                            places_between,
                            root,
                            page,
                            n,
                            base as int,
                            index as int,
                            job,
                        );
                    }
                    lemma_links_step::<A::PTE>(
                        before,
                        between.frames(),
                        self.frames(),
                        places_between,
                        root,
                        page,
                        n,
                        base as int,
                        index as int,
                        A::spec_default_attributes(),
                    );
                    assert(self.asked_since(&between).len() <= tables_for_entry::<A::PTE>(
                        before,
                        page,
                        n,
                        base as int,
                        index as nat,
                        job,
                    ));
                    lemma_more_entries::<A::PTE>(
                        before,
                        page,
                        n,
                        base as int,
                        (index + 1) as nat,
                        512,
                        job,
                    );
                    assert forall|j: nat|
                        index < j < 512 && !is_self_entry(
                            root,
                            page,
                            j as int,
                        ) implies #[trigger] tables_for_entry::<A::PTE>(
                        self.frames(),
                        page,
                        n,
                        base as int,
                        j,
                        job,
                    ) == tables_for_entry::<A::PTE>(before, page, n, base as int, j, job) by {
                        lemma_confined_demand::<A::PTE>(
                            between.frames(),
                            self.frames(),
                            places_between,
                            root,
                            page,
                            n,
                            base as int,
                            index as int,
                            j,
                            job,
                        );
                    }
                    assert forall|va: int|
                        ready && high <= va < base + table_size(n) && job.start <= va
                            < job.end implies #[trigger] job.ready::<A::PTE>(
                        self.frames(),
                        page,
                        n,
                        base as int,
                        va,
                    ) by {
                        lemma_entry_index(n, base as int, va);
                        assert(job.ready::<A::PTE>(
                            between.frames(),
                            page,
                            n,
                            base as int,
                            va,
                        ));
                    }
                }
            }
            if let Err(e) = result {
                return (Err(e), Ghost(progress));
            }
            index = index + 1;
            low = low + size;
        }
        proof {
            if self.spec_sound() && holds {
                lemma_more_entries::<A::PTE>(
                    before,
                    page,
                    n,
                    base as int,
                    index as nat,
                    512,
                    job,
                );
                lemma_extents_end::<A::PTE>(
                    before,
                    self.frames(),
                    root,
                    page,
                    n,
                    base as int,
                    index as int,
                    job,
                );
            }
        }
        (Ok(()), Ghost(Progress { places: places_now, cut: job.end as int }))
    }
}

} // verus!
