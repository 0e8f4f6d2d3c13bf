//! Building page tables, and taking over existing ones.
use vstd::prelude::*;
use crate::arch::{PageTableEntry, PageTableHal};
use crate::error::PtError;
use crate::journal::{
    fits, lemma_fits_append, lemma_written_append, on_way, op_fits, written_above,
};
use crate::links::continued;
use crate::memory::{
    replay, whole_pages, word_at, words_of, zero_words, MemoryOp, PageMemory,
};
use crate::page_allocator::{
    all_fit, all_granted, allocator_at, answered_in_turn, ended_in, granted, grown_by,
    lemma_fit_append, lemma_granted_append, lemma_in_turn_append, takes, PageAllocator, Request,
};
use crate::paging::edit::table_word;
use crate::paging::{normalize, PageTableInternal};
use crate::structs::{
    aligned, entry_base, entry_index, entry_size, lemma_entry_base, lemma_index, lemma_low_bits,
    lemma_offset, table_size, PageLevel, PagingType, PAGE_SIZE, SELF_MAP_INDEX, ZERO_VA_INDEX,
};
use crate::tree::{
    always_table, confined, has_table, in_tree, is_self_entry, lemma_no_leaves, linked, no_leaves, pieces_of,
    points_to_table, Frames, Place, Places, Walk,
};

verus! {

/// The changes that make a root that maps itself out of the page `base`.
pub open spec fn root_steps<A: PageTableHal>(base: u64, paging_type: PagingType, va: u64) -> Seq<
    MemoryOp,
> {
    seq![
        MemoryOp::ZeroPage { page: base },
        MemoryOp::WriteEntry {
            table: base,
            index: 0x1FE,
            word: A::PTE::updated(
                0,
                A::spec_default_attributes(),
                base,
                false,
                paging_type.levels(),
            ),
            level: if paging_type is Paging5Level {
                PageLevel::Level5
            } else {
                PageLevel::Level4
            },
            va,
        },
    ]
}

impl<P: PageAllocator> PageTableInternal<P> {
    /// Whether the self-map entry of the root points to the root.
    pub open spec fn self_mapped<A: PageTableHal>(&self) -> bool {
        let word = word_at(self.frames(), self.root(), 0x1FE);
        A::PTE::present(word) && A::PTE::next_address(word) == self.root()
    }

    /// Whether no address outside the self map is mapped.
    pub open spec fn is_empty<A: PageTableHal>(&self) -> bool {
        forall|va: int|
            0 <= va < self.spec_paging_type().space() && entry_index(
                self.spec_paging_type().levels(),
                0,
                va,
            ) != 0x1FE ==> #[trigger] self.walk_at::<A>(va) == (Walk {
                restrictions: 0,
                leaf: None,
            })
    }

    /// Whether the root maps itself by an entry that points to a table at whatever depth it is
    /// read, with the default attributes and without restrictions.
    pub open spec fn self_mapped_by_default<A: PageTableHal>(&self) -> bool {
        let word = word_at(self.frames(), self.root(), 0x1FE);
        &&& self.self_mapped::<A>()
        &&& always_table::<A::PTE>(word)
        &&& A::PTE::attributes(word) == A::spec_default_attributes()
        &&& A::PTE::restrictions(word) == 0
    }

    /// What holds of a new page table: it maps nothing, with a self map that works, its tables
    /// are the root and one for each level below, which are those for the address through which
    /// fresh pages are cleared, all entries for tables have the default attributes, and the changes that have made them
    /// can be carried out one after the other.
    pub open spec fn is_new<A: PageTableHal>(&self) -> bool {
        &&& self.has_tree::<A>()
        &&& self.self_mapped_by_default::<A>()
        &&& self.is_empty::<A>()
        &&& self.has_default_links::<A>()
        &&& forall|i: int|
            0 <= i < 0x1FE ==> #[trigger] word_at(self.frames(), self.root(), i) == 0
        &&& self.frames().dom().finite()
        &&& self.frames().dom().len() == self.spec_paging_type().levels()
        &&& A::spec_zero_va(self.spec_paging_type()) matches Ok(zero_va) ==> has_table::<A::PTE>(
            self.frames(),
            self.root(),
            self.spec_paging_type().levels(),
            0,
            zero_va.value as int % self.spec_paging_type().space(),
            1,
        )
        &&& fits::<A::PTE>(
            Map::empty(),
            self.root(),
            self.spec_paging_type(),
            self.spec_memory().journal(),
        )
    }

    /// Whether the pages so far come from `page_allocator`, the first of them for the root, and
    /// the tables are sound exactly if the pages are fit for tables. Then the tables are in
    /// these pages.
    pub open spec fn is_built_from<A: PageTableHal>(&self, page_allocator: P) -> bool {
        let requests = self.requests();
        &&& requests.len() > 0
        &&& answered_in_turn(page_allocator, requests)
        &&& self.allocator() == requests.last().after
        &&& forall|k: int|
            0 <= k < requests.len() ==> (#[trigger] requests[k]).is_root == (k == 0)
        &&& all_granted(requests)
        &&& granted(requests[0]) == Some(self.root())
        &&& self.spec_sound() <==> all_fit(Map::empty(), requests, A::PTE::address_limit())
        &&& self.spec_sound() ==> grown_by(Map::empty(), self.frames(), requests)
    }

    /// Whether `r` comes of building a page table with these requests for pages, one for each
    /// level. It is an error exactly if a page is refused, the one that comes of that. Entries
    /// are written for addresses in the form of that for clearing pages.
    pub open spec fn new_outcome<A: PageTableHal>(
        page_allocator: P,
        paging_type: PagingType,
        requests: Seq<Request<P>>,
        r: Result<Self, PtError>,
    ) -> bool {
        &&& answered_in_turn(page_allocator, requests)
        &&& forall|k: int|
            0 <= k < requests.len() ==> (#[trigger] requests[k]).is_root == (k == 0)
        &&& requests.len() <= paging_type.levels()
        &&& match r {
            Err(e) => ended_in(requests, e),
            Ok(table) => {
                &&& table.wf()
                &&& table.requests() == requests
                &&& requests.len() == paging_type.levels()
                &&& table.is_built_from::<A>(page_allocator)
                &&& table.spec_paging_type() == paging_type
                &&& table.spec_memory().origin() == Map::<u64, Seq<u64>>::empty()
                &&& A::spec_zero_va(paging_type) matches Ok(zero_va) ==> written_above(
                    table.spec_memory().journal(),
                    paging_type,
                    zero_va.value - zero_va.value as int % paging_type.space(),
                )
                &&& table.spec_sound() ==> table.is_new::<A>()
            },
        }
    }

    /// A root is built from one page.
    proof fn lemma_built_root<A: PageTableHal>(
        &self,
        page_allocator: P,
        answer: Result<u64, PtError>,
    )
        requires
            self.requests() == Seq::empty().push(
                Request { is_root: true, answer, after: self.allocator() },
            ),
            page_allocator.may_answer(&self.allocator(), 0x1000, 0x1000, true, answer),
            answer == Ok::<u64, PtError>(self.root()),
            self.root() % 0x1000 == 0,
            self.spec_sound() == (self.root() < A::PTE::address_limit()),
            self.frames().dom() == Set::<u64>::empty().insert(self.root()),
        ensures
            self.is_built_from::<A>(page_allocator),
    {
        let requests = self.requests();
        assert(granted(requests[0]) == Some(self.root()));
        assert forall|page: u64| #[trigger]
            self.frames().contains_key(page) <==> Map::<u64, Seq<u64>>::empty().contains_key(page)
                || takes(requests, page) by {
            assert(self.frames().dom().contains(page) <==> page == self.root());
        }
    }

    /// One more page was asked for while a page table was built.
    proof fn lemma_built_more<A: PageTableHal>(
        &self,
        before: &Self,
        page_allocator: P,
        r: Result<(), PtError>,
    )
        requires
            before.is_built_from::<A>(page_allocator),
            self.has_asked(before, r),
            self.sound_if_fit::<A>(before),
            self.spec_sound() ==> before.spec_sound(),
            self.root() == before.root(),
            self.requests().len() == before.requests().len() + 1,
        ensures
            match r {
                Ok(_) => self.is_built_from::<A>(page_allocator),
                Err(e) => {
                    let requests = self.requests();
                    &&& answered_in_turn(page_allocator, requests)
                    &&& forall|k: int|
                        0 <= k < requests.len() ==> (#[trigger] requests[k]).is_root == (k == 0)
                    &&& ended_in(requests, e)
                },
            },
    {
        let first = before.requests();
        let second = self.asked_since(before);
        let requests = self.requests();
        let n = first.len() as int;
        assert(requests == first + second);
        assert(allocator_at(page_allocator, first, n) == before.allocator());
        lemma_in_turn_append(page_allocator, first, second);
        lemma_granted_append(first, second);
        lemma_fit_append(
            Map::empty(),
            before.frames(),
            first,
            second,
            A::PTE::address_limit(),
        );
        assert forall|k: int| 0 <= k < requests.len() implies (#[trigger] requests[k]).is_root == (k
            == 0) by {
            if k < n {
                assert(requests[k] == first[k]);
            } else {
                assert(requests[k] == second[k - n]);
            }
        }
        assert(requests[0] == first[0]);
        if self.spec_sound() {
            assert forall|page: u64| #[trigger]
                self.frames().contains_key(page) <==> Map::<u64, Seq<u64>>::empty().contains_key(
                    page,
                ) || takes(requests, page) by {
                assert(before.frames().contains_key(page) <==> takes(first, page)
                    || Map::<u64, Seq<u64>>::empty().contains_key(page));
                assert(takes(first + second, page) <==> takes(first, page) || takes(second, page));
            }
        }
    }

    /// Builds the root table in the page that the allocator answered with in `result`, with
    /// the self map and nothing else. The self map begins at the address `va`.
    pub fn new_root<A: PageTableHal>(
        page_allocator: P,
        arch: &A,
        paging_type: PagingType,
        result: Result<u64, PtError>,
        va: u64,
    ) -> (r: Result<Self, PtError>)
        ensures
            match result {
                Err(e) => r == Err::<Self, PtError>(e),
                Ok(base) => if base % 0x1000 != 0 {
                    r == Err::<Self, PtError>(PtError::UnalignedPageBase)
                } else {
                    &&& r matches Ok(table)
                    &&& table.wf()
                    &&& table.root() == base
                    &&& table.spec_paging_type() == paging_type
                    &&& table.spec_memory().origin() == Map::<u64, Seq<u64>>::empty()
                    &&& table.spec_memory().journal() == root_steps::<A>(base, paging_type, va)
                    &&& table.allocator() == page_allocator
                    &&& table.requests() == Seq::empty().push(
                        Request { is_root: true, answer: result, after: page_allocator },
                    )
                    &&& table.spec_sound() == (base < A::PTE::address_limit())
                    &&& table.frames() == Map::<u64, Seq<u64>>::empty().insert(
                        base,
                        zero_words().update(
                            0x1FE,
                            A::PTE::updated(
                                0,
                                A::spec_default_attributes(),
                                base,
                                false,
                                paging_type.levels(),
                            ),
                        ),
                    )
                    &&& table.spec_sound() ==> table.self_mapped_by_default::<A>()
                },
            },
    {
        let base: u64 = result?;
        if base % PAGE_SIZE != 0 {
            return Err(PtError::UnalignedPageBase);
        }
        let level: PageLevel = PageLevel::root_level(paging_type);
        let mut memory = PageMemory::new();
        memory.zero_page(base);
        let linked: u64 = table_word::<A>(arch, 0, base, level);
        memory.write(base, SELF_MAP_INDEX, linked, level, va);
        proof {
            A::PTE::lemma_word(0);
            let limit = A::PTE::address_limit();
            if base < limit {
                vstd::arithmetic::div_mod::lemma_small_mod(base as nat, limit as nat);
            } else {
                vstd::arithmetic::div_mod::lemma_mod_bound(base as int, limit);
            }
        }
        let sound: bool = A::PTE::from_word(linked).get_next_address().value == base;
        let ghost request = Request { is_root: true, answer: result, after: page_allocator };
        let requests = Ghost(Seq::empty().push(request));
        let table = PageTableInternal {
            memory,
            page_allocator,
            base,
            paging_type,
            sound,
            requests,
        };
        assert(table.frames() =~= Map::<u64, Seq<u64>>::empty().insert(
            base,
            zero_words().update(0x1FE, linked),
        ));
        assert(table.spec_memory().journal() =~= root_steps::<A>(base, paging_type, va));
        Ok(table)
    }

    /// Builds a page table that maps nothing, with its self map and with the tables for the
    /// address through which fresh pages are cleared.
    #[verifier::rlimit(40)]
    pub fn new<A: PageTableHal>(page_allocator: P, arch: &A, paging_type: PagingType) -> (r: Result<
        Self,
        PtError,
    >)
        ensures
            match A::spec_zero_va(paging_type) {
                Err(e) => r == Err::<Self, PtError>(e),
                Ok(_) => exists|requests: Seq<Request<P>>| #[trigger]
                    Self::new_outcome::<A>(page_allocator, paging_type, requests, r),
            },
    {
        arch.paging_type_supported(paging_type)?;
        let zero_va: u64 = arch.get_zero_va(paging_type)?.value;
        proof {
            A::lemma_zero_va(paging_type);
        }
        let low: u64 = normalize(paging_type, zero_va);
        let offset: u64 = zero_va - low;
        let mut level: PageLevel = PageLevel::root_level(paging_type);
        let self_va: u64 = zero_va - level.entry_va_size();
        let mut allocator = page_allocator;
        let result = allocator.allocate_page(PAGE_SIZE, PAGE_SIZE, true);
        let ghost asked = Seq::empty().push(
            Request { is_root: true, answer: result, after: allocator },
        );
        let mut table = match Self::new_root(allocator, arch, paging_type, result, self_va) {
            Ok(table) => table,
            Err(e) => {
                assert(asked.drop_last() =~= Seq::<Request<P>>::empty());
                assert(Self::new_outcome::<A>(page_allocator, paging_type, asked, Err(e)));
                return Err(e);
            },
        };
        let mut page: u64 = table.base;
        let mut index: u64 = ZERO_VA_INDEX;
        let ghost root = table.root();
        let ghost levels = paging_type.levels();
        let ghost mut places: Places = Map::empty().insert(root, Place { level: levels, base: 0 });
        proof {
            table.memory.lemma_wf();
            A::PTE::lemma_word(0);
            assert(table.frames().dom() =~= Set::<u64>::empty().insert(root));
            table.lemma_built_root::<A>(page_allocator, result);
            lemma_offset(paging_type, offset as int, low - entry_size(levels));
            assert(written_above(
                root_steps::<A>(root, paging_type, self_va),
                paging_type,
                offset as int,
            ));
            if table.spec_sound() {
                lemma_root::<A>(table.frames(), root, paging_type, self_va);
            }
        }
        while !level.is_lowest_level()
            invariant
                table.wf(),
                table.root() == root,
                table.spec_paging_type() == paging_type,
                table.spec_memory().origin() == Map::<u64, Seq<u64>>::empty(),
                levels == paging_type.levels(),
                table.is_built_from::<A>(page_allocator),
                written_above(table.spec_memory().journal(), paging_type, offset as int),
                A::spec_zero_va(paging_type) matches Ok(zero) ==> offset == zero.value
                    - zero.value as int % paging_type.space() && low == zero.value as int
                    % paging_type.space(),
                table.requests().len() == levels + 1 - level.depth(),
                A::spec_zero_va(paging_type) is Ok,
                1 <= level.depth() <= levels,
                low == entry_base(levels, 0, 0x1FF),
                aligned(levels, low as int),
                offset + low + entry_size(levels) <= 0x1_0000_0000_0000_0000,
                offset as int % paging_type.space() == 0,
                index < 512,
                level.depth() == levels ==> index == 0x1FF && page == root,
                level.depth() < levels ==> index == 0,
                table.spec_sound() ==> {
                    let base = if level.depth() == levels {
                        0
                    } else {
                        low as int
                    };
                    &&& table.holds::<A>(places, page, level.depth(), base)
                    &&& no_leaves::<A::PTE>(
                        table.frames(),
                        places,
                        root,
                        A::spec_default_attributes(),
                    )
                    &&& table.self_mapped_by_default::<A>()
                    &&& !A::PTE::present(word_at(table.frames(), page, index as int))
                    &&& forall|i: int|
                        0 <= i < 0x1FE ==> #[trigger] word_at(table.frames(), root, i) == 0
                    &&& forall|q: u64| #[trigger]
                        places.contains_key(q) ==> places[q].level >= level.depth()
                    &&& table.frames().dom().finite()
                    &&& table.frames().dom().len() == levels + 1 - level.depth()
                    &&& fits::<A::PTE>(
                        Map::empty(),
                        root,
                        paging_type,
                        table.spec_memory().journal(),
                    )
                },
            decreases level.depth(),
        {
            let ghost n = level.depth();
            let ghost base = if n == levels {
                0
            } else {
                low as int
            };
            let ghost between = table;
            let result = table.ask_page();
            let ghost before = table;
            proof {
                A::PTE::lemma_word(0);
                lemma_chain(n, levels, low as int);
            }
            let next: u64 = match table.extend_entry(
                arch,
                page,
                level,
                index,
                low,
                offset,
                result,
                Ghost(places),
                Ghost(base),
            ) {
                Ok(next) => next,
                Err(e) => {
                    proof {
                        table.lemma_asked_one::<A>(&between, result);
                        table.lemma_built_more::<A>(&between, page_allocator, Err(e));
                        assert(Self::new_outcome::<A>(
                            page_allocator,
                            paging_type,
                            table.requests(),
                            Err(e),
                        ));
                    }
                    return Err(e);
                },
            };
            proof {
                table.lemma_asked_one::<A>(&between, result);
                table.lemma_built_more::<A>(&between, page_allocator, Ok(()));
                let steps = table.steps_since(&before);
                let known = before.spec_memory().journal();
                assert(table.spec_memory().journal() =~= known + steps) by {
                    assert forall|i: int| 0 <= i < known.len() implies
                        table.spec_memory().journal()[i] == known[i] by {
                        assert(table.spec_memory().journal().take(known.len() as int)[i]
                            == known[i]);
                    }
                }
                lemma_written_append(known, steps, paging_type, offset as int);
                if table.spec_sound() {
                    assert(before.frames().dom().len() + 1 == table.frames().dom().len());
                    assert(!A::PTE::present(words_of(table.frames(), next)[0]));
                    assert forall|i: int| 0 <= i < 0x1FE implies #[trigger] word_at(
                        table.frames(),
                        root,
                        i,
                    ) == 0 by {
                        assert(word_at(before.frames(), root, i) == 0);
                        if page != root {
                            assert(places.contains_key(root));
                        }
                    }
                    let places_after = places.insert(
                        next,
                        Place { level: (n - 1) as nat, base: low as int },
                    );
                    lemma_no_leaves_added::<A::PTE>(
                        before.frames(),
                        table.frames(),
                        places,
                        root,
                        page,
                        n,
                        base,
                        index as int,
                        next,
                        A::spec_default_attributes(),
                    );
                    before.memory.lemma_wf();
                    lemma_fits_append::<A::PTE>(
                        Map::empty(),
                        root,
                        paging_type,
                        known,
                        steps,
                    );
                    places = places_after;
                }
            }
            match level.next_level() {
                Some(below) => {
                    level = below;
                },
                None => {
                    assert(false);
                },
            }
            page = next;
            index = 0;
        }
        proof {
            if table.spec_sound() {
                assert(in_tree::<A::PTE>(table.frames(), places, root, root, levels, 0));
                assert(on_way::<A::PTE>(table.frames(), root, levels, page, 1, low as int));
                assert forall|va: int|
                    0 <= va < paging_type.space() && entry_index(levels, 0, va)
                        != 0x1FE implies #[trigger] table.walk_at::<A>(va) == (Walk {
                    restrictions: 0,
                    leaf: None,
                }) by {
                    lemma_no_leaves::<A::PTE>(
                        table.frames(),
                        places,
                        root,
                        root,
                        levels,
                        0,
                        va,
                        A::spec_default_attributes(),
                    );
                }
                assert forall|va: int|
                    0 <= va < paging_type.space() && entry_index(levels, 0, va)
                        != 0x1FE implies continued(
                    Seq::empty(),
                    #[trigger] table.links_at::<A>(va),
                    A::spec_default_attributes(),
                ) by {
                    lemma_no_leaves::<A::PTE>(
                        table.frames(),
                        places,
                        root,
                        root,
                        levels,
                        0,
                        va,
                        A::spec_default_attributes(),
                    );
                }
            }
            assert(Self::new_outcome::<A>(
                page_allocator,
                paging_type,
                table.requests(),
                Ok(table),
            ));
        }
        Ok(table)
    }

    /// Takes over the page table whose root is at `base` and whose tables `memory` holds.
    pub fn from_existing(
        page_allocator: P,
        base: u64,
        memory: PageMemory,
        paging_type: PagingType,
    ) -> (r: Result<Self, PtError>)
        requires
            memory.wf(),
        ensures
            if base % 0x1000 != 0 {
                r == Err::<Self, PtError>(PtError::UnalignedPageBase)
            } else {
                &&& r matches Ok(table)
                &&& table.wf()
                &&& table.root() == base
                &&& table.spec_memory() == memory
                &&& table.frames() == memory@
                &&& table.spec_paging_type() == paging_type
                &&& table.allocator() == page_allocator
                &&& table.requests() == Seq::<Request<P>>::empty()
                &&& table.spec_sound()
            },
    {
        if base % PAGE_SIZE != 0 {
            return Err(PtError::UnalignedPageBase);
        }
        let requests = Ghost(Seq::empty());
        Ok(PageTableInternal { memory, page_allocator, base, paging_type, sound: true, requests })
    }

    /// The root of the page table, which is given up.
    pub fn into_page_table_root(self) -> (r: u64)
        ensures
            r == self.root(),
    {
        self.base
    }
}

/// The tables for clearing pages all begin with the same address.
proof fn lemma_chain(n: nat, levels: nat, low: int)
    requires
        2 <= n <= levels,
        4 <= levels <= 5,
        low == entry_base(levels, 0, 0x1FF),
        aligned(levels, low),
    ensures
        n < levels ==> aligned(n + 1, low) && entry_base(n, low, 0) == low,
        aligned(levels + 1, 0),
        low + entry_size(n) <= table_size(levels),
        entry_size(n) <= entry_size(levels),
{
}

/// A root without entries, but for the self map, is a tree that maps nothing, and the changes that
/// make it can be carried out.
proof fn lemma_root<A: PageTableHal>(
    frames: Frames,
    root: u64,
    paging_type: PagingType,
    self_va: u64,
)
    requires
        whole_pages(frames),
        frames.contains_key(root),
        frames.dom() == Set::<u64>::empty().insert(root),
        forall|i: int| 0 <= i < 512 && i != 0x1FE ==> #[trigger] word_at(frames, root, i) == 0,
        self_va as int % paging_type.space() == entry_base(paging_type.levels(), 0, 0x1FE),
    ensures
        ({
            let levels = paging_type.levels();
            let places = Map::<u64, Place>::empty().insert(root, Place { level: levels, base: 0 });
            &&& in_tree::<A::PTE>(frames, places, root, root, levels, 0)
            &&& no_leaves::<A::PTE>(frames, places, root, A::spec_default_attributes())
            &&& forall|va: int| #[trigger]
                on_way::<A::PTE>(frames, root, levels, root, levels, va)
            &&& frames.dom().finite()
            &&& frames.dom().len() == 1
            &&& fits::<A::PTE>(
                Map::empty(),
                root,
                paging_type,
                root_steps::<A>(root, paging_type, self_va),
            )
        }),
{
    A::PTE::lemma_word(0);
    let levels = paging_type.levels();
    let places = Map::<u64, Place>::empty().insert(root, Place { level: levels, base: 0 });
    assert forall|p: u64, i: int| #[trigger] linked::<A::PTE>(frames, places, root, p, i) by {}
    let ops = root_steps::<A>(root, paging_type, self_va);
    let low = entry_base(levels, 0, 0x1FE);
    lemma_low_bits(paging_type, levels, self_va, 0);
    lemma_entry_base(levels, 0, 0x1FE, low);
    lemma_index(levels, 0, low);
    assert forall|k: int| 0 <= k < ops.len() implies op_fits::<A::PTE>(
        replay(Map::empty(), ops.take(k)),
        root,
        paging_type,
        #[trigger] ops[k],
    ) by {
        if k == 0 {
            assert(ops.take(0) =~= Seq::<MemoryOp>::empty());
        }
    }
}

/// A new table without entries keeps a tree that maps nothing.
proof fn lemma_no_leaves_added<E: PageTableEntry>(
    before: Frames,
    after: Frames,
    places: Places,
    root: u64,
    page: u64,
    n: nat,
    base: int,
    i: int,
    next: u64,
    attributes: u64,
)
    requires
        in_tree::<E>(before, places, root, page, n, base),
        no_leaves::<E>(before, places, root, attributes),
        n >= 2,
        0 <= i < 512,
        !E::present(word_at(before, page, i)),
        forall|q: u64| #[trigger] places.contains_key(q) ==> places[q].level >= n,
        !places.contains_key(next),
        confined(before, after, places, page, i),
        points_to_table::<E>(word_at(after, page, i), n),
        E::restrictions(word_at(after, page, i)) == 0,
        E::attributes(word_at(after, page, i)) == attributes,
        after.contains_key(next),
        pieces_of::<E>(words_of(after, next), word_at(before, page, i), n),
    ensures
        no_leaves::<E>(
            after,
            places.insert(
                next,
                Place { level: (n - 1) as nat, base: entry_base(n, base, i) },
            ),
            root,
            attributes,
        ),
{
    E::lemma_word(0);
    let places_after = places.insert(
        next,
        Place { level: (n - 1) as nat, base: entry_base(n, base, i) },
    );
    assert forall|p: u64, j: int|
        #![trigger word_at(after, p, j)]
        places_after.contains_key(p) && 0 <= j < 512 && !is_self_entry(root, p, j) && E::present(
            word_at(after, p, j),
        ) implies points_to_table::<E>(word_at(after, p, j), places_after[p].level)
        && E::restrictions(word_at(after, p, j)) == 0 && E::attributes(word_at(after, p, j))
        == attributes by {
        if p == next {
            assert(!E::present(words_of(after, next)[j]));
        } else if p == page && j == i {
        } else {
            assert(places.contains_key(p));
            assert(word_at(after, p, j) == word_at(before, p, j));
        }
    }
}

} // verus!
