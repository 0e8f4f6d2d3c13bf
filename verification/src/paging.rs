//! The page table engine: building, editing and reading the tables.
use vstd::prelude::*;
use crate::arch::{canonical_va, is_self_mapped_base, PageTableEntry, PageTableHal};
use crate::attributes::MemoryAttributes;
use crate::demand::{tables_below, tables_for_entry};
use crate::error::PtError;
use crate::journal::{
    at_place, fits, lemma_fits_append, lemma_place_down, lemma_place_kept, lemma_replay_append,
    lemma_written_append, on_way, op_fits, written_above,
};
use crate::links::{continued, entry_links_done, link_attributes, links_done};
use crate::memory::{replay, word_at, MemoryOp, PageMemory};
use crate::page_allocator::{
    all_fit, all_granted, allocator_at, answered_in_turn, ended_in, granted, grown_by,
    lemma_fit_append, lemma_granted_append, lemma_in_turn_append, refusal, takes, PageAllocator,
    Request,
};
use crate::structs::{
    aligned, entry_base, entry_index, lemma_entry_within, table_size, PageLevel, PagingType,
    PhysicalAddress, VirtualAddress, PAGE_SIZE, SELF_MAP_INDEX, SIZE_256TB, SIZE_512GB,
};
use crate::tree::{
    all_ready, confined_below, edit_done, entry_edit_done, entry_extents_done, extents_done,
    in_tree, is_self_entry, is_tree, kept, linked, points_to_table, walk, Edit, EditJob, Frames,
    Places, Progress, Walk,
};

pub mod clear;
pub mod create;
pub mod edit;
pub mod load;
pub mod read;

verus! {

/// A page table: its tables, and where the pages for new tables come from.
pub struct PageTableInternal<P: PageAllocator> {
    memory: PageMemory,
    page_allocator: P,
    base: u64,
    paging_type: PagingType,
    sound: bool,
    requests: Ghost<Seq<Request<P>>>,
}

/// Why a range of addresses cannot be looked at, if it cannot: it is empty or runs past the
/// last address, it is not made of whole pages, or it runs past the end of the address space.
pub open spec fn range_error(paging_type: PagingType, address: u64, size: u64) -> Option<PtError> {
    if size == 0 || address + size - 1 > 0xFFFF_FFFF_FFFF_FFFF {
        Some(PtError::InvalidMemoryRange)
    } else if address % 0x1000 != 0 || size % 0x1000 != 0 {
        Some(PtError::UnalignedAddress)
    } else if address as int % paging_type.space() + size > paging_type.space() {
        Some(PtError::InvalidMemoryRange)
    } else {
        None
    }
}

/// Why the mappings of a range of addresses cannot be changed, if they cannot: as above, or
/// the range runs into the root entries that are reserved.
pub open spec fn edit_range_error<A: PageTableHal>(
    paging_type: PagingType,
    address: u64,
    size: u64,
) -> Option<PtError> {
    match range_error(paging_type, address, size) {
        Some(e) => Some(e),
        None => if address + size - 1 > A::spec_max_va(paging_type).value || address as int
            % paging_type.space() + size > entry_base(paging_type.levels(), 0, 0x1FE) {
            Some(PtError::InvalidMemoryRange)
        } else {
            None
        },
    }
}

/// The edit of the addresses from `address` on.
pub open spec fn job_for(paging_type: PagingType, address: u64, size: u64, edit: Edit) -> EditJob {
    let start = address as int % paging_type.space();
    EditJob {
        edit,
        start: start as u64,
        end: (start + size) as u64,
        offset: (address - start) as u64,
    }
}

/// The low bits of an address, which the tables translate.
fn normalize(paging_type: PagingType, address: u64) -> (r: u64)
    ensures
        r == address as int % paging_type.space(),
        r < paging_type.space(),
        r <= address,
        (address - r) % 0x4000_0000 == 0,
        address - r + paging_type.space() <= 0x1_0000_0000_0000_0000,
        r % 0x1000 == address % 0x1000,
        (address - r) as int % paging_type.space() == 0,
{
    assert({
        &&& (address - address % 0x1_0000_0000_0000) % 0x4000_0000 == 0
        &&& (address - address % 0x200_0000_0000_0000) % 0x4000_0000 == 0
        &&& (address % 0x1_0000_0000_0000) % 0x1000 == address % 0x1000
        &&& (address % 0x200_0000_0000_0000) % 0x1000 == address % 0x1000
        &&& address - address % 0x1_0000_0000_0000 <= 0xFFFF_0000_0000_0000
        &&& address - address % 0x200_0000_0000_0000 <= 0xFE00_0000_0000_0000
        &&& (address - address % 0x1_0000_0000_0000) % 0x1_0000_0000_0000 == 0
        &&& (address - address % 0x200_0000_0000_0000) % 0x200_0000_0000_0000 == 0
    }) by (bit_vector);
    match paging_type {
        PagingType::Paging4Level => address % 0x1_0000_0000_0000,
        PagingType::Paging5Level => address % 0x200_0000_0000_0000,
    }
}

/// Checks that a range of addresses can be looked at.
fn check_range(paging_type: PagingType, address: u64, size: u64) -> (r: Result<(), PtError>)
    ensures
        match range_error(paging_type, address, size) {
            Some(e) => r == Err::<(), PtError>(e),
            None => r == Ok::<(), PtError>(()),
        },
{
    if size == 0 || size - 1 > 0xFFFF_FFFF_FFFF_FFFF - address {
        return Err(PtError::InvalidMemoryRange);
    }
    if address % PAGE_SIZE != 0 || size % PAGE_SIZE != 0 {
        return Err(PtError::UnalignedAddress);
    }
    if size > paging_type.address_space_size() - normalize(paging_type, address) {
        return Err(PtError::InvalidMemoryRange);
    }
    Ok(())
}

/// Checks that the mappings of a range of addresses can be changed.
fn check_edit_range<A: PageTableHal>(
    arch: &A,
    paging_type: PagingType,
    address: u64,
    size: u64,
) -> (r: Result<(), PtError>)
    ensures
        match edit_range_error::<A>(paging_type, address, size) {
            Some(e) => r == Err::<(), PtError>(e),
            None => r == Ok::<(), PtError>(()),
        },
{
    check_range(paging_type, address, size)?;
    let max_va: u64 = arch.get_max_va(paging_type)?.value;
    let reserved: u64 = match paging_type {
        PagingType::Paging4Level => 0x1FE * SIZE_512GB,
        PagingType::Paging5Level => 0x1FE * SIZE_256TB,
    };
    if address + (size - 1) > max_va || normalize(paging_type, address) + size > reserved {
        return Err(PtError::InvalidMemoryRange);
    }
    Ok(())
}

impl<P: PageAllocator> PageTableInternal<P> {
    /// The contents of the pages that hold tables.
    pub closed spec fn frames(&self) -> Frames {
        self.memory@
    }

    /// The memory that holds the tables.
    pub closed spec fn spec_memory(&self) -> PageMemory {
        self.memory
    }

    /// The page that holds the root table.
    pub closed spec fn root(&self) -> u64 {
        self.base
    }

    /// How many levels of tables there are.
    pub closed spec fn spec_paging_type(&self) -> PagingType {
        self.paging_type
    }

    /// Whether every page for a table was one that entries can point to and that did not
    /// hold a table before. Otherwise tables may overlap, and nothing is known of what the
    /// page table means.
    pub closed spec fn spec_sound(&self) -> bool {
        self.sound
    }

    /// Where pages for new tables come from.
    pub closed spec fn allocator(&self) -> P {
        self.page_allocator
    }

    /// Every request for a page so far.
    pub closed spec fn requests(&self) -> Seq<Request<P>> {
        self.requests@
    }

    /// The requests for pages since `before`.
    pub open spec fn asked_since(&self, before: &Self) -> Seq<Request<P>> {
        self.requests().skip(before.requests().len() as int)
    }

    /// Whether the allocator has been asked for pages since `before`, none of them for a root,
    /// until one was refused, which is the error in `r`, or until there were enough.
    pub open spec fn has_asked(&self, before: &Self, r: Result<(), PtError>) -> bool {
        let asked = self.asked_since(before);
        &&& self.requests() =~= before.requests() + asked
        &&& answered_in_turn(before.allocator(), asked)
        &&& self.allocator() == allocator_at(before.allocator(), asked, asked.len() as int)
        &&& forall|k: int| 0 <= k < asked.len() ==> !(#[trigger] asked[k]).is_root
        &&& match r {
            Ok(_) => all_granted(asked),
            Err(e) => ended_in(asked, e),
        }
    }

    /// Whether there were `needed` requests for pages since `before`, or no more than that if not
    /// all is done.
    pub open spec fn has_asked_for(&self, before: &Self, needed: nat, complete: bool) -> bool {
        let asked = self.asked_since(before);
        asked.len() <= needed && (complete ==> asked.len() == needed)
    }

    /// Whether the tables are still sound exactly if all pages granted since `before` are fit for
    /// tables. Then the tables are in these pages and those of before.
    pub open spec fn sound_if_fit<A: PageTableHal>(&self, before: &Self) -> bool {
        let asked = self.asked_since(before);
        before.spec_sound() ==> {
            &&& self.spec_sound() <==> all_fit(before.frames(), asked, A::PTE::address_limit())
            &&& self.spec_sound() ==> grown_by(before.frames(), self.frames(), asked)
        }
    }

    /// The root is page aligned, and the image of the tables is well-formed.
    pub closed spec fn wf(&self) -> bool {
        &&& self.memory.wf()
        &&& self.base % 0x1000 == 0
    }

    /// What being well-formed gives a caller, who can then take over the same tables again.
    pub proof fn lemma_wf(&self)
        requires
            self.wf(),
        ensures
            self.root() % 0x1000 == 0,
            self.spec_memory().wf(),
            self.spec_memory()@ == self.frames(),
    {
    }

    /// Everything but the contents of tables is as before.
    pub open spec fn same_setup(&self, other: &Self) -> bool {
        &&& self.root() == other.root()
        &&& self.spec_paging_type() == other.spec_paging_type()
        &&& self.spec_memory().origin() == other.spec_memory().origin()
    }

    /// The changes in the journal lead from the memory at the time the journal was last taken to
    /// the present one. Carried out on physical memory they keep it up to date.
    pub proof fn law_journal(&self)
        requires
            self.wf(),
        ensures
            self.frames() == replay(self.spec_memory().origin(), self.spec_memory().journal()),
    {
        self.memory.lemma_wf();
    }

    /// Whether the journal goes on from where it was.
    pub open spec fn has_logged(&self, before: &Self) -> bool {
        let known = before.spec_memory().journal();
        let journal = self.spec_memory().journal();
        known.len() <= journal.len() && journal.take(known.len() as int) =~= known
    }

    /// What the journal has gained.
    pub open spec fn steps_since(&self, before: &Self) -> Seq<MemoryOp> {
        self.spec_memory().journal().skip(before.spec_memory().journal().len() as int)
    }

    /// Whether what the journal has gained writes entries only for addresses whose bits above the
    /// address space make up `offset`.
    pub open spec fn has_written_above(&self, before: &Self, offset: int) -> bool {
        written_above(self.steps_since(before), self.spec_paging_type(), offset)
    }

    /// Whether what the journal has gained can be carried out, one change after the other, on
    /// memory that is as the tables were before.
    pub open spec fn can_follow<A: PageTableHal>(&self, before: &Self) -> bool {
        self.has_logged(before) && fits::<A::PTE>(
            before.frames(),
            self.root(),
            self.spec_paging_type(),
            self.steps_since(before),
        )
    }

    /// Whether `page` holds the table at depth `n` for addresses from `base` on, in a tree, and the
    /// root leads to it.
    pub open spec fn holds<A: PageTableHal>(
        &self,
        places: Places,
        page: u64,
        n: nat,
        base: int,
    ) -> bool {
        let levels = self.spec_paging_type().levels();
        &&& in_tree::<A::PTE>(self.frames(), places, self.root(), page, n, base)
        &&& in_tree::<A::PTE>(self.frames(), places, self.root(), self.root(), levels, 0)
        &&& at_place::<A::PTE>(self.frames(), self.root(), levels, page, n, base)
        &&& 0 <= base
        &&& base + table_size(n) <= self.spec_paging_type().space()
    }

    /// What an edit of entry `i` of the table in `page` leaves behind, if it was done for the
    /// addresses below `cut`, with all of it done if `complete`.
    pub open spec fn entry_edited<A: PageTableHal>(
        &self,
        before: &Self,
        places: Places,
        page: u64,
        n: nat,
        base: int,
        i: int,
        job: EditJob,
        progress: Progress,
        complete: bool,
    ) -> bool {
        &&& entry_edit_done::<A::PTE>(
            before.frames(),
            self.frames(),
            places,
            progress.places,
            self.root(),
            page,
            i,
            job,
            progress.cut,
        )
        &&& complete ==> entry_extents_done::<A::PTE>(
            before.frames(),
            self.frames(),
            page,
            n,
            base,
            i,
            job,
        )
        &&& entry_links_done::<A::PTE>(
            before.frames(),
            self.frames(),
            page,
            n,
            base,
            i,
            A::spec_default_attributes(),
        )
        &&& self.has_asked_for(
            before,
            tables_for_entry::<A::PTE>(before.frames(), page, n, base, i as nat, job),
            complete,
        )
        &&& self.can_follow::<A>(before)
    }

    /// What an edit of the table in `page` leaves behind, if it was done for the addresses below
    /// `cut`, with all of it done if `complete`.
    pub open spec fn table_edited<A: PageTableHal>(
        &self,
        before: &Self,
        places: Places,
        page: u64,
        n: nat,
        base: int,
        job: EditJob,
        progress: Progress,
        complete: bool,
    ) -> bool {
        &&& edit_done::<A::PTE>(
            before.frames(),
            self.frames(),
            places,
            progress.places,
            self.root(),
            page,
            job,
            progress.cut,
        )
        &&& complete ==> extents_done::<A::PTE>(
            before.frames(),
            self.frames(),
            self.root(),
            page,
            n,
            base,
            job,
        )
        &&& links_done::<A::PTE>(
            before.frames(),
            self.frames(),
            self.root(),
            page,
            n,
            base,
            A::spec_default_attributes(),
        )
        &&& self.has_asked_for(
            before,
            tables_below::<A::PTE>(before.frames(), page, n, base, 512, job),
            complete,
        )
        &&& self.can_follow::<A>(before)
    }

    /// The root leads to the table that an entry points to.
    proof fn lemma_holds_below<A: PageTableHal>(
        &self,
        places: Places,
        page: u64,
        n: nat,
        base: int,
        i: int,
    )
        requires
            self.holds::<A>(places, page, n, base),
            0 <= i < 512,
            aligned(n + 1, base),
            !is_self_entry(self.root(), page, i),
            points_to_table::<A::PTE>(word_at(self.frames(), page, i), n),
        ensures
            n >= 2,
            self.holds::<A>(
                places,
                A::PTE::next_address(word_at(self.frames(), page, i)),
                (n - 1) as nat,
                entry_base(n, base, i),
            ),
            A::PTE::next_address(word_at(self.frames(), page, i)) != self.root(),
    {
        let levels = self.spec_paging_type().levels();
        A::PTE::lemma_word(word_at(self.frames(), page, i));
        assert(linked::<A::PTE>(self.frames(), places, self.root(), page, i));
        lemma_entry_within(n, base, i);
        assert(on_way::<A::PTE>(self.frames(), self.root(), levels, page, n, base));
        lemma_place_down::<A::PTE>(self.frames(), self.root(), levels, page, n, base, i);
    }

    /// The root still leads to a table after a change below it.
    proof fn lemma_holds_kept<A: PageTableHal>(
        &self,
        before: &Self,
        places: Places,
        places_after: Places,
        page: u64,
        n: nat,
        base: int,
    )
        requires
            before.holds::<A>(places, page, n, base),
            self.root() == before.root(),
            self.spec_paging_type() == before.spec_paging_type(),
            is_tree::<A::PTE>(self.frames(), places_after, self.root()),
            kept(places, places_after),
            confined_below(before.frames(), self.frames(), places, page),
        ensures
            self.holds::<A>(places_after, page, n, base),
    {
        let levels = self.spec_paging_type().levels();
        assert(places_after.contains_key(page) && places_after.contains_key(self.root()));
        lemma_place_kept::<A::PTE>(
            before.frames(),
            self.frames(),
            places,
            self.root(),
            levels,
            page,
            n,
            base,
        );
    }

    /// Nothing new in the journal can be carried out.
    proof fn lemma_follow_none<A: PageTableHal>(&self, before: &Self)
        requires
            self.spec_memory().journal() == before.spec_memory().journal(),
        ensures
            self.can_follow::<A>(before),
            forall|offset: int| #[trigger] self.has_written_above(before, offset),
    {
        assert(self.steps_since(before) =~= Seq::<MemoryOp>::empty());
    }

    /// One change can be carried out if it fits.
    proof fn lemma_follow_one<A: PageTableHal>(&self, before: &Self, op: MemoryOp)
        requires
            self.spec_memory().journal() == before.spec_memory().journal().push(op),
        ensures
            self.has_logged(before),
            op_fits::<A::PTE>(before.frames(), self.root(), self.spec_paging_type(), op)
                ==> self.can_follow::<A>(before),
            forall|offset: int|
                written_above(seq![op], self.spec_paging_type(), offset)
                    ==> #[trigger] self.has_written_above(before, offset),
    {
        let steps = self.steps_since(before);
        assert(steps =~= seq![op]);
        assert(steps.take(0) =~= Seq::<MemoryOp>::empty());
    }

    /// What can be carried out in two parts can be carried out.
    proof fn lemma_follow<A: PageTableHal>(&self, between: &Self, before: &Self)
        requires
            before.wf(),
            between.wf(),
            self.same_setup(between),
            between.same_setup(before),
            between.has_logged(before),
            self.has_logged(between),
        ensures
            self.has_logged(before),
            self.can_follow::<A>(between) && between.can_follow::<A>(before) ==> self.can_follow::<
                A,
            >(before),
            forall|offset: int|
                between.has_written_above(before, offset) && self.has_written_above(between, offset)
                    ==> #[trigger] self.has_written_above(before, offset),
    {
        let known = before.spec_memory().journal();
        let middle = between.spec_memory().journal();
        let journal = self.spec_memory().journal();
        let first = between.steps_since(before);
        let second = self.steps_since(between);
        assert(journal.take(known.len() as int) =~= known) by {
            assert forall|i: int| 0 <= i < known.len() implies journal[i] == known[i] by {
                assert(journal.take(middle.len() as int)[i] == middle[i]);
                assert(middle.take(known.len() as int)[i] == known[i]);
            }
        }
        assert(middle =~= known + first) by {
            assert forall|i: int| 0 <= i < middle.len() implies middle[i] == (known + first)[i] by {
                if i < known.len() {
                    assert(middle.take(known.len() as int)[i] == known[i]);
                }
            }
        }
        assert(self.steps_since(before) =~= first + second) by {
            assert forall|i: int| 0 <= i < first.len() implies #[trigger] self.steps_since(
                before,
            )[i] == first[i] by {
                let j = i + known.len();
                assert(journal.take(middle.len() as int)[j] == middle[j]);
            }
        }
        assert forall|offset: int|
            between.has_written_above(before, offset) && self.has_written_above(
                between,
                offset,
            ) implies #[trigger] self.has_written_above(before, offset) by {
            lemma_written_append(first, second, self.spec_paging_type(), offset);
        }
        before.memory.lemma_wf();
        between.memory.lemma_wf();
        lemma_replay_append(before.spec_memory().origin(), known, first);
        if self.can_follow::<A>(between) && between.can_follow::<A>(before) {
            lemma_fits_append::<A::PTE>(
                before.frames(),
                self.root(),
                self.spec_paging_type(),
                first,
                second,
            );
        }
    }

    /// Nothing was asked for.
    proof fn lemma_asked_none<A: PageTableHal>(&self, before: &Self)
        requires
            self.requests() == before.requests(),
            self.allocator() == before.allocator(),
        ensures
            self.has_asked(before, Ok(())),
            self.asked_since(before) == Seq::<Request<P>>::empty(),
            self.spec_sound() == before.spec_sound() && self.frames().dom() == before.frames().dom()
                ==> self.sound_if_fit::<A>(before),
    {
        let asked = self.asked_since(before);
        assert(asked =~= Seq::<Request<P>>::empty());
        if self.frames().dom() == before.frames().dom() {
            assert forall|page: u64| #[trigger]
                self.frames().contains_key(page) <==> before.frames().contains_key(page) || takes(
                    asked,
                    page,
                ) by {
                assert(self.frames().dom().contains(page) == before.frames().dom().contains(page));
            }
        }
    }

    /// One page was asked for.
    proof fn lemma_asked_one<A: PageTableHal>(&self, before: &Self, answer: Result<u64, PtError>)
        requires
            self.requests() == before.requests().push(
                Request { is_root: false, answer, after: self.allocator() },
            ),
            before.allocator().may_answer(&self.allocator(), 0x1000, 0x1000, false, answer),
        ensures
            self.asked_since(before).len() == 1,
            ({
                let request = Request { is_root: false, answer, after: self.allocator() };
                match granted(request) {
                    Some(page) => {
                        &&& self.has_asked(before, Ok(()))
                        &&& self.spec_sound() == (before.spec_sound()
                            && !before.frames().contains_key(page) && page
                            < A::PTE::address_limit()) && (self.spec_sound()
                            ==> self.frames().dom() == before.frames().dom().insert(page))
                            ==> self.sound_if_fit::<A>(before)
                    },
                    None => {
                        &&& self.has_asked(before, Err(refusal(request)))
                        &&& self.spec_sound() == before.spec_sound() && self.frames()
                            == before.frames() ==> self.sound_if_fit::<A>(before)
                    },
                }
            }),
    {
        let request = Request { is_root: false, answer, after: self.allocator() };
        let asked = self.asked_since(before);
        assert(asked =~= seq![request]);
        assert(asked.drop_last() =~= Seq::<Request<P>>::empty());
        assert(asked[0] == request);
        assert forall|page: u64| #[trigger] takes(asked, page) <==> granted(request) == Some(
            page,
        ) by {
            if granted(request) == Some(page) {
                assert(granted(asked[0]) == Some(page));
            }
        }
        if granted(request) is Some && self.frames().dom() == before.frames().dom().insert(
            granted(request)->0,
        ) {
            assert forall|page: u64| #[trigger]
                self.frames().contains_key(page) <==> before.frames().contains_key(page) || takes(
                    asked,
                    page,
                ) by {
                assert(self.frames().dom().contains(page) == before.frames().dom().insert(
                    granted(request)->0,
                ).contains(page));
            }
        }
    }

    /// What was asked for in two parts.
    proof fn lemma_asked<A: PageTableHal>(
        &self,
        between: &Self,
        before: &Self,
        r: Result<(), PtError>,
    )
        requires
            between.has_asked(before, Ok(())),
            self.has_asked(between, r),
            self.spec_sound() ==> between.spec_sound(),
        ensures
            self.has_asked(before, r),
            self.asked_since(before).len() == between.asked_since(before).len() + self.asked_since(
                between,
            ).len(),
            between.sound_if_fit::<A>(before) && (between.spec_sound()
                ==> self.sound_if_fit::<A>(between)) ==> self.sound_if_fit::<A>(before),
    {
        let first = between.asked_since(before);
        let second = self.asked_since(between);
        let asked = self.asked_since(before);
        assert(asked =~= first + second);
        lemma_in_turn_append(before.allocator(), first, second);
        lemma_granted_append(first, second);
        lemma_fit_append(
            before.frames(),
            between.frames(),
            first,
            second,
            A::PTE::address_limit(),
        );
        assert forall|k: int| 0 <= k < asked.len() implies !(#[trigger] asked[k]).is_root by {
            if k < first.len() {
                assert(asked[k] == first[k]);
            } else {
                assert(asked[k] == second[k - first.len()]);
            }
        }
        if between.sound_if_fit::<A>(before) && (between.spec_sound()
            ==> self.sound_if_fit::<A>(between)) && before.spec_sound() && self.spec_sound() {
            assert forall|page: u64| #[trigger]
                self.frames().contains_key(page) <==> before.frames().contains_key(page) || takes(
                    asked,
                    page,
                ) by {
                assert(between.frames().contains_key(page) <==> before.frames().contains_key(page)
                    || takes(first, page));
                assert(takes(first + second, page) <==> takes(first, page) || takes(second, page));
            }
        }
    }

    /// The walk from the root for the address `va` of the address space.
    pub open spec fn walk_at<A: PageTableHal>(&self, va: int) -> Walk {
        walk::<A::PTE>(self.frames(), self.root(), self.spec_paging_type().levels(), 0, va)
    }

    /// The attributes of the entries that point to tables on the way of the address `va`, from
    /// the root down.
    pub open spec fn links_at<A: PageTableHal>(&self, va: int) -> Seq<u64> {
        link_attributes::<A::PTE>(
            self.frames(),
            self.root(),
            self.spec_paging_type().levels(),
            0,
            va,
        )
    }

    /// Whether all entries that point to tables, but for the self map, have the default
    /// attributes.
    pub open spec fn has_default_links<A: PageTableHal>(&self) -> bool {
        let n = self.spec_paging_type().levels();
        forall|va: int|
            0 <= va < self.spec_paging_type().space() && entry_index(n, 0, va) != 0x1FE
                ==> continued(
                Seq::empty(),
                #[trigger] self.links_at::<A>(va),
                A::spec_default_attributes(),
            )
    }

    /// Whether all entries that point to tables, but for the self map, are those of `before` or
    /// have the default attributes.
    pub open spec fn linked_by_default<A: PageTableHal>(&self, before: &Self) -> bool {
        let n = self.spec_paging_type().levels();
        forall|va: int|
            0 <= va < self.spec_paging_type().space() && entry_index(n, 0, va) != 0x1FE
                ==> continued(
                before.links_at::<A>(va),
                #[trigger] self.links_at::<A>(va),
                A::spec_default_attributes(),
            )
    }

    /// Whether the tables form a tree, but for the self map.
    pub open spec fn has_tree<A: PageTableHal>(&self) -> bool {
        exists|places: Places| #[trigger]
            in_tree::<A::PTE>(
                self.frames(),
                places,
                self.root(),
                self.root(),
                self.spec_paging_type().levels(),
                0,
            )
    }

    /// Whether `job` can be carried out without a new table.
    pub open spec fn is_ready<A: PageTableHal>(&self, job: EditJob) -> bool {
        all_ready::<A::PTE>(
            self.frames(),
            self.root(),
            self.spec_paging_type().levels(),
            0,
            job,
        )
    }

    /// How many new tables `job` takes.
    pub open spec fn tables_needed<A: PageTableHal>(&self, job: EditJob) -> nat {
        tables_below::<A::PTE>(
            self.frames(),
            self.root(),
            self.spec_paging_type().levels(),
            0,
            512,
            job,
        )
    }

    /// Whether `job` has been carried out on `before` for the addresses below `cut`, and
    /// nothing else has changed for any address outside the self map.
    pub open spec fn edited_until<A: PageTableHal>(
        &self,
        before: &Self,
        job: EditJob,
        cut: int,
    ) -> bool {
        let n = self.spec_paging_type().levels();
        &&& job.start <= cut <= job.end
        &&& word_at(self.frames(), self.root(), 0x1FE) == word_at(
            before.frames(),
            before.root(),
            0x1FE,
        )
        &&& forall|va: int|
            0 <= va < self.spec_paging_type().space() && entry_index(n, 0, va) != 0x1FE
                ==> #[trigger] self.walk_at::<A>(va) == job.edited::<A::PTE>(
                before.walk_at::<A>(va),
                va,
                cut,
            )
    }

    /// Whether entries have the sizes that `job` calls for after it has been carried out on
    /// `before`, for every address outside the self map.
    pub open spec fn resized<A: PageTableHal>(&self, before: &Self, job: EditJob) -> bool {
        let n = self.spec_paging_type().levels();
        forall|va: int|
            0 <= va < self.spec_paging_type().space() && entry_index(n, 0, va) != 0x1FE
                ==> #[trigger] self.extent_at::<A>(va) == job.extent_after::<A::PTE>(
                before.frames(),
                before.root(),
                n,
                0,
                va,
            )
    }

    /// What an edit of a range leaves behind, with the outcome `r`. The edit fails exactly if
    /// the allocator refuses a page, with the error that comes of that, and asks for as many
    /// pages as new tables are needed. On success all of the range is edited, with entries as
    /// large as can be; otherwise an initial part of it is edited. Either way new tables are
    /// linked with the default attributes, and the changes in the journal can be carried out
    /// one after the other. They are for addresses with the same bits above the address space
    /// as the range. What the tables mean takes a tree, and pages from the allocator that are
    /// fit for tables.
    pub open spec fn edit_outcome<A: PageTableHal>(
        &self,
        before: &Self,
        job: EditJob,
        r: Result<(), PtError>,
    ) -> bool {
        &&& self.same_setup(before)
        &&& self.has_asked(before, r)
        &&& self.has_written_above(before, job.offset as int)
        &&& self.spec_sound() ==> before.spec_sound()
        &&& before.has_tree::<A>() ==> self.sound_if_fit::<A>(before)
        &&& before.has_tree::<A>() && self.spec_sound() ==> self.has_tree::<A>() && exists|cut: int|
            #[trigger] self.edited_until::<A>(before, job, cut) && (r is Ok ==> cut == job.end)
        &&& before.has_tree::<A>() && self.spec_sound() && r is Ok ==> self.resized::<A>(
            before,
            job,
        )
        &&& before.has_tree::<A>() && self.spec_sound() ==> {
            &&& self.has_asked_for(before, before.tables_needed::<A>(job), r is Ok)
            &&& self.linked_by_default::<A>(before)
            &&& self.can_follow::<A>(before)
        }
        &&& before.has_tree::<A>() && before.spec_sound() && before.is_ready::<A>(job) ==> {
            &&& r is Ok
            &&& self.spec_sound()
            &&& self.requests() == before.requests()
        }
    }

    /// Carries out an edit of the addresses from `address` on.
    fn edit_range<A: PageTableHal>(&mut self, arch: &A, address: u64, size: u64, edit: Edit) -> (r:
        Result<(), PtError>)
        requires
            old(self).wf(),
            edit_range_error::<A>(old(self).spec_paging_type(), address, size) is None,
            edit matches Edit::Mapping { attributes } ==> A::PTE::supported(attributes.bits),
        ensures
            final(self).wf(),
            final(self).edit_outcome::<A>(
                old(self),
                job_for(old(self).spec_paging_type(), address, size, edit),
                r,
            ),
    {
        let start: u64 = normalize(self.paging_type, address);
        let job = EditJob { edit, start, end: start + size, offset: address - start };
        let level: PageLevel = PageLevel::root_level(self.paging_type);
        let page: u64 = self.base;
        let ghost places = choose|places: Places| #[trigger]
            in_tree::<A::PTE>(
                self.frames(),
                places,
                self.root(),
                self.root(),
                self.spec_paging_type().levels(),
                0,
            );
        proof {
            let n = self.spec_paging_type().levels();
            if self.has_tree::<A>() {
                assert forall|va: int| 0 <= va < table_size(n) implies #[trigger] on_way::<A::PTE>(
                    self.frames(),
                    self.root(),
                    n,
                    page,
                    n,
                    va,
                ) by {}
                assert(self.holds::<A>(places, page, n, 0));
            }
        }
        let (result, Ghost(progress)) = self.edit_level(arch, page, level, 0, job, Ghost(places));
        proof {
            let n = self.spec_paging_type().levels();
            let cut = if progress.cut < job.start {
                job.start as int
            } else {
                progress.cut
            };
            if old(self).has_tree::<A>() && self.spec_sound() {
                assert(in_tree::<A::PTE>(
                    self.frames(),
                    progress.places,
                    self.root(),
                    self.root(),
                    n,
                    0,
                ));
                assert forall|va: int|
                    0 <= va < self.spec_paging_type().space() && entry_index(n, 0, va)
                        != 0x1FE implies #[trigger] self.walk_at::<A>(va) == job.edited::<A::PTE>(
                    old(self).walk_at::<A>(va),
                    va,
                    cut,
                ) by {}
                assert(self.edited_until::<A>(old(self), job, cut));
                assert forall|va: int|
                    0 <= va < self.spec_paging_type().space() && entry_index(n, 0, va)
                        != 0x1FE implies continued(
                    old(self).links_at::<A>(va),
                    #[trigger] self.links_at::<A>(va),
                    A::spec_default_attributes(),
                ) by {}
                if result is Ok {
                    assert forall|va: int|
                        0 <= va < self.spec_paging_type().space() && entry_index(n, 0, va)
                            != 0x1FE implies #[trigger] self.extent_at::<A>(va)
                        == job.extent_after::<A::PTE>(
                        old(self).frames(),
                        old(self).root(),
                        n,
                        0,
                        va,
                    ) by {}
                }
            }
        }
        result
    }

    /// Maps the addresses from `address` on to themselves.
    pub fn map_memory_region<A: PageTableHal>(
        &mut self,
        arch: &A,
        address: u64,
        size: u64,
        attributes: MemoryAttributes,
    ) -> (r: Result<(), PtError>)
        requires
            old(self).wf(),
        ensures
            final(self).wf(),
            match edit_range_error::<A>(old(self).spec_paging_type(), address, size) {
                Some(e) => r == Err::<(), PtError>(e) && *final(self) == *old(self),
                None => if !A::PTE::supported(attributes.bits) {
                    r == Err::<(), PtError>(PtError::InvalidParameter) && *final(self) == *old(self)
                } else {
                    final(self).edit_outcome::<A>(
                        old(self),
                        job_for(
                            old(self).spec_paging_type(),
                            address,
                            size,
                            Edit::Mapping { attributes },
                        ),
                        r,
                    )
                },
            },
    {
        check_edit_range(arch, self.paging_type, address, size)?;
        let mut probe = A::PTE::from_word(0);
        probe.update_fields(attributes, PhysicalAddress::new(0), true, PageLevel::Level1)?;
        self.edit_range(arch, address, size, Edit::Mapping { attributes })
    }

    /// Removes the mappings of the addresses from `address` on.
    pub fn unmap_memory_region<A: PageTableHal>(&mut self, arch: &A, address: u64, size: u64) -> (r:
        Result<(), PtError>)
        requires
            old(self).wf(),
        ensures
            final(self).wf(),
            match edit_range_error::<A>(old(self).spec_paging_type(), address, size) {
                Some(e) => r == Err::<(), PtError>(e) && *final(self) == *old(self),
                None => final(self).edit_outcome::<A>(
                    old(self),
                    job_for(old(self).spec_paging_type(), address, size, Edit::Removal),
                    r,
                ),
            },
    {
        check_edit_range(arch, self.paging_type, address, size)?;
        self.edit_range(arch, address, size, Edit::Removal)
    }

    /// How many levels of tables there are.
    pub fn paging_type(&self) -> (r: PagingType)
        ensures
            r == self.spec_paging_type(),
    {
        self.paging_type
    }

    /// Whether every page for a table was fit for one. Otherwise the tables cannot be relied on.
    pub fn is_sound(&self) -> (r: bool)
        ensures
            r == self.spec_sound(),
    {
        self.sound
    }

    /// The memory that holds the tables.
    pub fn memory(&self) -> (r: &PageMemory)
        ensures
            *r == self.spec_memory(),
            r@ == self.frames(),
            self.wf() ==> r.wf(),
    {
        &self.memory
    }

    /// Hands out the changes to the memory since the last time, in order.
    pub fn take_journal(&mut self) -> (r: Vec<MemoryOp>)
        requires
            old(self).wf(),
        ensures
            old(self).frames() == replay(old(self).spec_memory().origin(), r@),
            r@ == old(self).spec_memory().journal(),
            final(self).wf(),
            final(self).root() == old(self).root(),
            final(self).spec_paging_type() == old(self).spec_paging_type(),
            final(self).spec_sound() == old(self).spec_sound(),
            final(self).allocator() == old(self).allocator(),
            final(self).requests() == old(self).requests(),
            final(self).frames() == old(self).frames(),
            final(self).spec_memory().journal() == Seq::<MemoryOp>::empty(),
            final(self).spec_memory().origin() == old(self).frames(),
    {
        self.memory.take_journal()
    }

    /// Makes the processor use this page table.
    pub fn install_page_table<A: PageTableHal>(
        &self,
        arch: &A,
        registers: &mut A::Registers,
    ) -> (r: Result<(), PtError>)
        ensures
            match A::installed(*old(registers), self.root(), self.spec_paging_type()) {
                Ok(after) => r == Ok::<(), PtError>(()) && *final(registers) == after,
                Err(e) => r == Err::<(), PtError>(e) && *final(registers) == *old(registers),
            },
    {
        arch.install_page_table(registers, self.base, self.paging_type)
    }

    /// Whether the tables have to be written through the self map: the processor uses them, and
    /// the root maps itself.
    pub fn uses_self_map<A: PageTableHal>(&self, arch: &A, registers: &A::Registers) -> (r: bool)
        requires
            self.wf(),
        ensures
            r == (A::active(*registers, self.root()) && self.self_mapped::<A>()),
    {
        let self_entry = A::PTE::from_word(self.memory.read(self.base, SELF_MAP_INDEX));
        arch.is_table_active(registers, self.base) && self_entry.get_present_bit()
            && self_entry.get_next_address().value == self.base
    }

    /// Where entry `index` of the table in `table` can be written. The table is at `level`, and
    /// the entry translates `va`. In a page table in use that maps itself this is an address
    /// in the self map, in the form that the processor expects, otherwise the physical address.
    pub fn entry_address<A: PageTableHal>(
        &self,
        arch: &A,
        registers: &A::Registers,
        table: u64,
        index: u64,
        level: PageLevel,
        va: u64,
    ) -> (r: u64)
        requires
            self.wf(),
            index < 512,
            table <= 0xFFFF_FFFF_FFFF_F000,
            A::self_map_defined(level, self.spec_paging_type()),
        ensures
            if A::active(*registers, self.root()) && self.self_mapped::<A>() {
                &&& is_self_mapped_base(
                    self.spec_paging_type().levels(),
                    level.depth(),
                    va as int,
                    r - 8 * index,
                )
                &&& r - 8 * index == canonical_va(
                    (r - 8 * index) % self.spec_paging_type().space(),
                    self.spec_paging_type(),
                    A::spec_sign_extends(),
                )
            } else {
                r == table + 8 * index
            },
    {
        if self.uses_self_map(arch, registers) {
            let base: u64 = arch.get_self_mapped_base(
                level,
                VirtualAddress::new(va),
                self.paging_type,
            );
            base + 8 * index
        } else {
            table + 8 * index
        }
    }
}

} // verus!
