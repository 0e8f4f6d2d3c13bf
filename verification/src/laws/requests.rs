//! What holds of the pages that an allocator is asked for.
use vstd::prelude::*;
use crate::arch::{PageTableEntry, PageTableHal};
use crate::error::PtError;
use crate::laws::bits::{address_count, level_count};
use crate::memory::word_at;
use crate::page_allocator::{PageAllocator, Request};
use crate::paging::{job_for, PageTableInternal};
use crate::structs::PagingType;
use crate::tree::Edit;

verus! {

/// Whether an answer is a page that a table can begin at.
pub open spec fn is_page(answer: Result<u64, PtError>) -> bool {
    match answer {
        Ok(page) => page % 4096 == 0,
        Err(_) => false,
    }
}

/// Whether the answers are pages below `limit` that hold no table yet, and none comes twice.
pub open spec fn are_fit<P>(
    frames: Map<u64, Seq<u64>>,
    requests: Seq<Request<P>>,
    limit: int,
) -> bool {
    &&& forall|k: int|
        0 <= k < requests.len() && is_page((#[trigger] requests[k]).answer) ==> {
            &&& requests[k].answer->Ok_0 < limit
            &&& !frames.contains_key(requests[k].answer->Ok_0)
        }
    &&& forall|j: int, k: int|
        0 <= j < k < requests.len() && is_page((#[trigger] requests[j]).answer) && is_page(
            (#[trigger] requests[k]).answer,
        ) ==> requests[j].answer != requests[k].answer
}

/// How an edit deals with the allocator. Every request is for one page of 4 KB, aligned to its
/// size, and not for a root. All are answered with pages if the edit succeeds. If it fails, the
/// last one is not: its error is the one of the edit, or the page was not aligned.
pub proof fn law_edit_requests<P: PageAllocator, A: PageTableHal>(
    before: PageTableInternal<P>,
    after: PageTableInternal<P>,
    address: u64,
    size: u64,
    edit: Edit,
    r: Result<(), PtError>,
    k: int,
)
    requires
        after.edit_outcome::<A>(
            &before,
            job_for(before.spec_paging_type(), address, size, edit),
            r,
        ),
        0 <= k < after.asked_since(&before).len(),
    ensures
        ({
            let asked = after.asked_since(&before);
            let asked_allocator = if k == 0 {
                before.allocator()
            } else {
                asked[k - 1].after
            };
            &&& asked_allocator.may_answer(&asked[k].after, 4096, 4096, false, asked[k].answer)
            &&& !asked[k].is_root
            &&& after.allocator() == asked[asked.len() - 1].after
            &&& r is Ok || k < asked.len() - 1 <==> is_page(asked[k].answer)
            &&& k == asked.len() - 1 ==> match (r, asked[k].answer) {
                (Ok(_), _) => true,
                (Err(e), Ok(_)) => e == PtError::UnalignedPageBase,
                (Err(e), Err(refused)) => e == refused,
            }
        }),
{
    let asked = after.asked_since(&before);
    let request = asked[k];
    if r is Err && k < asked.len() - 1 {
        assert(asked.drop_last()[k] == asked[k]);
    }
    if k == asked.len() - 1 {
        assert(asked.last() == asked[k]);
    }
}

/// An edit that fails has been refused a page.
pub proof fn law_failure_is_refusal<P: PageAllocator, A: PageTableHal>(
    before: PageTableInternal<P>,
    after: PageTableInternal<P>,
    address: u64,
    size: u64,
    edit: Edit,
    e: PtError,
)
    requires
        after.edit_outcome::<A>(
            &before,
            job_for(before.spec_paging_type(), address, size, edit),
            Err(e),
        ),
    ensures
        after.asked_since(&before).len() > 0,
        after.asked_since(&before).last().answer == Err::<u64, PtError>(e) || (
        e == PtError::UnalignedPageBase && after.asked_since(&before).last().answer is Ok
            && after.asked_since(&before).last().answer->Ok_0 % 4096 != 0),
{
}

/// A page table stays sound through an edit if the pages that it is granted are fit for tables. It
/// is a tree as before, in the pages of before and the pages granted.
pub proof fn law_sound_with_fit_pages<P: PageAllocator, A: PageTableHal>(
    before: PageTableInternal<P>,
    after: PageTableInternal<P>,
    address: u64,
    size: u64,
    edit: Edit,
    r: Result<(), PtError>,
)
    requires
        before.has_tree::<A>(),
        before.spec_sound(),
        after.edit_outcome::<A>(
            &before,
            job_for(before.spec_paging_type(), address, size, edit),
            r,
        ),
        are_fit(before.frames(), after.asked_since(&before), A::PTE::address_limit()),
    ensures
        after.spec_sound(),
        after.has_tree::<A>(),
        forall|page: u64| #[trigger]
            after.frames().contains_key(page) <==> before.frames().contains_key(page) || exists|
                k: int,
            |
                0 <= k < after.asked_since(&before).len() && is_page(
                    (#[trigger] after.asked_since(&before)[k]).answer,
                ) && after.asked_since(&before)[k].answer->Ok_0 == page,
{
    let asked = after.asked_since(&before);
    lemma_fit::<P>(before.frames(), asked, A::PTE::address_limit());
    assert forall|page: u64| #[trigger] crate::page_allocator::takes(asked, page) <==> exists|
        k: int,
    | 0 <= k < asked.len() && is_page((#[trigger] asked[k]).answer) && asked[k].answer->Ok_0
        == page by {
        if crate::page_allocator::takes(asked, page) {
            let k = choose|k: int|
                0 <= k < asked.len() && crate::page_allocator::granted(#[trigger] asked[k]) == Some(
                    page,
                );
            assert(is_page(asked[k].answer));
        }
        if exists|k: int|
            0 <= k < asked.len() && is_page((#[trigger] asked[k]).answer) && asked[k].answer->Ok_0
                == page {
            let k = choose|k: int|
                0 <= k < asked.len() && is_page((#[trigger] asked[k]).answer)
                    && asked[k].answer->Ok_0 == page;
            assert(crate::page_allocator::granted(asked[k]) == Some(page));
        }
    }
}

/// Pages that are fit for tables are so by the engine's account too.
proof fn lemma_fit<P>(frames: Map<u64, Seq<u64>>, requests: Seq<Request<P>>, limit: int)
    requires
        are_fit(frames, requests, limit),
    ensures
        crate::page_allocator::all_fit(frames, requests, limit),
{
    assert forall|k: int|
        #![trigger requests[k]]
        0 <= k < requests.len() implies match crate::page_allocator::granted(requests[k]) {
        Some(page) => page < limit && !frames.contains_key(page),
        None => true,
    } by {
        assert(is_page(requests[k].answer) == (crate::page_allocator::granted(requests[k])
            is Some));
    }
    assert forall|j: int, k: int|
        #![trigger requests[j], requests[k]]
        0 <= j < k < requests.len() && crate::page_allocator::granted(requests[k])
            is Some implies crate::page_allocator::granted(requests[j])
        != crate::page_allocator::granted(requests[k]) by {
        assert(is_page(requests[j].answer) == (crate::page_allocator::granted(requests[j])
            is Some));
        assert(is_page(requests[k].answer));
    }
}

/// How a page table is built: with one page for each level, the first for the root. Every request
/// is for one page of 4 KB, aligned to its size. The page table is built exactly if all are
/// answered with pages. Otherwise the error is that of the last one, or its page was not aligned.
pub proof fn law_new_requests<P: PageAllocator, A: PageTableHal>(
    page_allocator: P,
    paging_type: PagingType,
    requests: Seq<Request<P>>,
    r: Result<PageTableInternal<P>, PtError>,
    k: int,
)
    requires
        PageTableInternal::new_outcome::<A>(page_allocator, paging_type, requests, r),
        0 <= k < requests.len(),
    ensures
        ({
            let asked_allocator = if k == 0 {
                page_allocator
            } else {
                requests[k - 1].after
            };
            asked_allocator.may_answer(&requests[k].after, 4096, 4096, k == 0, requests[k].answer)
        }),
        requests[k].is_root == (k == 0),
        requests.len() <= level_count(paging_type),
        r is Ok || k < requests.len() - 1 <==> is_page(requests[k].answer),
        match r {
            Ok(table) => {
                &&& requests.len() == level_count(paging_type)
                &&& table.spec_paging_type() == paging_type
                &&& requests[0].answer == Ok::<u64, PtError>(table.root())
                &&& table.allocator() == requests[requests.len() - 1].after
            },
            Err(e) => k == requests.len() - 1 ==> match requests[k].answer {
                Ok(_) => e == PtError::UnalignedPageBase,
                Err(refused) => e == refused,
            },
        },
{
    let request = requests[k];
    let first = requests[0];
    if r is Err && k < requests.len() - 1 {
        assert(requests.drop_last()[k] == requests[k]);
    }
    assert(requests.last() == requests[requests.len() - 1]);
}

/// Building a page table asks for a page at least, and with pages that are fit for tables the page
/// table is sound and new: a tree that maps itself by entry 510 of the root, whose entries below
/// that are empty, with a page for each level.
pub proof fn law_new_with_fit_pages<P: PageAllocator, A: PageTableHal>(
    page_allocator: P,
    paging_type: PagingType,
    requests: Seq<Request<P>>,
    table: PageTableInternal<P>,
)
    requires
        PageTableInternal::new_outcome::<A>(page_allocator, paging_type, requests, Ok(table)),
        are_fit(Map::empty(), requests, A::PTE::address_limit()),
    ensures
        table.spec_sound(),
        table.has_tree::<A>(),
        A::PTE::present(word_at(table.frames(), table.root(), 510)),
        A::PTE::next_address(word_at(table.frames(), table.root(), 510)) == table.root(),
        A::PTE::attributes(word_at(table.frames(), table.root(), 510))
            == A::spec_default_attributes(),
        A::PTE::restrictions(word_at(table.frames(), table.root(), 510)) == 0,
        forall|k: nat|
            2 <= k <= 5 ==> !#[trigger] A::PTE::leaf(
                word_at(table.frames(), table.root(), 510),
                k,
            ),
        forall|i: int|
            0 <= i < 510 ==> #[trigger] word_at(table.frames(), table.root(), i) == 0,
        forall|va: int|
            0 <= va < address_count(paging_type) && !(510 * address_count(paging_type) <= 512 * va
                < 511 * address_count(paging_type)) ==> (#[trigger] table.walk_at::<A>(va)).leaf
                is None,
        table.frames().dom().len() == level_count(paging_type),
{
    lemma_fit::<P>(Map::empty(), requests, A::PTE::address_limit());
    assert forall|va: int|
        0 <= va < address_count(paging_type) && !(510 * address_count(paging_type) <= 512 * va
            < 511 * address_count(paging_type)) implies (#[trigger] table.walk_at::<A>(va)).leaf
        is None by {
        assert(crate::structs::entry_index(paging_type.levels(), 0, va) != 0x1FE);
    }
}

/// An edit keeps the root and the type of the page table, and what its journal starts from. Tables
/// that cannot be relied on stay so.
pub proof fn law_setup_is_kept<P: PageAllocator, A: PageTableHal>(
    before: PageTableInternal<P>,
    after: PageTableInternal<P>,
    address: u64,
    size: u64,
    edit: Edit,
    r: Result<(), PtError>,
)
    requires
        after.edit_outcome::<A>(
            &before,
            job_for(before.spec_paging_type(), address, size, edit),
            r,
        ),
    ensures
        after.root() == before.root(),
        after.spec_paging_type() == before.spec_paging_type(),
        after.spec_memory().origin() == before.spec_memory().origin(),
        !before.spec_sound() ==> !after.spec_sound(),
{
}

/// Pages that are fit for tables by the engine's account are so.
proof fn lemma_fit_back<P>(frames: Map<u64, Seq<u64>>, requests: Seq<Request<P>>, limit: int)
    requires
        crate::page_allocator::all_fit(frames, requests, limit),
    ensures
        are_fit(frames, requests, limit),
{
    assert forall|k: int|
        0 <= k < requests.len() && is_page((#[trigger] requests[k]).answer) implies {
        &&& requests[k].answer->Ok_0 < limit
        &&& !frames.contains_key(requests[k].answer->Ok_0)
    } by {
        assert(crate::page_allocator::granted(requests[k]) == Some(requests[k].answer->Ok_0));
    }
    assert forall|j: int, k: int|
        0 <= j < k < requests.len() && is_page((#[trigger] requests[j]).answer) && is_page(
            (#[trigger] requests[k]).answer,
        ) implies requests[j].answer != requests[k].answer by {
        assert(crate::page_allocator::granted(requests[j]) == Some(requests[j].answer->Ok_0));
        assert(crate::page_allocator::granted(requests[k]) == Some(requests[k].answer->Ok_0));
    }
}

/// A page that is not fit for a table is noticed: tables that are still sound after an edit have
/// been granted none.
pub proof fn law_unfit_page_is_noticed<P: PageAllocator, A: PageTableHal>(
    before: PageTableInternal<P>,
    after: PageTableInternal<P>,
    address: u64,
    size: u64,
    edit: Edit,
    r: Result<(), PtError>,
)
    requires
        before.has_tree::<A>(),
        after.spec_sound(),
        after.edit_outcome::<A>(
            &before,
            job_for(before.spec_paging_type(), address, size, edit),
            r,
        ),
    ensures
        are_fit(before.frames(), after.asked_since(&before), A::PTE::address_limit()),
{
    assert(after.sound_if_fit::<A>(&before));
    lemma_fit_back::<P>(before.frames(), after.asked_since(&before), A::PTE::address_limit());
}

/// A new page table that is sound has been granted no page that is not fit for a table.
pub proof fn law_unfit_page_is_noticed_in_new<P: PageAllocator, A: PageTableHal>(
    page_allocator: P,
    paging_type: PagingType,
    requests: Seq<Request<P>>,
    table: PageTableInternal<P>,
)
    requires
        PageTableInternal::new_outcome::<A>(page_allocator, paging_type, requests, Ok(table)),
        table.spec_sound(),
    ensures
        are_fit(Map::empty(), requests, A::PTE::address_limit()),
{
    lemma_fit_back::<P>(Map::empty(), requests, A::PTE::address_limit());
}

} // verus!
