//! Where the pages for tables come from.
use vstd::prelude::*;
use crate::error::PtError;

verus! {

/// A source of pages for tables.
pub trait PageAllocator {
    /// Whether the allocator may answer a request with `answer`, and be `after` from then on.
    /// This only names what an allocator does. Any answer is possible of one that says no more.
    open spec fn may_answer(
        &self,
        after: &Self,
        align: u64,
        size: u64,
        is_root: bool,
        answer: Result<u64, PtError>,
    ) -> bool {
        true
    }

    /// Hands out the physical address of a page of `size` bytes, aligned to `align`.
    /// `is_root` tells whether the page is for the root table.
    fn allocate_page(&mut self, align: u64, size: u64, is_root: bool) -> (r: Result<u64, PtError>)
        ensures
            old(self).may_answer(final(self), align, size, is_root, r),
    ;
}

/// An allocator that has no pages, for page tables that are only read or that need no new
/// tables.
#[derive(Clone, Copy, Debug, PartialEq, Eq, Structural)]
pub struct PageAllocatorStub;

impl PageAllocatorStub {
    pub fn new() -> (r: Self)
        ensures
            r == PageAllocatorStub,
    {
        PageAllocatorStub
    }
}

impl PageAllocator for PageAllocatorStub {
    open spec fn may_answer(
        &self,
        after: &Self,
        align: u64,
        size: u64,
        is_root: bool,
        answer: Result<u64, PtError>,
    ) -> bool {
        *after == *self && answer == Err::<u64, PtError>(PtError::OutOfResources)
    }

    fn allocate_page(&mut self, align: u64, size: u64, is_root: bool) -> (r: Result<u64, PtError>) {
        Err(PtError::OutOfResources)
    }
}

/// A request for a page for a table: what it was answered, and the allocator after that.
pub struct Request<P> {
    pub is_root: bool,
    pub answer: Result<u64, PtError>,
    pub after: P,
}

/// The page that a request was granted, if it was one that can hold a table.
pub open spec fn granted<P>(request: Request<P>) -> Option<u64> {
    match request.answer {
        Ok(page) => if page % 0x1000 == 0 {
            Some(page)
        } else {
            None
        },
        Err(_) => None,
    }
}

/// The error that comes of a request that was not granted a page for a table.
pub open spec fn refusal<P>(request: Request<P>) -> PtError {
    match request.answer {
        Ok(_) => PtError::UnalignedPageBase,
        Err(e) => e,
    }
}

/// The allocator as it is after the first `k` requests, if it is `from` at first.
pub open spec fn allocator_at<P>(from: P, requests: Seq<Request<P>>, k: int) -> P {
    if k <= 0 {
        from
    } else {
        requests[k - 1].after
    }
}

/// Whether the allocator `from` may answer these requests one after the other. Each is for
/// one whole page.
pub open spec fn answered_in_turn<P: PageAllocator>(from: P, requests: Seq<Request<P>>) -> bool {
    forall|k: int|
        0 <= k < requests.len() ==> allocator_at(from, requests, k).may_answer(
            &(#[trigger] requests[k]).after,
            0x1000,
            0x1000,
            requests[k].is_root,
            requests[k].answer,
        )
}

/// Whether every request was granted a page.
pub open spec fn all_granted<P>(requests: Seq<Request<P>>) -> bool {
    forall|k: int| 0 <= k < requests.len() ==> granted(#[trigger] requests[k]) is Some
}

/// Whether every request was granted a page but the last, which ended in the error `e`.
pub open spec fn ended_in<P>(requests: Seq<Request<P>>, e: PtError) -> bool {
    &&& requests.len() > 0
    &&& all_granted(requests.drop_last())
    &&& granted(requests.last()) is None
    &&& refusal(requests.last()) == e
}

/// Whether `page` is one of the pages granted.
pub open spec fn takes<P>(requests: Seq<Request<P>>, page: u64) -> bool {
    exists|k: int| 0 <= k < requests.len() && granted(#[trigger] requests[k]) == Some(page)
}

/// Whether all pages granted are fit for new tables: entries can hold addresses below `limit`,
/// so each is below that, none holds a table already, and none is granted twice.
pub open spec fn all_fit<P>(
    frames: Map<u64, Seq<u64>>,
    requests: Seq<Request<P>>,
    limit: int,
) -> bool {
    &&& forall|k: int|
        #![trigger requests[k]]
        0 <= k < requests.len() ==> match granted(requests[k]) {
            Some(page) => page < limit && !frames.contains_key(page),
            None => true,
        }
    &&& forall|j: int, k: int|
        #![trigger requests[j], requests[k]]
        0 <= j < k < requests.len() && granted(requests[k]) is Some ==> granted(requests[j])
            != granted(requests[k])
}

/// Whether the pages of `after` are those of `before` and the pages granted.
pub open spec fn grown_by<P>(
    before: Map<u64, Seq<u64>>,
    after: Map<u64, Seq<u64>>,
    requests: Seq<Request<P>>,
) -> bool {
    forall|page: u64| #[trigger]
        after.contains_key(page) <==> before.contains_key(page) || takes(requests, page)
}

/// Requests that are answered in turn are answered in turn together.
pub proof fn lemma_in_turn_append<P: PageAllocator>(
    from: P,
    first: Seq<Request<P>>,
    second: Seq<Request<P>>,
)
    requires
        answered_in_turn(from, first),
        answered_in_turn(allocator_at(from, first, first.len() as int), second),
    ensures
        answered_in_turn(from, first + second),
        allocator_at(from, first + second, (first + second).len() as int) == allocator_at(
            allocator_at(from, first, first.len() as int),
            second,
            second.len() as int,
        ),
{
    let both = first + second;
    let n = first.len() as int;
    assert forall|k: int| 0 <= k < both.len() implies allocator_at(from, both, k).may_answer(
        &(#[trigger] both[k]).after,
        0x1000,
        0x1000,
        both[k].is_root,
        both[k].answer,
    ) by {
        if k < n {
            assert(both[k] == first[k]);
            assert(allocator_at(from, both, k) == allocator_at(from, first, k));
        } else {
            assert(both[k] == second[k - n]);
            assert(allocator_at(from, both, k) == allocator_at(
                allocator_at(from, first, n),
                second,
                k - n,
            ));
        }
    }
}

/// Requests after granted ones end as they do by themselves.
pub proof fn lemma_granted_append<P>(first: Seq<Request<P>>, second: Seq<Request<P>>)
    requires
        all_granted(first),
    ensures
        all_granted(second) ==> all_granted(first + second),
        forall|e: PtError| #[trigger] ended_in(second, e) ==> ended_in(first + second, e),
    decreases second.len(),
{
    let both = first + second;
    if all_granted(second) {
        assert forall|k: int| 0 <= k < both.len() implies granted(#[trigger] both[k]) is Some by {
            if k < first.len() {
                assert(both[k] == first[k]);
            } else {
                assert(both[k] == second[k - first.len()]);
            }
        }
    }
    assert forall|e: PtError| #[trigger] ended_in(second, e) implies ended_in(both, e) by {
        assert(both.drop_last() =~= first + second.drop_last());
        lemma_granted_append(first, second.drop_last());
    }
}

/// Pages taken in two parts are fit together exactly if those of each part are.
pub proof fn lemma_fit_append<P>(
    before: Map<u64, Seq<u64>>,
    between: Map<u64, Seq<u64>>,
    first: Seq<Request<P>>,
    second: Seq<Request<P>>,
    limit: int,
)
    ensures
        all_fit(before, first + second, limit) ==> all_fit(before, first, limit),
        grown_by(before, between, first) ==> (all_fit(before, first + second, limit) <==> all_fit(
            before,
            first,
            limit,
        ) && all_fit(between, second, limit)),
        forall|page: u64| #[trigger]
            takes(first + second, page) <==> takes(first, page) || takes(second, page),
{
    let both = first + second;
    let n = first.len() as int;
    assert forall|k: int| 0 <= k < n implies #[trigger] first[k] == both[k] by {}
    assert forall|k: int| 0 <= k < second.len() implies #[trigger] second[k] == both[n + k] by {}
    assert forall|page: u64| #[trigger] takes(both, page) <==> takes(first, page) || takes(
        second,
        page,
    ) by {
        if takes(both, page) {
            let k = choose|k: int| 0 <= k < both.len() && granted(#[trigger] both[k]) == Some(page);
            if k < n {
                assert(granted(first[k]) == Some(page));
            } else {
                assert(granted(second[k - n]) == Some(page));
            }
        }
    }
    if all_fit(before, both, limit) && grown_by(before, between, first) {
        assert forall|k: int|
            #![trigger second[k]]
            0 <= k < second.len() && granted(second[k]) is Some implies granted(second[k])->0
            < limit && !between.contains_key(granted(second[k])->0) by {
            assert(both[n + k] == second[k]);
            let page = granted(second[k])->0;
            if takes(first, page) {
                let j = choose|j: int|
                    0 <= j < first.len() && granted(#[trigger] first[j]) == Some(page);
                assert(both[j] == first[j]);
            }
        }
        assert forall|j: int, k: int|
            #![trigger second[j], second[k]]
            0 <= j < k < second.len() && granted(second[k]) is Some implies granted(second[j])
            != granted(second[k]) by {
            assert(both[n + j] == second[j] && both[n + k] == second[k]);
        }
    }
    if all_fit(before, first, limit) && all_fit(between, second, limit) && grown_by(
        before,
        between,
        first,
    ) {
        assert forall|k: int|
            #![trigger both[k]]
            0 <= k < both.len() && granted(both[k]) is Some implies granted(both[k])->0 < limit
            && !before.contains_key(granted(both[k])->0) by {
            if k < n {
                assert(both[k] == first[k]);
            } else {
                assert(both[k] == second[k - n]);
                assert(!between.contains_key(granted(both[k])->0));
            }
        }
        assert forall|j: int, k: int|
            #![trigger both[j], both[k]]
            0 <= j < k < both.len() && granted(both[k]) is Some implies granted(both[j])
            != granted(both[k]) by {
            if k < n {
                assert(both[j] == first[j] && both[k] == first[k]);
            } else if j >= n {
                assert(both[j] == second[j - n] && both[k] == second[k - n]);
            } else {
                assert(both[j] == first[j] && both[k] == second[k - n]);
                let page = granted(both[k])->0;
                if granted(both[j]) == Some(page) {
                    assert(takes(first, page));
                    assert(between.contains_key(page));
                }
            }
        }
    }
}

} // verus!
