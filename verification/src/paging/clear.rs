//! Clearing fresh pages of physical memory.
use vstd::prelude::*;
use crate::arch::{canonical_va, is_self_mapped_base, PageTableEntry, PageTableHal};
use crate::error::PtError;
use crate::page_allocator::PageAllocator;
use crate::paging::edit::leaf_word;
use crate::paging::PageTableInternal;
use crate::structs::{va_index, PageLevel, PagingType, VirtualAddress};

verus! {

/// A step on the way to a page of zeros.
#[derive(Clone, Copy, Debug, PartialEq, Eq, Structural)]
pub enum ClearStep {
    /// The word is written at the address, into the entry that translates `va`.
    WriteEntry { address: u64, word: u64, va: u64 },
    /// The page at the address is filled with zeros.
    Zero { va: u64 },
    /// What the processor has cached of the translation of the address is dropped.
    Invalidate { va: u64 },
}

/// Whether `steps` clear the page at the physical address `page` in a page table that is in use and
/// maps itself: the page is mapped at `zero_va`, cleared there, and taken out again. The entry
/// for that is written through the self map.
pub open spec fn clears_through_window<A: PageTableHal>(
    steps: Seq<ClearStep>,
    paging_type: PagingType,
    zero_va: u64,
    page: u64,
) -> bool {
    exists|address: u64|
        {
            let base = address - 8 * va_index(1, zero_va as int);
            &&& is_self_mapped_base(paging_type.levels(), 1, zero_va as int, base)
            &&& base == canonical_va(
                base % paging_type.space(),
                paging_type,
                A::spec_sign_extends(),
            )
            &&& steps =~= #[trigger] window_steps::<A>(address, zero_va, page)
        }
}

/// The steps that map a page at `zero_va` by the entry at `address`, clear it, and take it out.
pub open spec fn window_steps<A: PageTableHal>(address: u64, zero_va: u64, page: u64) -> Seq<
    ClearStep,
> {
    seq![
        ClearStep::WriteEntry {
            address,
            word: A::PTE::updated(0, A::spec_default_attributes(), page, true, 1),
            va: zero_va,
        },
        ClearStep::Zero { va: zero_va },
        ClearStep::WriteEntry { address, word: 0, va: zero_va },
        ClearStep::Invalidate { va: zero_va },
    ]
}

/// The entry that is written to clear a page maps that page, and the word after it maps nothing.
pub proof fn law_window_shows_page<A: PageTableHal>(page: u64)
    requires
        page % 0x1000 == 0,
        page < A::PTE::address_limit(),
    ensures
        ({
            let word = A::PTE::updated(0, A::spec_default_attributes(), page, true, 1);
            &&& A::PTE::present(word)
            &&& A::PTE::leaf(word, 1)
            &&& A::PTE::next_address(word) == page
            &&& A::PTE::attributes(word) == A::spec_default_attributes()
        }),
        !A::PTE::present(0),
{
    A::lemma_default_attributes(0, page, 2);
    A::PTE::lemma_updated(0, A::spec_default_attributes(), page, true, 1);
    A::PTE::lemma_word(0);
    vstd::arithmetic::div_mod::lemma_small_mod(page as nat, A::PTE::address_limit() as nat);
}

impl<P: PageAllocator> PageTableInternal<P> {
    /// How the fresh page `page` is cleared. In a page table that is in use and maps itself the
    /// page is mapped for that time at the address kept for this purpose, otherwise it is
    /// cleared where it is.
    pub fn clear_steps<A: PageTableHal>(
        &self,
        arch: &A,
        registers: &A::Registers,
        page: u64,
    ) -> (r: Result<Vec<ClearStep>, PtError>)
        requires
            self.wf(),
            page % 0x1000 == 0,
        ensures
            if A::active(*registers, self.root()) && self.self_mapped::<A>() {
                match A::spec_zero_va(self.spec_paging_type()) {
                    Err(e) => r == Err::<Vec<ClearStep>, PtError>(e),
                    Ok(zero_va) => r matches Ok(steps) && clears_through_window::<A>(
                        steps@,
                        self.spec_paging_type(),
                        zero_va.value,
                        page,
                    ),
                }
            } else {
                r matches Ok(steps) && steps@ == seq![ClearStep::Zero { va: page }]
            },
    {
        if !self.uses_self_map(arch, registers) {
            let mut steps: Vec<ClearStep> = Vec::new();
            steps.push(ClearStep::Zero { va: page });
            return Ok(steps);
        }
        let zero_va: u64 = match arch.get_zero_va(self.paging_type()) {
            Ok(zero_va) => zero_va.value,
            Err(e) => {
                return Err(e);
            },
        };
        proof {
            A::lemma_zero_va(self.spec_paging_type());
            A::lemma_default_attributes(0, page, 2);
        }
        let index: u64 = VirtualAddress::new(zero_va).get_index(PageLevel::Level1);
        let address: u64 = self.entry_address(
            arch,
            registers,
            0,
            index,
            PageLevel::Level1,
            zero_va,
        );
        let word: u64 = leaf_word::<A::PTE>(
            0,
            arch.default_attributes(),
            page,
            PageLevel::Level1,
        );
        let mut steps: Vec<ClearStep> = Vec::new();
        steps.push(ClearStep::WriteEntry { address, word, va: zero_va });
        steps.push(ClearStep::Zero { va: zero_va });
        steps.push(ClearStep::WriteEntry { address, word: 0, va: zero_va });
        steps.push(ClearStep::Invalidate { va: zero_va });
        assert(steps@ =~= window_steps::<A>(address, zero_va, page));
        Ok(steps)
    }
}

} // verus!
