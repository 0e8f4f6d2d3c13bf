//! The interface of a page table.
use vstd::prelude::*;
use crate::arch::{PageTableEntry, PageTableHal};
use crate::attributes::MemoryAttributes;
use crate::error::PtError;
use crate::page_allocator::PageAllocator;
use crate::paging::read::{dump_of, DumpEntry};
use crate::paging::{job_for, range_error, PageTableInternal};
use crate::structs::PagingType;
use crate::tree::Edit;

verus! {

/// A page table that maps memory to itself.
pub trait PageTable: Sized {
    /// The processor that the page table is for.
    type Arch: PageTableHal;

    /// Where the pages for new tables come from.
    type Allocator: PageAllocator;

    /// What has to hold of the page table between calls.
    spec fn wf(&self) -> bool;

    /// The tables, and where the pages for new tables come from.
    spec fn internal(&self) -> PageTableInternal<Self::Allocator>;

    /// Why a range cannot be queried, if it cannot.
    spec fn query_error(paging_type: PagingType, address: u64, size: u64) -> Option<PtError>;

    /// Why the mappings of a range cannot be changed, if they cannot.
    spec fn edit_error(paging_type: PagingType, address: u64, size: u64) -> Option<PtError>;

    /// Maps the addresses from `address` on to themselves, whatever they were mapped to before.
    fn map_memory_region(&mut self, address: u64, size: u64, attributes: MemoryAttributes) -> (r:
        Result<(), PtError>)
        requires
            old(self).wf(),
        ensures
            final(self).wf(),
            match Self::edit_error(old(self).internal().spec_paging_type(), address, size) {
                Some(e) => r == Err::<(), PtError>(e) && *final(self) == *old(self),
                None => if !<Self::Arch as PageTableHal>::PTE::supported(attributes.bits) {
                    r == Err::<(), PtError>(PtError::InvalidParameter) && *final(self) == *old(self)
                } else {
                    final(self).internal().edit_outcome::<Self::Arch>(
                        &old(self).internal(),
                        job_for(
                            old(self).internal().spec_paging_type(),
                            address,
                            size,
                            Edit::Mapping { attributes },
                        ),
                        r,
                    )
                },
            },
    ;

    /// Removes the mappings of the addresses from `address` on.
    fn unmap_memory_region(&mut self, address: u64, size: u64) -> (r: Result<(), PtError>)
        requires
            old(self).wf(),
        ensures
            final(self).wf(),
            match Self::edit_error(old(self).internal().spec_paging_type(), address, size) {
                Some(e) => r == Err::<(), PtError>(e) && *final(self) == *old(self),
                None => final(self).internal().edit_outcome::<Self::Arch>(
                    &old(self).internal(),
                    job_for(
                        old(self).internal().spec_paging_type(),
                        address,
                        size,
                        Edit::Removal,
                    ),
                    r,
                ),
            },
    ;

    /// Makes the processor use the page table.
    fn install_page_table(
        &mut self,
        registers: &mut <Self::Arch as PageTableHal>::Registers,
    ) -> (r: Result<(), PtError>)
        requires
            old(self).wf(),
        ensures
            *final(self) == *old(self),
            match Self::Arch::installed(
                *old(registers),
                old(self).internal().root(),
                old(self).internal().spec_paging_type(),
            ) {
                Ok(after) => r == Ok::<(), PtError>(()) && *final(registers) == after,
                Err(e) => r == Err::<(), PtError>(e) && *final(registers) == *old(registers),
            },
    ;

    /// The attributes of the addresses from `address` on, where they are all the same.
    fn query_memory_region(&self, address: u64, size: u64) -> (r: Result<MemoryAttributes, PtError>)
        requires
            self.wf(),
        ensures
            match Self::query_error(self.internal().spec_paging_type(), address, size) {
                Some(e) => r == Err::<MemoryAttributes, PtError>(e),
                None => {
                    let start = address as int % self.internal().spec_paging_type().space();
                    self.internal().is_answer::<Self::Arch>(start, start + size, r)
                },
            },
    ;

    /// The entries in use that cover addresses from `address` on.
    fn dump_page_tables(&self, address: u64, size: u64) -> (r: Result<Vec<DumpEntry>, PtError>)
        requires
            self.wf(),
        ensures
            match range_error(self.internal().spec_paging_type(), address, size) {
                Some(e) => r == Err::<Vec<DumpEntry>, PtError>(e),
                None => {
                    let start = address as int % self.internal().spec_paging_type().space();
                    &&& r matches Ok(entries)
                    &&& entries@ == dump_of::<<Self::Arch as PageTableHal>::PTE>(
                        self.internal().frames(),
                        self.internal().root(),
                        self.internal().spec_paging_type().levels(),
                        0,
                        0,
                        start,
                        start + size,
                        self.internal().spec_paging_type(),
                        Self::Arch::spec_sign_extends(),
                    )
                },
            },
    ;
}

} // verus!
