//! Errors reported by page table operations.
use vstd::prelude::*;

verus! {

/// What can go wrong while building, editing or reading a page table.
#[derive(Clone, Copy, Debug, PartialEq, Eq, Structural)]
pub enum PtError {
    /// An argument is malformed: a non-canonical address or attributes that no entry can hold.
    InvalidParameter,
    /// The page allocator has no page left.
    OutOfResources,
    /// Nothing in the queried range is mapped.
    NoMapping,
    /// The queried range is mapped throughout, but with differing attributes.
    IncompatibleMemoryAttributes,
    /// The page table root or a page for a table is not page aligned.
    UnalignedPageBase,
    /// The address or the size of a range is not page aligned.
    UnalignedAddress,
    /// The range is empty, overflows, or reaches outside the addresses that may be edited.
    InvalidMemoryRange,
    /// Only a part of the queried range is mapped.
    InconsistentMappingAcrossRange,
    /// The architecture or the processor state does not allow this paging type.
    UnsupportedPagingType,
}

} // verus!
