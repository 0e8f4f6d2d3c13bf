//! Page table management for x64 and AArch64.
//!
//! The tables are kept in an image of the memory that holds them. Every change is made to the
//! image and noted in a journal, which is carried out on the physical memory afterwards.
pub mod aarch64;
pub mod arch;
pub mod attributes;
pub mod demand;
pub mod error;
pub mod journal;
pub mod laws;
pub mod links;
pub mod memory;
pub mod page_allocator;
pub mod page_table;
pub mod paging;
pub mod structs;
pub mod tree;
pub mod x64;

pub use crate::attributes::MemoryAttributes;
pub use crate::error::PtError;
pub use crate::page_table::PageTable;
pub use crate::structs::{MappedRegion, PagingType};
