//! What holds of page tables across calls.
pub mod aarch64;
pub mod bits;
pub mod edits;
pub mod entries;
pub mod journal;
pub mod pages;
pub mod queries;
pub mod regions;
pub mod requests;
pub mod self_map;
pub mod tables;
pub mod x64;
