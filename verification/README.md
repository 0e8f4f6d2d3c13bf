# paging

Page table management for x64 and AArch64: building page tables, mapping and unmapping
identity-mapped ranges with memory attributes, querying ranges, listing mapped regions, and
installing a page table. The library is written in Verus, and its contracts are proved.

The tables live in an image of the memory that holds them (`src/memory.rs`). Every change is made
to the image and noted in a journal. The journal is what has to be carried out on the physical
memory, in order; each of its steps can be carried out through the self map of a page table that
is in use.

| Part | Content |
| --- | --- |
| `src/structs.rs`, `src/attributes.rs`, `src/error.rs` | addresses, levels, attributes, errors |
| `src/arch.rs` | what a processor fixes: entry formats, reserved addresses, registers |
| `src/x64.rs`, `src/aarch64.rs` | the two processors and their page tables |
| `src/tree.rs` | what a page table means, and how edits change the meaning |
| `src/demand.rs` | how many new tables an edit takes |
| `src/page_allocator.rs` | where pages come from, and what requests for them are answered |
| `src/links.rs` | the attributes of entries for tables |
| `src/journal.rs` | what it takes to carry out a journal |
| `src/paging.rs`, `src/paging/` | the engine: create, edit, read, load, clear |
| `src/laws/` | what holds across calls |
| `app/` | access to registers and physical memory, logging |
| `tests/` | tests of the library |

## What is stated

An edit changes the translation of exactly the addresses in its range, in all of it on success and
in an initial part of it otherwise, and entries become as large as they can be. It asks for as many
pages as it needs new tables, and fails exactly if a page is refused. What the tables mean is stated
for tables that form a tree, as those built here do, and for an allocator that hands out pages that
are not in use. An allocator is free code, so nothing is assumed of it: a page table keeps track of
whether its pages were fit for tables.
