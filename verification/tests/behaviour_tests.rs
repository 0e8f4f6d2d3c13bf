//! Properties of page tables across calls, on given values.
use std::cell::Cell;
use std::collections::HashMap;
use std::rc::Rc;

use paging::aarch64::structs::PageTableEntryAArch64;
use paging::aarch64::{
    AArch64PageTable, AArch64Registers, ExceptionLevel, PageTableArchAArch64,
};
use paging::arch::{PageTableEntry, PageTableHal};
use paging::attributes::{
    EXECUTE_PROTECT, READ_ONLY, READ_PROTECT, UNCACHEABLE, WRITEBACK, WRITE_COMBINING,
};
use paging::memory::{MemoryOp, PageMemory};
use paging::page_allocator::{PageAllocator, PageAllocatorStub};
use paging::paging::clear::ClearStep;
use paging::paging::load::missing_table;
use paging::structs::{
    PageLevel, VirtualAddress, PAGE_SIZE, SELF_MAP_INDEX, SIZE_1GB, SIZE_2MB, SIZE_4KB,
    SIZE_512GB,
};
use paging::x64::structs::PageTableEntryX64;
use paging::x64::{PageTableArchX64, X64PageTable, X64Registers};
use paging::{MappedRegion, MemoryAttributes, PageTable, PagingType, PtError};

const FIRST_PAGE: u64 = 0x10_0000;
const LEVEL4: PagingType = PagingType::Paging4Level;
const LEVEL5: PagingType = PagingType::Paging5Level;

/// Hands out pages one after the other, as many as there are left.
#[derive(Clone)]
struct Pages {
    next: Rc<Cell<u64>>,
    left: Rc<Cell<u64>>,
}

impl Pages {
    fn new(count: u64) -> Self {
        Self { next: Rc::new(Cell::new(FIRST_PAGE)), left: Rc::new(Cell::new(count)) }
    }
}

impl PageAllocator for Pages {
    fn allocate_page(&mut self, align: u64, size: u64, _is_root: bool) -> Result<u64, PtError> {
        assert_eq!((align, size), (PAGE_SIZE, PAGE_SIZE));
        if self.left.get() == 0 {
            return Err(PtError::OutOfResources);
        }
        self.left.set(self.left.get() - 1);
        let page = self.next.get();
        self.next.set(page + PAGE_SIZE);
        Ok(page)
    }
}

/// Hands out one given page, again and again.
struct OnePage(u64);

impl PageAllocator for OnePage {
    fn allocate_page(&mut self, _align: u64, _size: u64, _is_root: bool) -> Result<u64, PtError> {
        Ok(self.0)
    }
}

fn attributes(bits: u64) -> MemoryAttributes {
    MemoryAttributes::from_bits(bits)
}

fn x64(paging_type: PagingType) -> X64PageTable<Pages> {
    X64PageTable::new(Pages::new(1000), paging_type).unwrap()
}

fn aarch64() -> AArch64PageTable<Pages> {
    AArch64PageTable::new(Pages::new(1000), LEVEL4).unwrap()
}

fn region(va: u64, size: u64, bits: u64) -> MappedRegion {
    MappedRegion { va, pa: va, size, attributes: attributes(bits) }
}

#[test]
fn what_is_mapped_is_mapped_to_itself() {
    let mut table = x64(LEVEL4);
    table.map_memory_region(0x1FF000, 0x2000, attributes(READ_ONLY)).unwrap();
    assert_eq!(
        table.iter_mapped_regions(None),
        vec![region(0x1FF000, 0x1000, READ_ONLY), region(0x200000, 0x1000, READ_ONLY)]
    );
    assert_eq!(table.query_memory_region(0x1FF000, 0x2000), Ok(attributes(READ_ONLY)));

    let high = 0xFFFF_8000_0000_0000;
    table.map_memory_region(high, 0x1000, attributes(EXECUTE_PROTECT)).unwrap();
    let regions = table.iter_mapped_regions(Some(high));
    assert_eq!(regions.len(), 1);
    assert_eq!(regions[0].va, high);
    // An entry holds 52 bits of address.
    assert_eq!(regions[0].pa, 0x000F_8000_0000_0000);
    assert_eq!(table.query_memory_region(high, 0x1000), Ok(attributes(EXECUTE_PROTECT)));
}

#[test]
fn memory_is_mapped_by_the_largest_pages_that_fit() {
    let mut table = x64(LEVEL5);
    let size = SIZE_4KB + SIZE_1GB + SIZE_2MB + SIZE_4KB;
    let start = SIZE_1GB - SIZE_4KB;
    table.map_memory_region(start, size, attributes(0)).unwrap();
    assert_eq!(
        table.iter_mapped_regions(None),
        vec![
            region(start, SIZE_4KB, 0),
            region(SIZE_1GB, SIZE_1GB, 0),
            region(2 * SIZE_1GB, SIZE_2MB, 0),
            region(2 * SIZE_1GB + SIZE_2MB, SIZE_4KB, 0),
        ]
    );
    // The fourth level has no pages of its own.
    let mut table = x64(LEVEL4);
    table.map_memory_region(0, SIZE_512GB, attributes(0)).unwrap();
    let regions = table.iter_mapped_regions(None);
    assert_eq!(regions.len(), 512);
    assert!(regions.iter().all(|r| r.size == SIZE_1GB));
}

#[test]
fn unmapping_undoes_mapping() {
    let mut table = aarch64();
    table.map_memory_region(0, SIZE_2MB, attributes(WRITEBACK)).unwrap();
    let before = table.iter_mapped_regions(None);
    let range = (SIZE_1GB, SIZE_2MB + 3 * SIZE_4KB);
    table.map_memory_region(range.0, range.1, attributes(UNCACHEABLE)).unwrap();
    assert_ne!(table.iter_mapped_regions(None), before);
    table.unmap_memory_region(range.0, range.1).unwrap();
    assert_eq!(table.iter_mapped_regions(None), before);
    assert_eq!(table.query_memory_region(range.0, range.1), Err(PtError::NoMapping));
}

#[test]
fn the_last_edit_wins_and_the_rest_is_kept() {
    let mut table = aarch64();
    table.map_memory_region(0, 4 * SIZE_2MB, attributes(WRITEBACK)).unwrap();
    let changed = attributes(WRITE_COMBINING | EXECUTE_PROTECT);
    table.map_memory_region(SIZE_2MB, SIZE_2MB, attributes(UNCACHEABLE)).unwrap();
    table.map_memory_region(SIZE_2MB, SIZE_2MB, changed).unwrap();
    table.map_memory_region(SIZE_2MB, SIZE_2MB, changed).unwrap();
    assert_eq!(
        table.iter_mapped_regions(None),
        vec![
            region(0, SIZE_2MB, WRITEBACK),
            region(SIZE_2MB, SIZE_2MB, WRITE_COMBINING | EXECUTE_PROTECT),
            region(2 * SIZE_2MB, SIZE_2MB, WRITEBACK),
            region(3 * SIZE_2MB, SIZE_2MB, WRITEBACK),
        ]
    );
}

#[test]
fn disjoint_edits_can_be_made_in_either_order() {
    let mut first = x64(LEVEL4);
    let mut second = x64(LEVEL4);
    first.map_memory_region(0, SIZE_2MB, attributes(READ_ONLY)).unwrap();
    first.map_memory_region(SIZE_2MB, SIZE_4KB, attributes(0)).unwrap();
    first.unmap_memory_region(SIZE_4KB, SIZE_4KB).unwrap();
    second.map_memory_region(SIZE_2MB, SIZE_4KB, attributes(0)).unwrap();
    second.map_memory_region(0, SIZE_2MB, attributes(READ_ONLY)).unwrap();
    second.unmap_memory_region(SIZE_4KB, SIZE_4KB).unwrap();
    assert_eq!(first.iter_mapped_regions(None), second.iter_mapped_regions(None));
    assert_eq!(first.iter_mapped_regions(None).len(), 512);
}

#[test]
fn an_edit_that_fails_is_done_for_an_initial_part() {
    // The root, three tables for clearing pages, and two tables that the first gigabyte takes.
    let pages = Pages::new(4 + 2);
    let mut table = X64PageTable::new(pages.clone(), LEVEL4).unwrap();
    let start = SIZE_1GB - SIZE_2MB;
    // The last page would take another table.
    assert_eq!(
        table.map_memory_region(start, SIZE_2MB + SIZE_4KB, attributes(0)),
        Err(PtError::OutOfResources)
    );
    assert_eq!(pages.left.get(), 0);
    assert_eq!(table.iter_mapped_regions(None), vec![region(start, SIZE_2MB, 0)]);
    assert_eq!(
        table.query_memory_region(start, SIZE_2MB + SIZE_4KB),
        Err(PtError::InconsistentMappingAcrossRange)
    );
    // What needs no new table still succeeds.
    assert_eq!(table.map_memory_region(start, SIZE_2MB, attributes(READ_ONLY)), Ok(()));
    assert_eq!(table.map_memory_region(start, SIZE_4KB, attributes(READ_ONLY)), Ok(()));
    assert_eq!(table.unmap_memory_region(SIZE_1GB, SIZE_2MB), Ok(()));
    assert_eq!(
        table.map_memory_region(start, SIZE_4KB, attributes(0)),
        Err(PtError::OutOfResources)
    );
    assert_eq!(table.query_memory_region(start, SIZE_2MB), Ok(attributes(READ_ONLY)));
}

#[test]
fn a_large_page_is_split_into_equal_pieces() {
    let mut table = x64(LEVEL4);
    table.map_memory_region(SIZE_2MB, SIZE_2MB, attributes(EXECUTE_PROTECT)).unwrap();
    table.unmap_memory_region(SIZE_2MB + SIZE_4KB, SIZE_4KB).unwrap();
    let regions = table.iter_mapped_regions(None);
    assert_eq!(regions.len(), 511);
    assert_eq!(regions[0], region(SIZE_2MB, SIZE_4KB, EXECUTE_PROTECT));
    assert_eq!(regions[1], region(SIZE_2MB + 2 * SIZE_4KB, SIZE_4KB, EXECUTE_PROTECT));
    assert_eq!(regions[510], region(2 * SIZE_2MB - SIZE_4KB, SIZE_4KB, EXECUTE_PROTECT));
}

#[test]
fn range_errors() {
    let mut table = x64(LEVEL4);
    let map = |table: &mut X64PageTable<Pages>, address, size| {
        let mapped = table.map_memory_region(address, size, attributes(0));
        assert_eq!(table.unmap_memory_region(address, size), mapped);
        mapped
    };
    assert_eq!(map(&mut table, 0x1000, 0), Err(PtError::InvalidMemoryRange));
    assert_eq!(map(&mut table, 0x800, 0x1000), Err(PtError::UnalignedAddress));
    assert_eq!(map(&mut table, 0x1000, 0x800), Err(PtError::UnalignedAddress));
    assert_eq!(map(&mut table, 0x8000_0000_0000, 0x1000), Err(PtError::InvalidParameter));
    assert_eq!(map(&mut table, 0x7FFF_FFFF_F000, 0x2000), Err(PtError::InvalidMemoryRange));
    assert_eq!(map(&mut table, 0xFFFF_FFFF_FFFF_F000, 0x2000), Err(PtError::InvalidMemoryRange));
    // The last address below the self map, and the first one in it.
    assert_eq!(map(&mut table, 0xFFFF_FEFF_FFFF_F000, 0x1000), Ok(()));
    assert_eq!(map(&mut table, 0xFFFF_FF00_0000_0000, 0x1000), Err(PtError::InvalidMemoryRange));
    assert_eq!(map(&mut table, 0xFFFF_FF80_0000_0000, 0x1000), Err(PtError::InvalidMemoryRange));
    assert!(table.iter_mapped_regions(None).is_empty());

    let mut table = aarch64();
    let write_back = attributes(WRITEBACK);
    assert_eq!(table.map_memory_region(0xFEFF_FFFF_F000, 0x1000, write_back), Ok(()));
    assert_eq!(
        table.map_memory_region(0xFF00_0000_0000, 0x1000, write_back),
        Err(PtError::InvalidMemoryRange)
    );
    assert_eq!(
        table.map_memory_region(0x1_0000_0000_0000, 0x1000, write_back),
        Err(PtError::InvalidMemoryRange)
    );
    assert_eq!(
        table.query_memory_region(0xFFFF_FFFF_F000, 0x2000),
        Err(PtError::InvalidMemoryRange)
    );
    assert_eq!(
        table.dump_page_tables(0xFFFF_FFFF_F000, 0x2000),
        Err(PtError::InvalidMemoryRange)
    );
    assert_eq!(table.dump_page_tables(0x1001, 0x1000), Err(PtError::UnalignedAddress));
}

#[test]
fn attributes_that_an_entry_cannot_hold_are_refused() {
    let mut table = aarch64();
    assert_eq!(
        table.map_memory_region(0, 0x1000, attributes(READ_ONLY)),
        Err(PtError::InvalidParameter)
    );
    assert_eq!(
        table.map_memory_region(0, 0x1000, attributes(UNCACHEABLE | WRITEBACK)),
        Err(PtError::InvalidParameter)
    );
    assert!(table.iter_mapped_regions(None).is_empty());
    // The range is looked at first.
    assert_eq!(
        table.map_memory_region(0x1, 0x1000, attributes(0)),
        Err(PtError::UnalignedAddress)
    );
}

#[test]
fn memory_that_may_not_be_read_is_not_mapped() {
    let mut table = x64(LEVEL4);
    table.map_memory_region(0, SIZE_2MB, attributes(0)).unwrap();
    table.map_memory_region(0, SIZE_4KB, attributes(READ_PROTECT)).unwrap();
    assert_eq!(table.query_memory_region(0, SIZE_4KB), Err(PtError::NoMapping));
    assert_eq!(table.query_memory_region(SIZE_4KB, SIZE_4KB), Ok(attributes(0)));
    assert_eq!(table.iter_mapped_regions(None).len(), 511);
}

#[test]
fn query_errors() {
    let mut table = x64(LEVEL5);
    assert_eq!(table.query_memory_region(0, 0x1000), Err(PtError::NoMapping));
    table.map_memory_region(0x1000, 0x1000, attributes(0)).unwrap();
    table.map_memory_region(0x2000, 0x1000, attributes(READ_ONLY)).unwrap();
    assert_eq!(
        table.query_memory_region(0x1000, 0x2000),
        Err(PtError::IncompatibleMemoryAttributes)
    );
    assert_eq!(
        table.query_memory_region(0x2000, 0x2000),
        Err(PtError::InconsistentMappingAcrossRange)
    );
    assert_eq!(
        table.query_memory_region(0, 0x2000),
        Err(PtError::InconsistentMappingAcrossRange)
    );
    // The first address that differs decides.
    assert_eq!(
        table.query_memory_region(0x1000, 0x3000),
        Err(PtError::IncompatibleMemoryAttributes)
    );
    assert_eq!(table.query_memory_region(0x1, 0x1000), Err(PtError::UnalignedAddress));
    assert_eq!(
        table.query_memory_region(0x0100_0000_0000_0000, 0x1000),
        Err(PtError::InvalidParameter)
    );
}

#[test]
fn allocator_errors() {
    let unaligned = X64PageTable::new(OnePage(0x1234), LEVEL4);
    assert_eq!(unaligned.err(), Some(PtError::UnalignedPageBase));
    let none = X64PageTable::new(Pages::new(3), LEVEL4);
    assert_eq!(none.err(), Some(PtError::OutOfResources));
    let pages = Pages::new(100);
    assert!(X64PageTable::new(pages.clone(), LEVEL4).is_ok());
    assert_eq!(pages.left.get(), 96);
    let pages = Pages::new(100);
    assert!(X64PageTable::new(pages.clone(), LEVEL5).is_ok());
    assert_eq!(pages.left.get(), 95);
    let existing =
        X64PageTable::from_existing(0x1001, PageMemory::new(), PageAllocatorStub::new(), LEVEL4);
    assert_eq!(existing.err(), Some(PtError::UnalignedPageBase));
}

/// Memory outside the page table, changed by nothing but a journal.
#[derive(Default)]
struct Physical {
    pages: HashMap<u64, Vec<u64>>,
}

impl Physical {
    fn word(&self, page: u64, index: u64) -> u64 {
        self.pages.get(&page).map_or(0, |words| words[index as usize])
    }

    /// The physical address for `va`, as the processor finds it.
    fn translate(&self, root: u64, va: u64, paging_type: PagingType) -> Option<u64> {
        let mut level = PageLevel::root_level(paging_type);
        let mut page = root;
        loop {
            let index = VirtualAddress::new(va).get_index(level);
            let entry = PageTableEntryX64::from_word(self.word(page, index));
            if !entry.get_present_bit() {
                return None;
            }
            page = entry.get_next_address().value;
            if entry.points_to_pa(level) {
                return Some(page + va % level.entry_va_size());
            }
            level = level.next_level().unwrap();
        }
    }

    fn carry_out(&mut self, op: &MemoryOp) {
        match *op {
            MemoryOp::ZeroPage { page } => {
                self.pages.insert(page, vec![0; 512]);
            },
            MemoryOp::WriteEntry { table, index, word, .. } => {
                self.pages.get_mut(&table).unwrap()[index as usize] = word;
            },
        }
    }
}

fn check_journal(paging_type: PagingType, high: u64) {
    let mut table = X64PageTable::new(Pages::new(1000), paging_type).unwrap();
    let mut physical = Physical::default();
    let new_ops = table.take_journal();
    let root = match new_ops[0] {
        MemoryOp::ZeroPage { page } => page,
        MemoryOp::WriteEntry { .. } => panic!("the root is cleared first"),
    };
    for op in &new_ops {
        physical.carry_out(op);
    }
    let registers = X64Registers { cr3: root, cr4: None };
    let edits = [
        (0, SIZE_1GB, Some(READ_ONLY)),
        (SIZE_2MB, SIZE_4KB, Some(0)),
        (SIZE_1GB - SIZE_4KB, 2 * SIZE_4KB, None),
        (high, SIZE_2MB + SIZE_4KB, Some(EXECUTE_PROTECT)),
        (0, SIZE_1GB, None),
    ];
    for (address, size, bits) in edits {
        match bits {
            Some(bits) => table.map_memory_region(address, size, attributes(bits)).unwrap(),
            None => table.unmap_memory_region(address, size).unwrap(),
        }
        for op in &table.take_journal() {
            // Each entry is found through the self map when its turn comes.
            if let MemoryOp::WriteEntry { table: page, index, level, va, .. } = *op {
                let seen = table.entry_address(&registers, page, index, level, va);
                assert_eq!(
                    physical.translate(root, seen, paging_type),
                    Some(page + 8 * index)
                );
            }
            physical.carry_out(op);
        }
        for (page, words) in &physical.pages {
            for index in 0..512 {
                assert_eq!(table.memory().read(*page, index), words[index as usize]);
            }
        }
    }
    assert!(table.take_journal().is_empty());
}

#[test]
fn the_journal_keeps_memory_up_to_date() {
    check_journal(LEVEL4, 0xFFFF_8000_0000_0000);
    check_journal(LEVEL5, 0xFF00_0000_0000_0000);
}

#[test]
fn entries_are_written_through_the_self_map_while_in_use() {
    let mut table = x64(LEVEL4);
    let mut registers = X64Registers { cr3: 0, cr4: None };
    assert!(!table.uses_self_map(&registers));
    assert_eq!(table.entry_address(&registers, 0x7000, 3, PageLevel::Level2, 0x600000), 0x7018);
    table.install_page_table(&mut registers).unwrap();
    assert_eq!(registers.cr3, FIRST_PAGE);
    assert!(table.uses_self_map(&registers));
    assert_eq!(
        table.entry_address(&registers, 0x7000, 3, PageLevel::Level2, 0x600000),
        0xFFFF_FF7F_8000_0018
    );

    let table = aarch64();
    let registers = AArch64Registers {
        ttbr0: FIRST_PAGE,
        tcr: 0,
        mair: 0,
        pa_bits: 48,
        exception_level: ExceptionLevel::EL2,
    };
    assert!(table.uses_self_map(&registers));
    assert_eq!(
        table.entry_address(&registers, 0x7000, 3, PageLevel::Level1, 0x603000),
        0x0000_FF00_0000_3018
    );
}

#[test]
fn the_self_map_shows_the_tables() {
    let mut table = x64(LEVEL4);
    table.map_memory_region(0x1000, 0x1000, attributes(0)).unwrap();
    // The page for the lowest table, and the page next to it in the self map.
    assert_eq!(table.query_memory_region(0xFFFF_FF00_0000_0000, 0x1000), Ok(attributes(0)));
    assert_eq!(
        table.query_memory_region(0xFFFF_FF00_0000_1000, 0x1000),
        Err(PtError::NoMapping)
    );
}

#[test]
fn tables_are_found_one_by_one() {
    let mut table = x64(LEVEL4);
    table.map_memory_region(0, 2 * SIZE_1GB + SIZE_4KB, attributes(READ_ONLY)).unwrap();
    let arch = PageTableArchX64;
    let source = table.memory().clone();
    let root = table.into_page_table_root();
    let mut memory = PageMemory::new();
    let mut found = 0;
    while let Some(page) = missing_table(&arch, &memory, root, LEVEL4) {
        assert!(source.contains(page));
        memory.load(page, (0..512).map(|i| source.read(page, i)).collect());
        found += 1;
    }
    assert_eq!(found, 4 + 3);
    let table =
        X64PageTable::from_existing(root, memory, PageAllocatorStub::new(), LEVEL4).unwrap();
    assert_eq!(
        table.query_memory_region(0, 2 * SIZE_1GB + SIZE_4KB),
        Ok(attributes(READ_ONLY))
    );
    assert_eq!(table.iter_mapped_regions(None).len(), 3);
}

#[test]
fn restrictions_of_tables_are_inherited() {
    let mut table = x64(LEVEL4);
    table.map_memory_region(0, SIZE_4KB, attributes(EXECUTE_PROTECT)).unwrap();
    let mut memory = table.memory().clone();
    let root = table.into_page_table_root();
    let mut entry = PageTableEntryX64::from_word(memory.read(root, 0));
    entry
        .update_fields(attributes(READ_ONLY), entry.get_next_address(), false, PageLevel::Level4)
        .unwrap();
    memory.write(root, 0, entry.to_word(), PageLevel::Level4, 0);
    let table =
        X64PageTable::from_existing(root, memory, PageAllocatorStub::new(), LEVEL4).unwrap();
    let both = READ_ONLY | EXECUTE_PROTECT;
    assert_eq!(table.query_memory_region(0, SIZE_4KB), Ok(attributes(both)));
    assert_eq!(table.iter_mapped_regions(None), vec![region(0, SIZE_4KB, both)]);
}

#[test]
fn a_dump_lists_entries_with_those_below_them() {
    let mut table = x64(LEVEL4);
    table.map_memory_region(0x1000, 0x2000, attributes(0)).unwrap();
    let listed: Vec<(u64, PageLevel, u64)> = table
        .dump_page_tables(0x1000, 0x1000)
        .unwrap()
        .iter()
        .map(|entry| (entry.va, entry.level, entry.word))
        .collect();
    let page = |n: u64| FIRST_PAGE + n * PAGE_SIZE;
    assert_eq!(
        listed,
        vec![
            (0, PageLevel::Level4, page(4) | 7),
            (0, PageLevel::Level3, page(5) | 7),
            (0, PageLevel::Level2, page(6) | 7),
            (0x1000, PageLevel::Level1, 0x1007),
        ]
    );
    assert!(table.dump_page_tables(SIZE_512GB, SIZE_4KB).unwrap().is_empty());
    let high = table.dump_page_tables(0xFFFF_FF80_0000_0000, 0x1000).unwrap();
    assert_eq!(high.len(), 3);
    assert_eq!(high[0].va, 0xFFFF_FF80_0000_0000);
}

#[test]
fn the_root_maps_itself() {
    let table = x64(LEVEL4);
    let entry = PageTableEntryX64::from_word(table.memory().read(FIRST_PAGE, SELF_MAP_INDEX));
    assert!(entry.get_present_bit());
    assert_eq!(entry.get_next_address().value, FIRST_PAGE);
    assert_eq!(table.paging_type(), LEVEL4);
    let arch = PageTableArchX64;
    assert_eq!(entry.get_attributes(), arch.default_attributes());
    assert_eq!(table.into_page_table_root(), FIRST_PAGE);
}

#[test]
fn the_first_mapping_takes_a_table_for_each_split_entry() {
    // The entry for 512 GB, two for 1 GB in part, and two for 2 MB in part, after the four tables
    // of a new page table.
    let pages = Pages::new(9);
    let mut table = X64PageTable::new(pages.clone(), LEVEL4).unwrap();
    assert_eq!(pages.left.get(), 5);
    table.map_memory_region(SIZE_4KB, 10 * SIZE_1GB, attributes(0)).unwrap();
    assert_eq!(pages.left.get(), 0);

    let mut table = X64PageTable::new(Pages::new(8), LEVEL4).unwrap();
    assert_eq!(
        table.map_memory_region(SIZE_4KB, 10 * SIZE_1GB, attributes(0)),
        Err(PtError::OutOfResources)
    );

    // One more for the entry of the fifth level.
    let pages = Pages::new(11);
    let mut table = X64PageTable::new(pages.clone(), LEVEL5).unwrap();
    table.map_memory_region(SIZE_4KB, 10 * SIZE_1GB, attributes(0)).unwrap();
    assert_eq!(pages.left.get(), 0);

    // Whole entries of the third level take no table, those of the fourth do.
    let pages = Pages::new(100);
    let mut table = X64PageTable::new(pages.clone(), LEVEL4).unwrap();
    table.map_memory_region(0, 3 * SIZE_512GB, attributes(0)).unwrap();
    assert_eq!(pages.left.get(), 93);
}

#[test]
fn an_edit_takes_no_page_where_tables_are_in_place() {
    let pages = Pages::new(100);
    let mut table = X64PageTable::new(pages.clone(), LEVEL4).unwrap();
    table.map_memory_region(0, SIZE_4KB, attributes(0)).unwrap();
    let left = pages.left.get();
    table.map_memory_region(SIZE_4KB, SIZE_2MB - SIZE_4KB, attributes(READ_ONLY)).unwrap();
    table.unmap_memory_region(0, SIZE_2MB).unwrap();
    // Nothing is mapped there.
    table.unmap_memory_region(SIZE_1GB + SIZE_4KB, SIZE_4KB).unwrap();
    assert_eq!(pages.left.get(), left);
    assert!(table.is_sound());
}

#[test]
fn without_pages_only_tables_in_place_can_be_edited() {
    let mut table = x64(LEVEL4);
    table.map_memory_region(0, SIZE_4KB, attributes(0)).unwrap();
    let memory = table.memory().clone();
    let root = table.into_page_table_root();
    let mut table =
        X64PageTable::from_existing(root, memory, PageAllocatorStub::new(), LEVEL4).unwrap();
    table.map_memory_region(SIZE_4KB, SIZE_4KB, attributes(READ_ONLY)).unwrap();
    assert_eq!(
        table.map_memory_region(SIZE_2MB, SIZE_4KB, attributes(0)),
        Err(PtError::OutOfResources)
    );
    assert!(table.is_sound());
    assert_eq!(
        table.iter_mapped_regions(None),
        vec![region(0, SIZE_4KB, 0), region(SIZE_4KB, SIZE_4KB, READ_ONLY)]
    );
}

#[test]
fn tables_are_linked_with_the_default_attributes() {
    let arch = PageTableArchAArch64;
    let mut table = aarch64();
    table.map_memory_region(SIZE_2MB, SIZE_4KB, attributes(READ_ONLY | WRITEBACK)).unwrap();
    let memory = table.memory().clone();
    let mut page = table.into_page_table_root();
    let root = page;
    for (index, level) in [(0, PageLevel::Level4), (0, PageLevel::Level3), (1, PageLevel::Level2)] {
        let entry = PageTableEntryAArch64::from_word(memory.read(page, index));
        assert!(entry.get_present_bit() && !entry.points_to_pa(level));
        assert_eq!(entry.get_attributes(), arch.default_attributes());
        page = entry.get_next_address().value;
    }
    let self_map = PageTableEntryAArch64::from_word(memory.read(root, SELF_MAP_INDEX));
    assert_eq!(self_map.get_attributes(), attributes(WRITEBACK));
}

#[test]
fn parts_of_a_range_are_queried_as_the_whole() {
    let mut table = x64(LEVEL4);
    table.map_memory_region(0, 2 * SIZE_2MB, attributes(READ_ONLY)).unwrap();
    assert_eq!(table.query_memory_region(0x1F_F000, 0x2000), Ok(attributes(READ_ONLY)));
    table.unmap_memory_region(0x1000, 0x4000).unwrap();
    assert_eq!(table.query_memory_region(0x2000, 0x1000), Err(PtError::NoMapping));
}

#[test]
fn the_self_map_is_in_canonical_form() {
    let table = x64(LEVEL4);
    let root = FIRST_PAGE;
    let registers = X64Registers { cr3: root, cr4: None };
    assert_eq!(
        table.entry_address(&registers, root, 3, PageLevel::Level4, 0),
        0xFFFF_FF7F_BFDF_E018
    );
}

#[test]
fn a_page_is_cleared_through_a_window_while_in_use() {
    let table = x64(LEVEL4);
    let registers = X64Registers { cr3: FIRST_PAGE, cr4: None };
    let page = 0x55_5000;
    // The window is the first page of the last root entry.
    let va = 0xFFFF_FF80_0000_0000;
    let address = 0xFFFF_FF7F_C000_0000;
    assert_eq!(
        table.clear_steps(&registers, page),
        Ok(vec![
            ClearStep::WriteEntry { address, word: 0x55_5007, va },
            ClearStep::Zero { va },
            ClearStep::WriteEntry { address, word: 0, va },
            ClearStep::Invalidate { va },
        ])
    );
    let unused = X64Registers { cr3: 0, cr4: None };
    assert_eq!(table.clear_steps(&unused, page), Ok(vec![ClearStep::Zero { va: page }]));
}

#[test]
fn setting_the_present_bit_keeps_all_other_bits() {
    let mut entry = PageTableEntryX64::from_word(0x8000_0000_0000_5000);
    entry.set_present_bit(true);
    assert_eq!(entry.to_word(), 0x8000_0000_0000_5001);
    entry.set_present_bit(false);
    assert_eq!(entry.to_word(), 0x8000_0000_0000_5000);
    let mut entry = PageTableEntryAArch64::from_word(0x0060_0000_0000_570E);
    entry.set_present_bit(true);
    assert_eq!(entry.to_word(), 0x0060_0000_0000_570F);
}

#[test]
fn a_dump_gives_canonical_addresses() {
    let mut table = x64(LEVEL4);
    table.map_memory_region(0xFFFF_8000_0000_0000, SIZE_4KB, attributes(0)).unwrap();
    let entries = table.dump_page_tables(0, 1 << 48).unwrap();
    assert_eq!(entries[0].va, 0xFFFF_8000_0000_0000);
    assert_eq!(entries[0].level, PageLevel::Level4);
    assert!(entries.iter().all(|entry| entry.va >= 0xFFFF_8000_0000_0000));
}

#[test]
fn the_journal_holds_addresses_in_the_form_of_the_range() {
    let mut table = x64(LEVEL4);
    for op in table.take_journal() {
        if let MemoryOp::WriteEntry { va, .. } = op {
            assert_eq!(va >> 48, 0xFFFF);
        }
    }
    table.map_memory_region(0xFFFF_8000_0000_1000, SIZE_4KB, attributes(0)).unwrap();
    table.unmap_memory_region(0xFFFF_8000_0000_1000, SIZE_4KB).unwrap();
    let written: Vec<u64> = table
        .take_journal()
        .iter()
        .filter_map(|op| match *op {
            MemoryOp::WriteEntry { va, .. } => Some(va),
            MemoryOp::ZeroPage { .. } => None,
        })
        .collect();
    let first = 0xFFFF_8000_0000_0000;
    assert_eq!(written, vec![first, first, first, first + 0x1000, first + 0x1000]);
}

#[test]
fn a_list_from_a_start_address_is_the_end_of_the_full_list() {
    let mut table = x64(LEVEL4);
    table.map_memory_region(0x1000, 0x3000, attributes(0)).unwrap();
    table.map_memory_region(SIZE_2MB, SIZE_2MB, attributes(READ_ONLY)).unwrap();
    table.map_memory_region(0xFFFF_8000_0000_0000, SIZE_4KB, attributes(0)).unwrap();
    let all = table.iter_mapped_regions(None);
    assert_eq!(all.len(), 5);
    assert_eq!(table.iter_mapped_regions(Some(0x2FFF)), all[1..]);
    assert_eq!(table.iter_mapped_regions(Some(SIZE_2MB + 5)), all[3..]);
    assert_eq!(table.iter_mapped_regions(Some(2 * SIZE_2MB)), all[4..]);
}

#[test]
fn a_range_that_was_mapped_is_mapped_anew_without_pages() {
    let pages = Pages::new(100);
    let mut table = X64PageTable::new(pages.clone(), LEVEL4).unwrap();
    table.map_memory_region(0, SIZE_1GB, attributes(0)).unwrap();
    table.map_memory_region(0x5000, SIZE_2MB, attributes(READ_ONLY)).unwrap();
    let left = pages.left.get();
    table.map_memory_region(0x5000, SIZE_2MB, attributes(EXECUTE_PROTECT)).unwrap();
    table.unmap_memory_region(0x5000, SIZE_2MB).unwrap();
    assert_eq!(pages.left.get(), left);
    // A part of a large page that is already as wanted is left in one piece, and split later.
    table.map_memory_region(SIZE_1GB, SIZE_1GB, attributes(0)).unwrap();
    table.map_memory_region(SIZE_1GB, SIZE_4KB, attributes(0)).unwrap();
    assert_eq!(pages.left.get(), left);
    table.map_memory_region(SIZE_1GB, SIZE_4KB, attributes(READ_ONLY)).unwrap();
    assert_eq!(pages.left.get(), left - 2);
}
