//! What the processors fix: addresses, registers, entry formats.
use paging::aarch64::structs::{
    FOUR_LEVEL_LEVEL1_SELF_MAP_BASE, FOUR_LEVEL_LEVEL2_SELF_MAP_BASE,
    FOUR_LEVEL_LEVEL3_SELF_MAP_BASE, FOUR_LEVEL_LEVEL4_SELF_MAP_BASE, MAX_VA_4_LEVEL,
    MAX_VA_5_LEVEL, PageTableEntryAArch64, ZERO_VA_4_LEVEL,
};
use paging::aarch64::{
    AArch64PageTable, AArch64Registers, ExceptionLevel, PageTableArchAArch64, MAIR,
};
use paging::arch::{PageTableEntry, PageTableHal};
use paging::attributes::{
    EXECUTE_PROTECT, READ_ONLY, READ_PROTECT, UNCACHEABLE, WRITEBACK, WRITE_COMBINING,
    WRITE_THROUGH,
};
use paging::memory::PageMemory;
use paging::page_allocator::{PageAllocator, PageAllocatorStub};
use paging::structs::{PageLevel, PhysicalAddress, VirtualAddress, PAGE_SIZE};
use paging::x64::structs::{PageTableEntryX64, CR3_PAGE_BASE_ADDRESS_MASK};
use paging::x64::{
    check_canonical_range, disable_write_protection, enable_write_protection, PageTableArchX64,
    X64PageTable, X64Registers, PD, PDP, PML4, PML5, PT,
};
use paging::{MemoryAttributes, PagingType, PtError};

#[test]
fn test_paging_type_supported() {
    let arch = PageTableArchAArch64;
    assert!(arch.paging_type_supported(PagingType::Paging4Level).is_ok());
    assert!(arch.paging_type_supported(PagingType::Paging5Level).is_ok());
}

#[test]
fn test_get_zero_va() {
    let arch = PageTableArchAArch64;
    assert_eq!(
        arch.get_zero_va(PagingType::Paging4Level).unwrap(),
        VirtualAddress::new(ZERO_VA_4_LEVEL)
    );
    assert!(arch.get_zero_va(PagingType::Paging5Level).is_err());
}

#[test]
fn test_get_max_va() {
    let arch = PageTableArchAArch64;
    assert_eq!(
        arch.get_max_va(PagingType::Paging4Level).unwrap(),
        VirtualAddress::new(MAX_VA_4_LEVEL)
    );
    assert_eq!(
        arch.get_max_va(PagingType::Paging5Level).unwrap(),
        VirtualAddress::new(MAX_VA_5_LEVEL)
    );
}

#[test]
fn test_level_supports_pa_entry() {
    let arch = PageTableArchAArch64;
    assert!(!arch.level_supports_pa_entry(PageLevel::Level5));
    assert!(!arch.level_supports_pa_entry(PageLevel::Level4));
    assert!(arch.level_supports_pa_entry(PageLevel::Level3));
    assert!(arch.level_supports_pa_entry(PageLevel::Level2));
    assert!(arch.level_supports_pa_entry(PageLevel::Level1));
}

#[test]
fn test_cannot_create_5_level_page_table() {
    let res = AArch64PageTable::new(PageAllocatorStub::new(), PagingType::Paging5Level);
    assert!(res.is_err());
    assert_eq!(res.err().unwrap(), PtError::UnsupportedPagingType);
}

#[test]
fn test_get_self_mapped_base_4_level() {
    let va = VirtualAddress::new(0u64);
    let arch = PageTableArchAArch64;

    assert_eq!(
        arch.get_self_mapped_base(PageLevel::Level4, va, PagingType::Paging4Level),
        FOUR_LEVEL_LEVEL4_SELF_MAP_BASE
    );
    assert_eq!(
        arch.get_self_mapped_base(PageLevel::Level3, va, PagingType::Paging4Level),
        FOUR_LEVEL_LEVEL3_SELF_MAP_BASE
    );
    assert_eq!(
        arch.get_self_mapped_base(PageLevel::Level2, va, PagingType::Paging4Level),
        FOUR_LEVEL_LEVEL2_SELF_MAP_BASE
    );
    assert_eq!(
        arch.get_self_mapped_base(PageLevel::Level1, va, PagingType::Paging4Level),
        FOUR_LEVEL_LEVEL1_SELF_MAP_BASE
    );
}

#[test]
fn test_zero_page_zeros_entire_page() {
    let page = 0x7000;
    let mut memory = PageMemory::new();
    memory.load(page, vec![0xAAAA_AAAA_AAAA_AAAA; 512]);
    assert!((0..512).all(|i| memory.read(page, i) == 0xAAAA_AAAA_AAAA_AAAA));

    memory.zero_page(page);

    assert!((0..512).all(|i| memory.read(page, i) == 0), "Not all bytes were zeroed");
}

#[test]
fn test_check_canonical_range_4_level() {
    let paging_type = PagingType::Paging4Level;

    // Check the full lower address range.
    assert!(check_canonical_range(0x0000_0000_0000_0000, 1 << 47, paging_type).is_ok());

    // Check the full upper address range.
    assert!(check_canonical_range(0xFFFF_8000_0000_0000, 1 << 47, paging_type).is_ok());

    // Check going into the non-canonical range.
    assert!(check_canonical_range(0x0000_7FFF_FFFF_F000, 2 * PAGE_SIZE, paging_type).is_err());

    // Check fully non-canonical range.
    assert!(check_canonical_range(0x8d48_0000_0000_0000, PAGE_SIZE, paging_type).is_err());

    // Checking coming out of the non-canonical range.
    assert!(check_canonical_range(0xFFFF_0000_0000_0000, 0x8F00_0000_0000, paging_type).is_err());

    // Check spanning non-canonical addresses.
    assert!(
        check_canonical_range(0x0000_0000_0000_0000, 0xFFFF_FFFF_FFFF_F000, paging_type).is_err()
    );
}

#[test]
fn test_check_canonical_range_5_level() {
    let paging_type = PagingType::Paging5Level;

    // Check the full lower address range.
    assert!(check_canonical_range(0x0000_0000_0000_0000, 1 << 56, paging_type).is_ok());

    // Check the full upper address range.
    assert!(check_canonical_range(0xFF00_0000_0000_0000, 1 << 56, paging_type).is_ok());

    // Check going into the non-canonical range.
    assert!(check_canonical_range(0x00FF_FFFF_FFFF_F000, 2 * PAGE_SIZE, paging_type).is_err());

    // Check fully non-canonical range.
    assert!(check_canonical_range(0x8d48_0000_0000_0000, PAGE_SIZE, paging_type).is_err());

    // Checking coming out of the non-canonical range.
    assert!(check_canonical_range(0xFE00_0000_0000_0000, 0x1_FF00_0000_0000, paging_type).is_err());

    // Check spanning non-canonical addresses.
    assert!(
        check_canonical_range(0x0000_0000_0000_0000, 0xFFFF_FFFF_FFFF_F000, paging_type).is_err()
    );
}

#[test]
fn canonical_range_errors() {
    let paging_type = PagingType::Paging4Level;
    assert_eq!(
        check_canonical_range(0x8000_0000_0000, PAGE_SIZE, paging_type),
        Err(PtError::InvalidParameter)
    );
    assert_eq!(check_canonical_range(0x1000, 0, paging_type), Err(PtError::InvalidMemoryRange));
    assert_eq!(
        check_canonical_range(0xFFFF_FFFF_FFFF_F000, 0x1001, paging_type),
        Err(PtError::InvalidMemoryRange)
    );
    assert_eq!(check_canonical_range(0xFFFF_FFFF_FFFF_F000, 0x1000, paging_type), Ok(()));
    assert_eq!(
        check_canonical_range(0x7FFF_FFFF_F000, 0x1001, paging_type),
        Err(PtError::InvalidMemoryRange)
    );
}

#[test]
fn x64_addresses() {
    let arch = PageTableArchX64;
    let zero = |t| arch.get_zero_va(t).unwrap().value;
    let max = |t| arch.get_max_va(t).unwrap().value;
    assert_eq!(zero(PagingType::Paging4Level), 0xFFFF_FF80_0000_0000);
    assert_eq!(zero(PagingType::Paging5Level), 0xFFFF_0000_0000_0000);
    assert_eq!(max(PagingType::Paging4Level), 0xFFFF_FEFF_FFFF_FFFF);
    assert_eq!(max(PagingType::Paging5Level), 0xFFFD_FFFF_FFFF_FFFF);
    assert!(arch.paging_type_supported(PagingType::Paging4Level).is_ok());
    assert!(arch.paging_type_supported(PagingType::Paging5Level).is_ok());
    assert!(!arch.level_supports_pa_entry(PML5));
    assert!(!arch.level_supports_pa_entry(PML4));
    assert!(arch.level_supports_pa_entry(PDP));
    assert!(arch.level_supports_pa_entry(PD));
    assert!(arch.level_supports_pa_entry(PT));
}

#[test]
fn x64_self_mapped_bases() {
    let arch = PageTableArchX64;
    // Indices 1, 2, 3, 4 from the fourth level down, and 5 at the fifth.
    let va = VirtualAddress::new(0x0005_0080_8060_4000);
    let four = |level| arch.get_self_mapped_base(level, va, PagingType::Paging4Level);
    assert_eq!(four(PML4), 0xFFFF_FF7F_BFDF_E000);
    assert_eq!(four(PDP), 0xFFFF_FF7F_BFC0_1000);
    assert_eq!(four(PD), 0xFFFF_FF7F_8020_2000);
    assert_eq!(four(PT), 0xFFFF_FF00_4040_3000);
    let five = |level| arch.get_self_mapped_base(level, va, PagingType::Paging5Level);
    assert_eq!(five(PML5), 0xFFFE_FF7F_BFDF_E000);
    assert_eq!(five(PML4), 0xFFFE_FF7F_BFC0_5000);
    assert_eq!(five(PDP), 0xFFFE_FF7F_80A0_1000);
    assert_eq!(five(PD), 0xFFFE_FF01_4020_2000);
    assert_eq!(five(PT), 0xFFFE_0280_4040_3000);
}

#[test]
fn aarch64_self_mapped_bases() {
    let arch = PageTableArchAArch64;
    let va = VirtualAddress::new(0x0000_0080_8060_4000);
    let base = |level| arch.get_self_mapped_base(level, va, PagingType::Paging4Level);
    assert_eq!(base(PageLevel::Level4), 0x0000_FF7F_BFDF_E000);
    assert_eq!(base(PageLevel::Level3), 0x0000_FF7F_BFC0_1000);
    assert_eq!(base(PageLevel::Level2), 0x0000_FF7F_8020_2000);
    assert_eq!(base(PageLevel::Level1), 0x0000_FF00_4040_3000);
}

#[test]
fn x64_paging_type_detection() {
    assert_eq!(paging::x64::detect_paging_type(0), Ok(PagingType::Paging4Level));
    assert_eq!(paging::x64::detect_paging_type(0x1000), Ok(PagingType::Paging5Level));
    assert_eq!(paging::x64::detect_paging_type(!0x1000), Ok(PagingType::Paging4Level));
}

#[test]
fn aarch64_paging_type_detection() {
    let detect = paging::aarch64::detect_paging_type;
    assert_eq!(detect(16), Ok(PagingType::Paging4Level));
    assert_eq!(detect(24), Ok(PagingType::Paging4Level));
    assert_eq!(detect(25), Err(PtError::UnsupportedPagingType));
    assert_eq!(detect(15), Ok(PagingType::Paging5Level));
    assert_eq!(detect(12), Ok(PagingType::Paging5Level));
    assert_eq!(detect(11), Err(PtError::UnsupportedPagingType));
    assert_eq!(detect(0), Err(PtError::UnsupportedPagingType));
    assert_eq!(detect(0x4000 | 16), Err(PtError::UnsupportedPagingType));
    assert_eq!(detect(0x8000 | 16), Err(PtError::UnsupportedPagingType));
    assert_eq!(detect(0x1_0000 | 16), Ok(PagingType::Paging4Level));
}

#[test]
fn write_protection_is_disabled_and_restored() {
    let mut cr0 = 0x8005_0033;
    let saved = disable_write_protection(&mut cr0);
    assert_eq!(saved, 0x8005_0033);
    assert_eq!(cr0, 0x8004_0033);
    enable_write_protection(&mut cr0, saved);
    assert_eq!(cr0, 0x8005_0033);

    let mut unprotected = 0x8004_0033;
    let saved = disable_write_protection(&mut unprotected);
    enable_write_protection(&mut unprotected, saved);
    assert_eq!(unprotected, 0x8004_0033);
}

#[test]
fn x64_install_checks_the_paging_type() {
    let arch = PageTableArchX64;
    let mut registers = X64Registers { cr3: 0x5000, cr4: Some(0x1000) };
    assert_eq!(
        arch.install_page_table(&mut registers, 0x9000, PagingType::Paging4Level),
        Err(PtError::UnsupportedPagingType)
    );
    assert_eq!(registers, X64Registers { cr3: 0x5000, cr4: Some(0x1000) });
    assert!(!arch.is_table_active(&registers, 0x9000));
    assert_eq!(
        arch.install_page_table(&mut registers, 0x9000, PagingType::Paging5Level),
        Ok(())
    );
    assert_eq!(registers, X64Registers { cr3: 0x9000, cr4: Some(0x1000) });
    assert!(arch.is_table_active(&registers, 0x9000));

    let mut unknown = X64Registers { cr3: 0, cr4: None };
    assert_eq!(arch.install_page_table(&mut unknown, 0x9000, PagingType::Paging4Level), Ok(()));
    assert_eq!(unknown.cr3, 0x9000);
}

#[test]
fn aarch64_install_sets_all_registers() {
    let arch = PageTableArchAArch64;
    let before = AArch64Registers {
        ttbr0: 0,
        tcr: 0,
        mair: 0,
        pa_bits: 40,
        exception_level: ExceptionLevel::EL2,
    };
    let mut registers = before;
    assert_eq!(
        arch.install_page_table(&mut registers, 0x9000, PagingType::Paging5Level),
        Err(PtError::UnsupportedPagingType)
    );
    assert_eq!(registers, before);
    assert_eq!(
        arch.install_page_table(&mut registers, 0x9000, PagingType::Paging4Level),
        Ok(())
    );
    assert_eq!(registers.ttbr0, 0x9000);
    assert_eq!(registers.tcr, 0x8082_3510);
    assert_eq!(registers.mair, 0xFFBB_4400);
    assert_eq!(MAIR, (0x44 << 8) | (0xBB << 16) | (0xFF << 24));
    assert!(arch.is_table_active(&registers, 0x9000));
    assert!(!arch.is_table_active(&registers, 0xA000));

    let sizes = [(32, 0), (33, 1), (36, 1), (37, 2), (40, 2), (42, 3), (44, 4), (45, 5), (52, 5)];
    for (pa_bits, size) in sizes {
        let mut registers =
            AArch64Registers { pa_bits, exception_level: ExceptionLevel::EL1, ..before };
        assert!(arch.install_page_table(&mut registers, 0x9000, PagingType::Paging4Level).is_ok());
        assert_eq!(registers.tcr, 0x8080_3510 | (size << 32));
    }
}

#[test]
fn open_active_follows_the_registers() {
    let x64 = X64Registers { cr3: 0x1234_5018, cr4: Some(0x1000) };
    let table =
        X64PageTable::open_active(&x64, PageMemory::new(), PageAllocatorStub::new()).unwrap();
    assert_eq!(table.into_page_table_root(), 0x1234_5000);
    assert_eq!(0x1234_5018 & CR3_PAGE_BASE_ADDRESS_MASK, 0x1234_5000);

    let aarch64 = AArch64Registers {
        ttbr0: 0x1234_5000,
        tcr: 16,
        mair: 0,
        pa_bits: 48,
        exception_level: ExceptionLevel::EL2,
    };
    let open = |registers: AArch64Registers| {
        AArch64PageTable::open_active(&registers, PageMemory::new(), PageAllocatorStub::new())
            .map(|table| table.into_page_table_root())
    };
    assert_eq!(open(aarch64), Ok(0x1234_5000));
    let unaligned = AArch64Registers { ttbr0: 0x1234_5001, ..aarch64 };
    assert_eq!(open(unaligned), Err(PtError::UnalignedPageBase));
    let unsupported = AArch64Registers { tcr: 0, ..aarch64 };
    assert_eq!(open(unsupported), Err(PtError::UnsupportedPagingType));
}

#[test]
fn x64_entry_format() {
    let mut entry = PageTableEntryX64::from_word(0);
    assert!(!entry.get_present_bit());
    assert_eq!(entry.get_attributes().bits, READ_PROTECT | READ_ONLY);
    assert_eq!(
        entry.update_fields(
            MemoryAttributes::from_bits(READ_ONLY | EXECUTE_PROTECT | WRITEBACK),
            PhysicalAddress::new(0x12_3456_7000),
            true,
            PD,
        ),
        Ok(())
    );
    assert_eq!(entry.to_word(), 0x8000_0012_3456_7085);
    assert_eq!(entry.get_attributes().bits, READ_ONLY | EXECUTE_PROTECT);
    assert_eq!(entry.get_inheritable_attributes().bits, READ_ONLY | EXECUTE_PROTECT);
    assert_eq!(entry.get_next_address().value, 0x12_3456_7000);
    assert!(entry.points_to_pa(PD));
    assert!(entry.points_to_pa(PT));
    assert!(!entry.points_to_pa(PML4));
    entry.set_present_bit(false);
    assert_eq!(entry.to_word(), 0x8000_0012_3456_7084);
    entry.set_present_bit(true);
    assert_eq!(entry.to_word(), 0x8000_0012_3456_7085);
    entry.unmap();
    assert_eq!(entry.to_word(), 0);
}

#[test]
fn aarch64_entry_format() {
    let mut entry = PageTableEntryAArch64::from_word(0);
    assert_eq!(entry.get_attributes().bits, READ_PROTECT | UNCACHEABLE);
    let caches = [
        (UNCACHEABLE, 0x401),
        (WRITE_COMBINING, 0x405),
        (WRITE_THROUGH, 0x709),
        (WRITEBACK, 0x70D),
    ];
    for (cache, word) in caches {
        let attributes = MemoryAttributes::from_bits(cache);
        let pa = PhysicalAddress::new(0x20_0000);
        assert_eq!(entry.update_fields(attributes, pa, true, PageLevel::Level2), Ok(()));
        assert_eq!(entry.to_word(), 0x20_0000 | word);
        assert_eq!(entry.get_attributes(), attributes);
        assert!(entry.points_to_pa(PageLevel::Level2));
        assert_eq!(entry.update_fields(attributes, pa, false, PageLevel::Level2), Ok(()));
        assert_eq!(entry.to_word(), 0x20_0000 | word | 2);
        assert!(!entry.points_to_pa(PageLevel::Level2));
    }
    for cache in [0, UNCACHEABLE | WRITEBACK, 0xF] {
        let before = entry.to_word();
        let attributes = MemoryAttributes::from_bits(cache);
        assert_eq!(
            entry.update_fields(attributes, PhysicalAddress::new(0), true, PageLevel::Level1),
            Err(PtError::InvalidParameter)
        );
        assert_eq!(entry.to_word(), before);
    }
    let restricted = MemoryAttributes::from_bits(READ_ONLY | EXECUTE_PROTECT | WRITEBACK);
    assert_eq!(
        entry.update_fields(restricted, PhysicalAddress::new(0x3000), true, PageLevel::Level1),
        Ok(())
    );
    assert_eq!(entry.to_word(), 0x0060_0000_0000_378F);
    assert_eq!(entry.get_attributes(), restricted);
    assert_eq!(entry.get_inheritable_attributes(), MemoryAttributes::empty());
    let table = PageTableEntryAArch64::from_word(0x5800_0000_0000_3003);
    assert_eq!(table.get_inheritable_attributes().bits, READ_ONLY | EXECUTE_PROTECT);
}

#[test]
fn the_stub_allocator_has_no_pages() {
    let mut stub = PageAllocatorStub::new();
    assert_eq!(stub.allocate_page(PAGE_SIZE, PAGE_SIZE, true), Err(PtError::OutOfResources));
    let res = X64PageTable::new(stub, PagingType::Paging4Level);
    assert_eq!(res.err(), Some(PtError::OutOfResources));
}
