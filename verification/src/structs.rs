//! Paging types, page levels and addresses.
use vstd::prelude::*;

verus! {

/// The size of a page, and of a table.
pub const PAGE_SIZE: u64 = 0x1000;

/// The number of entries in a table.
pub const MAX_ENTRIES: usize = 512;

/// The root entry that points back at the root.
pub const SELF_MAP_INDEX: u64 = 0x1FE;

/// The root entry of the range through which fresh pages are cleared.
pub const ZERO_VA_INDEX: u64 = 0x1FF;

pub const SIZE_4KB: u64 = 0x1000;

pub const SIZE_2MB: u64 = 0x20_0000;

pub const SIZE_1GB: u64 = 0x4000_0000;

pub const SIZE_4GB: u64 = 0x1_0000_0000;

pub const SIZE_64GB: u64 = 0x10_0000_0000;

pub const SIZE_512GB: u64 = 0x80_0000_0000;

pub const SIZE_1TB: u64 = 0x100_0000_0000;

pub const SIZE_4TB: u64 = 0x400_0000_0000;

pub const SIZE_16TB: u64 = 0x1000_0000_0000;

pub const SIZE_256TB: u64 = 0x1_0000_0000_0000;

/// How many bytes of address space one entry of a table at depth `n` covers.
pub open spec fn entry_size(n: nat) -> int {
    if n <= 1 {
        0x1000
    } else if n == 2 {
        0x20_0000
    } else if n == 3 {
        0x4000_0000
    } else if n == 4 {
        0x80_0000_0000
    } else {
        0x1_0000_0000_0000
    }
}

/// How many bytes of address space a table at depth `n` covers.
pub open spec fn table_size(n: nat) -> int {
    512 * entry_size(n)
}

/// The first address that entry `i` of a table at depth `n` covers, where the table
/// covers addresses from `base` on.
pub open spec fn entry_base(n: nat, base: int, i: int) -> int {
    if n <= 1 {
        base + i * 0x1000
    } else if n == 2 {
        base + i * 0x20_0000
    } else if n == 3 {
        base + i * 0x4000_0000
    } else if n == 4 {
        base + i * 0x80_0000_0000
    } else {
        base + i * 0x1_0000_0000_0000
    }
}

/// Whether the address `x` is a multiple of what an entry at depth `n` covers.
pub open spec fn aligned(n: nat, x: int) -> bool {
    if n <= 1 {
        x % 0x1000 == 0
    } else if n == 2 {
        x % 0x20_0000 == 0
    } else if n == 3 {
        x % 0x4000_0000 == 0
    } else if n == 4 {
        x % 0x80_0000_0000 == 0
    } else if n == 5 {
        x % 0x1_0000_0000_0000 == 0
    } else {
        x % 0x200_0000_0000_0000 == 0
    }
}

/// The number of entries at depth `n` that a range of `length` bytes fills.
pub open spec fn entries_in(n: nat, length: int) -> int {
    if n <= 1 {
        length / 0x1000
    } else if n == 2 {
        length / 0x20_0000
    } else if n == 3 {
        length / 0x4000_0000
    } else if n == 4 {
        length / 0x80_0000_0000
    } else {
        length / 0x1_0000_0000_0000
    }
}

/// The entry of a table at depth `n` that covers `va`, where the table covers addresses
/// from `base` on.
pub open spec fn entry_index(n: nat, base: int, va: int) -> int {
    entries_in(n, va - base)
}

/// The index that selects an entry at depth `n` for the address `va`.
pub open spec fn va_index(n: nat, va: int) -> int {
    entries_in(n, va) % 512
}

/// The entry for an address in a table is one of the table's, and covers the address.
pub proof fn lemma_entry_index(n: nat, base: int, va: int)
    requires
        1 <= n <= 5,
        base <= va < base + table_size(n),
    ensures
        0 <= entry_index(n, base, va) < 512,
        entry_base(n, base, entry_index(n, base, va)) <= va < entry_base(
            n,
            base,
            entry_index(n, base, va),
        ) + entry_size(n),
{
}

/// An address that an entry covers selects that entry.
pub proof fn lemma_entry_base(n: nat, base: int, i: int, va: int)
    requires
        1 <= n <= 5,
        0 <= i < 512,
        entry_base(n, base, i) <= va < entry_base(n, base, i) + entry_size(n),
    ensures
        entry_index(n, base, va) == i,
        base <= va < base + table_size(n),
{
}

/// An entry of a table covers a part of what the table covers, and as much as a table one
/// level down.
pub proof fn lemma_entry_within(n: nat, base: int, i: int)
    requires
        1 <= n <= 5,
        0 <= i < 512,
    ensures
        base <= entry_base(n, base, i),
        entry_base(n, base, i) + entry_size(n) <= base + table_size(n),
        n >= 2 ==> table_size((n - 1) as nat) == entry_size(n),
        entry_base(n, base, i) + entry_size(n) == entry_base(n, base, i + 1),
        aligned(n + 1, base) ==> aligned(n, entry_base(n, base, i)),
{
    if aligned(n + 1, base) {
        if n == 1 {
            let q = base / 0x20_0000;
            assert(base + i * 0x1000 == (q * 512 + i) * 0x1000);
            assert(((q * 512 + i) * 0x1000) % 0x1000 == 0);
        } else if n == 2 {
            let q = base / 0x4000_0000;
            assert(base + i * 0x20_0000 == (q * 512 + i) * 0x20_0000);
            assert(((q * 512 + i) * 0x20_0000) % 0x20_0000 == 0);
        } else if n == 3 {
            let q = base / 0x80_0000_0000;
            assert(base + i * 0x4000_0000 == (q * 512 + i) * 0x4000_0000);
            assert(((q * 512 + i) * 0x4000_0000) % 0x4000_0000 == 0);
        } else if n == 4 {
            let q = base / 0x1_0000_0000_0000;
            assert(base + i * 0x80_0000_0000 == (q * 512 + i) * 0x80_0000_0000);
            assert(((q * 512 + i) * 0x80_0000_0000) % 0x80_0000_0000 == 0);
        } else {
            let q = base / 0x200_0000_0000_0000;
            assert(base + i * 0x1_0000_0000_0000 == (q * 512 + i) * 0x1_0000_0000_0000);
            assert(((q * 512 + i) * 0x1_0000_0000_0000) % 0x1_0000_0000_0000 == 0);
        }
    }
}

/// An address put together from indices selects the entries with these indices.
pub proof fn lemma_va_index(r: int, high: int, i5: int, i4: int, i3: int, i2: int, i1: int)
    requires
        high >= 0,
        0 <= i5 < 512,
        0 <= i4 < 512,
        0 <= i3 < 512,
        0 <= i2 < 512,
        0 <= i1 < 512,
        r == high * 0x200_0000_0000_0000 + i5 * 0x1_0000_0000_0000 + i4 * 0x80_0000_0000 + i3
            * 0x4000_0000 + i2 * 0x20_0000 + i1 * 0x1000,
    ensures
        va_index(1, r) == i1,
        va_index(2, r) == i2,
        va_index(3, r) == i3,
        va_index(4, r) == i4,
        va_index(5, r) == i5,
        r % 0x1000 == 0,
{
    let a5 = high * 512 + i5;
    let a4 = a5 * 512 + i4;
    let a3 = a4 * 512 + i3;
    let a2 = a3 * 512 + i2;
    let a1 = a2 * 512 + i1;
    assert(r == a1 * 0x1000);
    assert(r / 0x1000 == a1);
    assert(r / 0x20_0000 == a2);
    assert(r / 0x4000_0000 == a3);
    assert(r / 0x80_0000_0000 == a4);
    assert(r / 0x1_0000_0000_0000 == a5);
}

/// How many levels of tables a paging type has.
#[derive(Clone, Copy, Debug, PartialEq, Eq, Structural)]
pub enum PagingType {
    Paging4Level,
    Paging5Level,
}

impl PagingType {
    /// The number of levels.
    pub open spec fn levels(self) -> nat {
        match self {
            PagingType::Paging4Level => 4,
            PagingType::Paging5Level => 5,
        }
    }

    /// The number of bytes of address space.
    pub open spec fn space(self) -> int {
        table_size(self.levels())
    }

    /// The number of significant address bits.
    pub fn linear_address_bits(self) -> (r: u64)
        ensures
            r == 9 * self.levels() + 12,
    {
        match self {
            PagingType::Paging4Level => 48,
            PagingType::Paging5Level => 57,
        }
    }

    /// The number of bytes of address space.
    pub fn address_space_size(self) -> (r: u64)
        ensures
            r == self.space(),
    {
        match self {
            PagingType::Paging4Level => 0x1_0000_0000_0000,
            PagingType::Paging5Level => 0x200_0000_0000_0000,
        }
    }
}

/// The level of a table. Entries at the lowest level map single pages.
#[derive(Clone, Copy, Debug, PartialEq, Eq, Structural)]
pub enum PageLevel {
    Level5,
    Level4,
    Level3,
    Level2,
    Level1,
}

impl PageLevel {
    /// The number of the level, counted from the lowest.
    pub open spec fn depth(self) -> nat {
        match self {
            PageLevel::Level5 => 5,
            PageLevel::Level4 => 4,
            PageLevel::Level3 => 3,
            PageLevel::Level2 => 2,
            PageLevel::Level1 => 1,
        }
    }

    /// The level of the root table.
    pub fn root_level(paging_type: PagingType) -> (r: PageLevel)
        ensures
            r.depth() == paging_type.levels(),
    {
        match paging_type {
            PagingType::Paging4Level => PageLevel::Level4,
            PagingType::Paging5Level => PageLevel::Level5,
        }
    }

    /// The level below, if there is one.
    pub fn next_level(self) -> (r: Option<PageLevel>)
        ensures
            match r {
                Some(l) => l.depth() == self.depth() - 1,
                None => self.depth() == 1,
            },
    {
        match self {
            PageLevel::Level5 => Some(PageLevel::Level4),
            PageLevel::Level4 => Some(PageLevel::Level3),
            PageLevel::Level3 => Some(PageLevel::Level2),
            PageLevel::Level2 => Some(PageLevel::Level1),
            PageLevel::Level1 => None,
        }
    }

    /// Whether this is the lowest level.
    pub fn is_lowest_level(self) -> (r: bool)
        ensures
            r == (self.depth() == 1),
    {
        matches!(self, PageLevel::Level1)
    }

    /// The number of levels below.
    pub fn height(self) -> (r: usize)
        ensures
            r == self.depth() - 1,
    {
        match self {
            PageLevel::Level5 => 4,
            PageLevel::Level4 => 3,
            PageLevel::Level3 => 2,
            PageLevel::Level2 => 1,
            PageLevel::Level1 => 0,
        }
    }

    /// How many bytes of address space one entry at this level covers.
    pub fn entry_va_size(self) -> (r: u64)
        ensures
            r == entry_size(self.depth()),
    {
        match self {
            PageLevel::Level5 => SIZE_256TB,
            PageLevel::Level4 => SIZE_512GB,
            PageLevel::Level3 => SIZE_1GB,
            PageLevel::Level2 => SIZE_2MB,
            PageLevel::Level1 => SIZE_4KB,
        }
    }
}

/// A virtual address.
#[derive(Clone, Copy, Debug, PartialEq, Eq, Structural)]
pub struct VirtualAddress {
    pub value: u64,
}

impl VirtualAddress {
    pub fn new(value: u64) -> (r: Self)
        ensures
            r.value == value,
    {
        VirtualAddress { value }
    }

    /// The index that selects the entry for this address at `level`.
    pub fn get_index(self, level: PageLevel) -> (r: u64)
        ensures
            r == va_index(level.depth(), self.value as int),
            r < 512,
    {
        match level {
            PageLevel::Level5 => (self.value / SIZE_256TB) % 512,
            PageLevel::Level4 => (self.value / SIZE_512GB) % 512,
            PageLevel::Level3 => (self.value / SIZE_1GB) % 512,
            PageLevel::Level2 => (self.value / SIZE_2MB) % 512,
            PageLevel::Level1 => (self.value / SIZE_4KB) % 512,
        }
    }

    /// Whether this address begins a page.
    pub fn is_page_aligned(self) -> (r: bool)
        ensures
            r == (self.value % PAGE_SIZE == 0),
    {
        self.value % PAGE_SIZE == 0
    }
}

/// A physical address.
#[derive(Clone, Copy, Debug, PartialEq, Eq, Structural)]
pub struct PhysicalAddress {
    pub value: u64,
}

impl PhysicalAddress {
    pub fn new(value: u64) -> (r: Self)
        ensures
            r.value == value,
    {
        PhysicalAddress { value }
    }
}

/// One present leaf entry of a page table.
#[derive(Clone, Copy, Debug, PartialEq, Eq, Structural)]
pub struct MappedRegion {
    /// The first virtual address, in canonical form.
    pub va: u64,
    /// The physical address that the first virtual address maps to.
    pub pa: u64,
    /// The number of bytes.
    pub size: u64,
    /// The attributes in force, with the restrictions of the tables above.
    pub attributes: crate::attributes::MemoryAttributes,
}

/// An index within a table is the remainder of the index within the address space.
proof fn lemma_index_of(size: int, q: int, va: int)
    requires
        size > 0,
        q * (512 * size) <= va < q * (512 * size) + 512 * size,
    ensures
        (va - q * (512 * size)) / size == (va / size) % 512,
{
    let base = q * (512 * size);
    let d = va - base;
    assert(base == (512 * q) * size) by (nonlinear_arith)
        requires
            base == q * (512 * size),
    ;
    vstd::arithmetic::div_mod::lemma_hoist_over_denominator(d, 512 * q, size as nat);
    assert(0 <= d / size < 512) by (nonlinear_arith)
        requires
            0 <= d < 512 * size,
            size > 0,
    ;
    vstd::arithmetic::div_mod::lemma_mod_multiples_vanish(q, d / size, 512);
    vstd::arithmetic::div_mod::lemma_small_mod((d / size) as nat, 512);
}

/// The entry of a table for an address is the one that the address selects by its index.
pub proof fn lemma_index(n: nat, base: int, va: int)
    requires
        1 <= n <= 5,
        aligned(n + 1, base),
        0 <= base <= va < base + table_size(n),
    ensures
        entry_index(n, base, va) == va_index(n, va),
{
    if n == 1 {
        lemma_index_of(0x1000, base / 0x20_0000, va);
    } else if n == 2 {
        lemma_index_of(0x20_0000, base / 0x4000_0000, va);
    } else if n == 3 {
        lemma_index_of(0x4000_0000, base / 0x80_0000_0000, va);
    } else if n == 4 {
        lemma_index_of(0x80_0000_0000, base / 0x1_0000_0000_0000, va);
    } else {
        lemma_index_of(0x1_0000_0000_0000, base / 0x200_0000_0000_0000, va);
    }
}

/// The indices of an address depend on its low bits alone, and not on those within a page.
pub proof fn lemma_low_bits(paging_type: PagingType, k: nat, va: u64, distance: int)
    requires
        1 <= k <= paging_type.levels(),
        0 <= distance < 0x1000,
        distance > 0 ==> va % 0x1000 == 0,
    ensures
        va_index(k, va as int) == va_index(
            k,
            va as int % paging_type.space() + distance,
        ),
{
    let d = distance as u64;
    assert({
        &&& ((va % 0x1_0000_0000_0000 + d) / 0x1000) % 512 == (va / 0x1000) % 512
        &&& ((va % 0x1_0000_0000_0000 + d) / 0x20_0000) % 512 == (va / 0x20_0000) % 512
        &&& ((va % 0x1_0000_0000_0000 + d) / 0x4000_0000) % 512 == (va / 0x4000_0000) % 512
        &&& ((va % 0x1_0000_0000_0000 + d) / 0x80_0000_0000) % 512 == (va / 0x80_0000_0000) % 512
    }) by (bit_vector)
        requires
            d < 0x1000,
            d == 0 || va % 0x1000 == 0,
    ;
    assert({
        &&& ((va % 0x200_0000_0000_0000 + d) / 0x1000) % 512 == (va / 0x1000) % 512
        &&& ((va % 0x200_0000_0000_0000 + d) / 0x20_0000) % 512 == (va / 0x20_0000) % 512
        &&& ((va % 0x200_0000_0000_0000 + d) / 0x4000_0000) % 512 == (va / 0x4000_0000) % 512
        &&& ((va % 0x200_0000_0000_0000 + d) / 0x80_0000_0000) % 512 == (va / 0x80_0000_0000) % 512
        &&& ((va % 0x200_0000_0000_0000 + d) / 0x1_0000_0000_0000) % 512 == (va
            / 0x1_0000_0000_0000) % 512
    }) by (bit_vector)
        requires
            d < 0x1000,
            d == 0 || va % 0x1000 == 0,
    ;
    match paging_type {
        PagingType::Paging4Level => {
            assert(paging_type.space() == 0x1_0000_0000_0000);
            assert(k == 1 || k == 2 || k == 3 || k == 4);
        },
        PagingType::Paging5Level => {
            assert(paging_type.space() == 0x200_0000_0000_0000);
            assert(k == 1 || k == 2 || k == 3 || k == 4 || k == 5);
        },
    }
}

/// A multiple of the address space does not count for what an address is in the address space.
pub proof fn lemma_offset(paging_type: PagingType, offset: int, va: int)
    requires
        offset % paging_type.space() == 0,
        0 <= va < paging_type.space(),
    ensures
        (offset + va) % paging_type.space() == va,
{
    let space = paging_type.space();
    vstd::arithmetic::div_mod::lemma_fundamental_div_mod(offset, space);
    vstd::arithmetic::div_mod::lemma_mod_multiples_vanish(offset / space, va, space);
    vstd::arithmetic::div_mod::lemma_small_mod(va as nat, space as nat);
}

} // verus!
