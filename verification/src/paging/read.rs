//! Reading the tables: queries, the list of mappings, and dumps.
use vstd::prelude::*;
use crate::arch::{canonical_va, PageTableEntry, PageTableHal};
use crate::attributes::MemoryAttributes;
use crate::error::PtError;
use crate::memory::word_at;
use crate::page_allocator::PageAllocator;
use crate::paging::{check_range, normalize, range_error, PageTableInternal};
use crate::structs::{
    entry_base, entry_index, entry_size, lemma_entry_within, table_size,
    MappedRegion, PageLevel, PagingType, SELF_MAP_INDEX, SIZE_1GB, SIZE_256TB, SIZE_2MB,
    SIZE_4KB, SIZE_512GB,
};
use crate::tree::{
    extent, lemma_extent, points_to_table, round_down, same_end, walk, Extent, Frames,
};

verus! {

/// What the tables say of an address, and of its neighbours from `low` on.
#[derive(Clone, Copy, Debug)]
pub struct Lookup {
    /// The first address that the last entry on the way covers.
    pub low: u64,
    /// How many bytes that entry covers.
    pub size: u64,
    /// What the table entries on the way forbid.
    pub restrictions: MemoryAttributes,
    /// If the entry maps memory, the physical address for `low` and the entry's attributes.
    pub mapping: Option<(u64, MemoryAttributes)>,
}

impl Lookup {
    /// The attributes in force, if the address is mapped.
    pub open spec fn spec_effective(self) -> Option<u64> {
        match self.mapping {
            Some(mapping) => Some(mapping.1.bits | self.restrictions.bits),
            None => None,
        }
    }

    /// The attributes in force, if the address is mapped.
    pub fn effective(&self) -> (r: Option<MemoryAttributes>)
        ensures
            match r {
                Some(attributes) => self.spec_effective() == Some(attributes.bits),
                None => self.spec_effective() == None::<u64>,
            },
    {
        match self.mapping {
            Some(mapping) => Some(mapping.1.union(self.restrictions)),
            None => None,
        }
    }

    /// Whether this is what the walk and the extent for `va` in a table say.
    pub open spec fn describes<E: PageTableEntry>(
        self,
        frames: Frames,
        page: u64,
        n: nat,
        base: int,
        va: int,
    ) -> bool {
        let x = extent::<E>(frames, page, n, base, va);
        let w = walk::<E>(frames, page, n, base, va);
        &&& self.low == x.low
        &&& self.size == entry_size(x.level)
        &&& self.restrictions.bits == w.restrictions
        &&& match (self.mapping, w.leaf) {
            (Some(mapping), Some(leaf)) => mapping.0 + (va - self.low) == leaf.pa
                && mapping.1.bits == leaf.attributes,
            (None, None) => true,
            _ => false,
        }
    }
}

/// The entry of a table at `level` that covers `va`, and the first address it covers, where
/// the table covers addresses from `base` on.
pub(crate) fn entry_position(level: PageLevel, base: u64, va: u64) -> (r: (u64, u64))
    requires
        base <= va < base + table_size(level.depth()),
    ensures
        r.0 == entry_index(level.depth(), base as int, va as int),
        r.0 < 512,
        r.1 == entry_base(level.depth(), base as int, r.0 as int),
        r.1 <= va < r.1 + entry_size(level.depth()),
{
    let distance: u64 = va - base;
    match level {
        PageLevel::Level5 => {
            let i: u64 = distance / SIZE_256TB;
            (i, base + i * SIZE_256TB)
        },
        PageLevel::Level4 => {
            let i: u64 = distance / SIZE_512GB;
            (i, base + i * SIZE_512GB)
        },
        PageLevel::Level3 => {
            let i: u64 = distance / SIZE_1GB;
            (i, base + i * SIZE_1GB)
        },
        PageLevel::Level2 => {
            let i: u64 = distance / SIZE_2MB;
            (i, base + i * SIZE_2MB)
        },
        PageLevel::Level1 => {
            let i: u64 = distance / SIZE_4KB;
            (i, base + i * SIZE_4KB)
        },
    }
}

/// The physical address that a leaf at `level` maps its first address to.
pub(crate) fn leaf_address(level: PageLevel, address: u64) -> (r: u64)
    ensures
        r == round_down(level.depth(), address as int),
{
    match level {
        PageLevel::Level1 => address - address % SIZE_4KB,
        PageLevel::Level2 => address - address % SIZE_2MB,
        _ => address - address % SIZE_1GB,
    }
}

/// The address with the low bits `va`, in the form that the processor expects.
fn canonical_form<A: PageTableHal>(arch: &A, paging_type: PagingType, va: u64) -> (r: u64)
    requires
        va < paging_type.space(),
    ensures
        r == canonical_va(va as int, paging_type, A::spec_sign_extends()),
{
    let space: u64 = paging_type.address_space_size();
    if arch.sign_extends() && va >= space - va {
        va + (0xFFFF_FFFF_FFFF_FFFF - space + 1)
    } else {
        va
    }
}

/// Where a list of regions begins.
pub open spec fn list_start(paging_type: PagingType, start_address: Option<u64>) -> int {
    match start_address {
        Some(address) => address as int % paging_type.space(),
        None => 0,
    }
}

impl<P: PageAllocator> PageTableInternal<P> {
    /// What the table in `page`, which is at `level` and covers addresses from `base` on, says
    /// of `va`.
    fn lookup<A: PageTableHal>(&self, page: u64, level: PageLevel, base: u64, va: u64) -> (r: Lookup)
        requires
            self.wf(),
            base <= va < base + table_size(level.depth()) <= 0x200_0000_0000_0000,
        ensures
            r.describes::<A::PTE>(self.frames(), page, level.depth(), base as int, va as int),
        decreases level.depth(),
    {
        let (index, low) = entry_position(level, base, va);
        let word: u64 = self.memory.read(page, index);
        let entry = A::PTE::from_word(word);
        proof {
            A::PTE::lemma_word(word);
            lemma_entry_within(level.depth(), base as int, index as int);
        }
        let size: u64 = level.entry_va_size();
        if !entry.get_present_bit() {
            return Lookup { low, size, restrictions: MemoryAttributes::empty(), mapping: None };
        }
        if entry.points_to_pa(level) {
            let pa: u64 = leaf_address(level, entry.get_next_address().value);
            return Lookup {
                low,
                size,
                restrictions: MemoryAttributes::empty(),
                mapping: Some((pa, entry.get_attributes())),
            };
        }
        match level.next_level() {
            Some(below) => {
                let found = self.lookup::<A>(entry.get_next_address().value, below, low, va);
                Lookup {
                    restrictions: entry.get_inheritable_attributes().union(found.restrictions),
                    ..found
                }
            },
            None => {
                assert(false);
                Lookup { low, size, restrictions: MemoryAttributes::empty(), mapping: None }
            },
        }
    }

    /// The attributes in force for the address `va` of the address space, if it is mapped.
    pub open spec fn status_at<A: PageTableHal>(&self, va: int) -> Option<u64> {
        self.walk_at::<A>(va).effective()
    }

    /// Whether the addresses from `start` up to `end` all have the attributes of the first.
    pub open spec fn uniform<A: PageTableHal>(&self, start: int, end: int) -> bool {
        forall|va: int|
            start <= va < end ==> #[trigger] self.status_at::<A>(va) == self.status_at::<A>(start)
    }

    /// Whether `r` is the answer to the question for the attributes of the addresses from
    /// `start` up to `end`. It is given by the first address if all others are like it.
    /// Otherwise the first one that is not decides on the error.
    pub open spec fn is_answer<A: PageTableHal>(
        &self,
        start: int,
        end: int,
        r: Result<MemoryAttributes, PtError>,
    ) -> bool {
        let first = self.status_at::<A>(start);
        &&& self.uniform::<A>(start, end) ==> r == match first {
            Some(bits) => Ok::<MemoryAttributes, PtError>(MemoryAttributes { bits }),
            None => Err::<MemoryAttributes, PtError>(PtError::NoMapping),
        }
        &&& forall|other: int|
            start < other < end && self.uniform::<A>(start, other) && #[trigger] self.status_at::<
                A,
            >(other) != first ==> r == Err::<MemoryAttributes, PtError>(
                if first is Some && self.status_at::<A>(other) is Some {
                    PtError::IncompatibleMemoryAttributes
                } else {
                    PtError::InconsistentMappingAcrossRange
                },
            )
    }

    /// The attributes of the addresses from `address` on, where they are all the same.
    pub fn query_memory_region<A: PageTableHal>(&self, arch: &A, address: u64, size: u64) -> (r:
        Result<MemoryAttributes, PtError>)
        requires
            self.wf(),
        ensures
            match range_error(self.spec_paging_type(), address, size) {
                Some(e) => r == Err::<MemoryAttributes, PtError>(e),
                None => {
                    let start = address as int % self.spec_paging_type().space();
                    self.is_answer::<A>(start, start + size, r)
                },
            },
    {
        check_range(self.paging_type, address, size)?;
        let start: u64 = normalize(self.paging_type, address);
        let end: u64 = start + size;
        let level: PageLevel = PageLevel::root_level(self.paging_type);
        let first = self.lookup::<A>(self.base, level, 0, start);
        let ghost status = self.status_at::<A>(start as int);
        let mut va: u64 = start;
        while va < end
            invariant
                self.wf(),
                range_error(self.spec_paging_type(), address, size) is None,
                start == address as int % self.spec_paging_type().space(),
                end == start + size,
                start <= va,
                start < end <= self.spec_paging_type().space(),
                level.depth() == self.spec_paging_type().levels(),
                status == self.status_at::<A>(start as int),
                first.spec_effective() == status,
                forall|v: int|
                    start <= v < va && v < end ==> #[trigger] self.status_at::<A>(v) == status,
            decreases
                    if va < end {
                        end - va
                    } else {
                        0
                    },
        {
            let found = self.lookup::<A>(self.base, level, 0, va);
            proof {
                lemma_extent::<A::PTE>(
                    self.frames(),
                    self.root(),
                    level.depth(),
                    0,
                    va as int,
                );
                assert(found.spec_effective() == self.status_at::<A>(va as int));
            }
            match (first.effective(), found.effective()) {
                (None, None) => {},
                (Some(expected), Some(attributes)) => {
                    if expected.bits != attributes.bits {
                        assert(self.status_at::<A>(va as int) != status);
                        return Err(PtError::IncompatibleMemoryAttributes);
                    }
                },
                _ => {
                    assert(self.status_at::<A>(va as int) != status);
                    return Err(PtError::InconsistentMappingAcrossRange);
                },
            }
            assert forall|v: int| start <= v < found.low + found.size implies #[trigger] self.status_at::<
                A,
            >(v) == status by {
                if v >= va {
                    assert(same_end(
                        self.walk_at::<A>(va as int),
                        self.walk_at::<A>(v),
                        v - va,
                    ));
                }
            }
            va = found.low + found.size;
        }
        match first.effective() {
            Some(attributes) => Ok(attributes),
            None => Err(PtError::NoMapping),
        }
    }

    /// The extent of the entry at which the walk from the root for `va` ends.
    pub open spec fn extent_at<A: PageTableHal>(&self, va: int) -> Extent {
        extent::<A::PTE>(self.frames(), self.root(), self.spec_paging_type().levels(), 0, va)
    }

    /// The mapped region that `va` is part of.
    pub open spec fn region_at<A: PageTableHal>(&self, va: int) -> MappedRegion {
        let x = self.extent_at::<A>(va);
        MappedRegion {
            va: canonical_va(x.low, self.spec_paging_type(), A::spec_sign_extends()) as u64,
            pa: (self.walk_at::<A>(va).leaf->0.pa - (va - x.low)) as u64,
            size: entry_size(x.level) as u64,
            attributes: MemoryAttributes { bits: self.status_at::<A>(va)->0 },
        }
    }

    /// The end of the addresses that are listed: that of the address space, or where the
    /// reserved root entries begin if the root maps itself.
    pub open spec fn region_limit<A: PageTableHal>(&self) -> int {
        if self.self_mapped::<A>() {
            entry_base(self.spec_paging_type().levels(), 0, 0x1FE)
        } else {
            self.spec_paging_type().space()
        }
    }

    /// The mapped regions from `va` on, entry by entry.
    pub open spec fn regions_from<A: PageTableHal>(&self, va: int, limit: int) -> Seq<MappedRegion>
        decreases
                if va < limit {
                    limit - va
                } else {
                    0
                },
    {
        let x = self.extent_at::<A>(va);
        let next = x.low + entry_size(x.level);
        if va >= limit || next <= va {
            Seq::empty()
        } else if self.status_at::<A>(va) is Some {
            seq![self.region_at::<A>(va)] + self.regions_from::<A>(next, limit)
        } else {
            self.regions_from::<A>(next, limit)
        }
    }

    /// Every mapped region, in the order of addresses. With a start address, the first one is
    /// the region that holds that address, or the next one after it.
    pub fn iter_mapped_regions<A: PageTableHal>(&self, arch: &A, start_address: Option<u64>) -> (r:
        Vec<MappedRegion>)
        requires
            self.wf(),
        ensures
            r@ == self.regions_from::<A>(
                list_start(self.spec_paging_type(), start_address),
                self.region_limit::<A>(),
            ),
    {
        let level: PageLevel = PageLevel::root_level(self.paging_type);
        let start: u64 = match start_address {
            Some(address) => normalize(self.paging_type, address),
            None => 0,
        };
        let space: u64 = self.paging_type.address_space_size();
        let self_entry = A::PTE::from_word(self.memory.read(self.base, SELF_MAP_INDEX));
        let limit: u64 = if self_entry.get_present_bit() && self_entry.get_next_address().value
            == self.base {
            SELF_MAP_INDEX * level.entry_va_size()
        } else {
            space
        };
        let mut regions: Vec<MappedRegion> = Vec::new();
        let mut va: u64 = start;
        while va < limit
            invariant
                self.wf(),
                limit <= self.spec_paging_type().space(),
                space == self.spec_paging_type().space(),
                level.depth() == self.spec_paging_type().levels(),
                regions@ + self.regions_from::<A>(va as int, limit as int) == self.regions_from::<
                    A,
                >(start as int, limit as int),
            decreases
                    if va < limit {
                        limit - va
                    } else {
                        0
                    },
        {
            let found = self.lookup::<A>(self.base, level, 0, va);
            let ghost before = regions@;
            proof {
                lemma_extent::<A::PTE>(
                    self.frames(),
                    self.root(),
                    level.depth(),
                    0,
                    va as int,
                );
                assert(found.spec_effective() == self.status_at::<A>(va as int));
            }
            let next: u64 = found.low + found.size;
            if let Some(mapping) = found.mapping {
                let region = MappedRegion {
                    va: canonical_form(arch, self.paging_type, found.low),
                    pa: mapping.0,
                    size: found.size,
                    attributes: mapping.1.union(found.restrictions),
                };
                assert(region == self.region_at::<A>(va as int));
                regions.push(region);
                assert(before + (seq![region] + self.regions_from::<A>(next as int, limit as int))
                    =~= regions@ + self.regions_from::<A>(next as int, limit as int));
            }
            va = next;
        }
        assert(regions@ + self.regions_from::<A>(va as int, limit as int) =~= regions@);
        regions
    }
}

/// One entry in use, as listed by a dump.
#[derive(Clone, Copy, Debug, PartialEq, Eq, Structural)]
pub struct DumpEntry {
    /// The first address that the entry covers, in canonical form.
    pub va: u64,
    /// The level of the table that holds the entry.
    pub level: PageLevel,
    /// The word that the entry is stored as.
    pub word: u64,
}

/// The level at depth `n`.
pub open spec fn level_at(n: nat) -> PageLevel {
    if n == 5 {
        PageLevel::Level5
    } else if n == 4 {
        PageLevel::Level4
    } else if n == 3 {
        PageLevel::Level3
    } else if n == 2 {
        PageLevel::Level2
    } else {
        PageLevel::Level1
    }
}

/// The entries in use that cover addresses from `start` up to `end`, in the table in `page`
/// from entry `i` on, each followed by those of the table it points to. With `sign_extends`, the
/// bits of an address above the address space repeat its highest bit.
pub open spec fn dump_of<E: PageTableEntry>(
    frames: Frames,
    page: u64,
    n: nat,
    base: int,
    i: int,
    start: int,
    end: int,
    paging_type: PagingType,
    sign_extends: bool,
) -> Seq<DumpEntry>
    decreases n, 512 - i,
{
    if n == 0 || i >= 512 {
        Seq::empty()
    } else {
        let low = entry_base(n, base, i);
        let word = word_at(frames, page, i);
        let own = if start < low + entry_size(n) && low < end && E::present(word) {
            let item = DumpEntry {
                va: canonical_va(low, paging_type, sign_extends) as u64,
                level: level_at(n),
                word,
            };
            seq![item] + if points_to_table::<E>(word, n) {
                dump_of::<E>(
                    frames,
                    E::next_address(word),
                    (n - 1) as nat,
                    low,
                    0,
                    start,
                    end,
                    paging_type,
                    sign_extends,
                )
            } else {
                Seq::empty()
            }
        } else {
            Seq::empty()
        };
        own + dump_of::<E>(
            frames,
            page,
            n,
            base,
            i + 1,
            start,
            end,
            paging_type,
            sign_extends,
        )
    }
}

impl<P: PageAllocator> PageTableInternal<P> {
    /// Appends the entries in use of a table, and of the tables below.
    fn dump_level<A: PageTableHal>(
        &self,
        arch: &A,
        page: u64,
        level: PageLevel,
        base: u64,
        start: u64,
        end: u64,
        entries: &mut Vec<DumpEntry>,
    )
        requires
            self.wf(),
            base + table_size(level.depth()) <= self.spec_paging_type().space(),
        ensures
            final(entries)@ == old(entries)@ + dump_of::<A::PTE>(
                self.frames(),
                page,
                level.depth(),
                base as int,
                0,
                start as int,
                end as int,
                self.spec_paging_type(),
                A::spec_sign_extends(),
            ),
        decreases level.depth(),
    {
        let ghost n = level.depth();
        let size: u64 = level.entry_va_size();
        let mut index: u64 = 0;
        let mut low: u64 = base;
        while index < 512
            invariant
                self.wf(),
                n == level.depth(),
                size == entry_size(n),
                index <= 512,
                low == entry_base(n, base as int, index as int),
                base + table_size(n) <= self.spec_paging_type().space(),
                entries@ + dump_of::<A::PTE>(
                    self.frames(),
                    page,
                    n,
                    base as int,
                    index as int,
                    start as int,
                    end as int,
                    self.spec_paging_type(),
                    A::spec_sign_extends(),
                ) == old(entries)@ + dump_of::<A::PTE>(
                    self.frames(),
                    page,
                    n,
                    base as int,
                    0,
                    start as int,
                    end as int,
                    self.spec_paging_type(),
                    A::spec_sign_extends(),
                ),
            decreases 512 - index,
        {
            let ghost before = entries@;
            let ghost rest = dump_of::<A::PTE>(
                self.frames(),
                page,
                n,
                base as int,
                index + 1,
                start as int,
                end as int,
                self.spec_paging_type(),
                A::spec_sign_extends(),
            );
            let word: u64 = self.memory.read(page, index);
            let entry = A::PTE::from_word(word);
            proof {
                A::PTE::lemma_word(word);
                lemma_entry_within(n, base as int, index as int);
            }
            if start < low + size && low < end && entry.get_present_bit() {
                let va: u64 = canonical_form(arch, self.paging_type, low);
                entries.push(DumpEntry { va, level, word });
                let ghost pushed = entries@;
                if !entry.points_to_pa(level) {
                    if let Some(below) = level.next_level() {
                        self.dump_level::<A>(
                            arch,
                            entry.get_next_address().value,
                            below,
                            low,
                            start,
                            end,
                            entries,
                        );
                    }
                }
                let ghost below_entries = if points_to_table::<A::PTE>(word, n) {
                    dump_of::<A::PTE>(
                        self.frames(),
                        A::PTE::next_address(word),
                        (n - 1) as nat,
                        low as int,
                        0,
                        start as int,
                        end as int,
                        self.spec_paging_type(),
                        A::spec_sign_extends(),
                    )
                } else {
                    Seq::empty()
                };
                proof {
                    let item = DumpEntry { va, level, word };
                    assert(entries@ =~= before + (seq![item] + below_entries));
                    assert(before + ((seq![item] + below_entries) + rest) =~= entries@ + rest);
                }
            } else {
                assert(before + (Seq::<DumpEntry>::empty() + rest) =~= entries@ + rest);
            }
            index = index + 1;
            low = low + size;
        }
        assert(entries@ + Seq::<DumpEntry>::empty() =~= entries@);
    }

    /// The entries in use that cover addresses from `address` on, each followed by those of
    /// the table it points to.
    pub fn dump_page_tables<A: PageTableHal>(&self, arch: &A, address: u64, size: u64) -> (r: Result<
        Vec<DumpEntry>,
        PtError,
    >)
        requires
            self.wf(),
        ensures
            match range_error(self.spec_paging_type(), address, size) {
                Some(e) => r == Err::<Vec<DumpEntry>, PtError>(e),
                None => {
                    let start = address as int % self.spec_paging_type().space();
                    &&& r matches Ok(entries)
                    &&& entries@ == dump_of::<A::PTE>(
                        self.frames(),
                        self.root(),
                        self.spec_paging_type().levels(),
                        0,
                        0,
                        start,
                        start + size,
                        self.spec_paging_type(),
                        A::spec_sign_extends(),
                    )
                },
            },
    {
        check_range(self.paging_type, address, size)?;
        let start: u64 = normalize(self.paging_type, address);
        let level: PageLevel = PageLevel::root_level(self.paging_type);
        let mut entries: Vec<DumpEntry> = Vec::new();
        self.dump_level::<A>(arch, self.base, level, 0, start, start + size, &mut entries);
        assert(Seq::<DumpEntry>::empty() + entries@ =~= entries@);
        Ok(entries)
    }
}

} // verus!
