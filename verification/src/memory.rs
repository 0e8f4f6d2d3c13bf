//! The memory that holds the tables, and the journal of the changes made to it.
use vstd::prelude::*;
use crate::structs::{MAX_ENTRIES, PageLevel};

verus! {

/// The words of a table without entries.
pub open spec fn zero_words() -> Seq<u64> {
    Seq::new(512, |i: int| 0u64)
}

/// The word at entry `i` of the page at `page`. A page that is not held reads as zero.
pub open spec fn word_at(frames: Map<u64, Seq<u64>>, page: u64, i: int) -> u64 {
    if frames.contains_key(page) {
        frames[page][i]
    } else {
        0
    }
}

/// The words of the page at `page`. A page that is not held reads as zero.
pub open spec fn words_of(frames: Map<u64, Seq<u64>>, page: u64) -> Seq<u64> {
    if frames.contains_key(page) {
        frames[page]
    } else {
        zero_words()
    }
}

/// Whether every held page has as many words as a table.
pub open spec fn whole_pages(frames: Map<u64, Seq<u64>>) -> bool {
    forall|p: u64| #[trigger] frames.contains_key(p) ==> frames[p].len() == 512
}

/// One change to the memory that holds the tables.
#[derive(Clone, Copy, Debug, PartialEq, Eq, Structural)]
pub enum MemoryOp {
    /// All words of `page` become zero.
    ZeroPage { page: u64 },
    /// Entry `index` of the table at `table` becomes `word`. The table is at `level`, and
    /// the entry translates the virtual address `va`.
    WriteEntry { table: u64, index: u64, word: u64, level: PageLevel, va: u64 },
}

impl MemoryOp {
    /// The memory after this change.
    pub open spec fn apply(self, frames: Map<u64, Seq<u64>>) -> Map<u64, Seq<u64>> {
        match self {
            MemoryOp::ZeroPage { page } => frames.insert(page, zero_words()),
            MemoryOp::WriteEntry { table, index, word, level, va } => frames.insert(
                table,
                words_of(frames, table).update(index as int, word),
            ),
        }
    }
}

/// The memory after all changes in `ops`, in order.
pub open spec fn replay(frames: Map<u64, Seq<u64>>, ops: Seq<MemoryOp>) -> Map<u64, Seq<u64>>
    decreases ops.len(),
{
    if ops.len() == 0 {
        frames
    } else {
        ops.last().apply(replay(frames, ops.drop_last()))
    }
}

/// An image of the pages that hold tables.
///
/// Every change is made to the image and noted in a journal. The journal is what has to be
/// carried out on the physical memory, in its order, to bring it up to date with the image.
#[derive(Clone)]
pub struct PageMemory {
    bases: Vec<u64>,
    tables: Vec<Vec<u64>>,
    journal: Vec<MemoryOp>,
    contents: Ghost<Map<u64, Seq<u64>>>,
    origin: Ghost<Map<u64, Seq<u64>>>,
}

impl View for PageMemory {
    type V = Map<u64, Seq<u64>>;

    closed spec fn view(&self) -> Map<u64, Seq<u64>> {
        self.contents@
    }
}

impl PageMemory {
    /// The changes since the journal was last taken.
    pub closed spec fn journal(&self) -> Seq<MemoryOp> {
        self.journal@
    }

    /// The contents when the journal was last taken.
    pub closed spec fn origin(&self) -> Map<u64, Seq<u64>> {
        self.origin@
    }

    /// The pages are held in increasing order, each with as many words as a table has
    /// entries, and the journal accounts for every change.
    pub closed spec fn wf(&self) -> bool {
        &&& self.bases@.len() == self.tables@.len()
        &&& forall|i: int, j: int| 0 <= i < j < self.bases@.len() ==> self.bases@[i] < self.bases@[j]
        &&& forall|i: int|
            #![trigger self.bases@[i]]
            0 <= i < self.bases@.len() ==> self.contents@.contains_key(self.bases@[i])
                && self.tables@[i]@ == self.contents@[self.bases@[i]] && self.tables@[i]@.len()
                == 512
        &&& forall|p: u64| #[trigger]
            self.contents@.contains_key(p) ==> exists|i: int|
                0 <= i < self.bases@.len() && #[trigger] self.bases@[i] == p
        &&& self.contents@ == replay(self.origin@, self.journal@)
    }

    /// Every held page is as long as a table, and the journal leads from the contents at
    /// the time it was last taken to the present ones.
    pub proof fn lemma_wf(&self)
        requires
            self.wf(),
        ensures
            whole_pages(self@),
            self@ == replay(self.origin(), self.journal()),
    {
        assert forall|p: u64| #[trigger] self@.contains_key(p) implies self@[p].len() == 512 by {
            let i = choose|i: int| 0 <= i < self.bases@.len() && #[trigger] self.bases@[i] == p;
            assert(self.tables@[i]@ == self.contents@[self.bases@[i]]);
        }
    }

    /// A memory that holds no page.
    pub fn new() -> (r: Self)
        ensures
            r.wf(),
            r@ == Map::<u64, Seq<u64>>::empty(),
            r.journal() == Seq::<MemoryOp>::empty(),
            r.origin() == Map::<u64, Seq<u64>>::empty(),
    {
        PageMemory {
            bases: Vec::new(),
            tables: Vec::new(),
            journal: Vec::new(),
            contents: Ghost(Map::empty()),
            origin: Ghost(Map::empty()),
        }
    }

    /// The number of held pages below `page`, which is where `page` is or belongs.
    fn position(&self, page: u64) -> (r: usize)
        requires
            self.wf(),
        ensures
            r <= self.bases@.len(),
            forall|i: int| 0 <= i < r ==> self.bases@[i] < page,
            forall|i: int| r <= i < self.bases@.len() ==> page <= self.bases@[i],
            self@.contains_key(page) <==> r < self.bases@.len() && self.bases@[r as int] == page,
    {
        let mut low: usize = 0;
        let mut high: usize = self.bases.len();
        while low < high
            invariant
                self.wf(),
                low <= high <= self.bases@.len(),
                forall|i: int| 0 <= i < low ==> self.bases@[i] < page,
                forall|i: int| high <= i < self.bases@.len() ==> page <= self.bases@[i],
            decreases high - low,
        {
            let mid: usize = low + (high - low) / 2;
            if self.bases[mid] < page {
                low = mid + 1;
            } else {
                high = mid;
            }
        }
        proof {
            if self@.contains_key(page) {
                let i = choose|i: int| 0 <= i < self.bases@.len() && #[trigger] self.bases@[i] == page;
                assert(self.bases@[i] == page);
            }
        }
        low
    }

    /// Whether the page at `page` is held.
    pub fn contains(&self, page: u64) -> (r: bool)
        requires
            self.wf(),
        ensures
            r == self@.contains_key(page),
    {
        let at: usize = self.position(page);
        at < self.bases.len() && self.bases[at] == page
    }

    /// The word at entry `index` of the page at `table`, zero if the page is not held.
    pub fn read(&self, table: u64, index: u64) -> (r: u64)
        requires
            self.wf(),
            index < 512,
        ensures
            r == word_at(self@, table, index as int),
    {
        let at: usize = self.position(table);
        if at < self.bases.len() && self.bases[at] == table {
            self.tables[at][index as usize]
        } else {
            0
        }
    }

    /// Makes `words` the contents of the page at `page`.
    fn put(&mut self, page: u64, words: Vec<u64>, op: MemoryOp)
        requires
            old(self).wf(),
            words@.len() == 512,
            op.apply(old(self)@) == old(self)@.insert(page, words@),
        ensures
            final(self).wf(),
            final(self)@ == old(self)@.insert(page, words@),
            final(self).journal() == old(self).journal().push(op),
            final(self).origin() == old(self).origin(),
    {
        let at: usize = self.position(page);
        let ghost before = *self;
        let ghost after = self.contents@.insert(page, words@);
        if at < self.bases.len() && self.bases[at] == page {
            self.tables[at] = words;
            self.contents = Ghost(after);
            assert forall|p: u64| #[trigger] self.contents@.contains_key(p) implies exists|i: int|
                0 <= i < self.bases@.len() && #[trigger] self.bases@[i] == p by {
                assert(before.contents@.contains_key(p));
            }
        } else {
            self.bases.insert(at, page);
            self.tables.insert(at, words);
            self.contents = Ghost(after);
            assert forall|p: u64| #[trigger] self.contents@.contains_key(p) implies exists|i: int|
                0 <= i < self.bases@.len() && #[trigger] self.bases@[i] == p by {
                if p == page {
                    assert(self.bases@[at as int] == page);
                } else {
                    assert(before.contents@.contains_key(p));
                    let i = choose|i: int|
                        0 <= i < before.bases@.len() && #[trigger] before.bases@[i] == p;
                    if i < at {
                        assert(self.bases@[i] == p);
                    } else {
                        assert(self.bases@[i + 1] == p);
                    }
                }
            }
            assert forall|i: int| #![trigger self.bases@[i]] 0 <= i < self.bases@.len() implies
                self.contents@.contains_key(self.bases@[i])
                && self.tables@[i]@ == self.contents@[self.bases@[i]]
                && self.tables@[i]@.len() == 512 by {
                if i < at {
                    assert(self.bases@[i] == before.bases@[i]);
                } else if i > at {
                    assert(self.bases@[i] == before.bases@[i - 1]);
                }
            }
        }
        self.journal.push(op);
        assert(self.journal@.drop_last() == before.journal@);
    }

    /// Clears the page at `page`.
    pub fn zero_page(&mut self, page: u64)
        requires
            old(self).wf(),
        ensures
            final(self).wf(),
            final(self)@ == old(self)@.insert(page, zero_words()),
            final(self).journal() == old(self).journal().push(MemoryOp::ZeroPage { page }),
            final(self).origin() == old(self).origin(),
    {
        let words: Vec<u64> = vec![0u64; MAX_ENTRIES];
        assert(words@ =~= zero_words());
        self.put(page, words, MemoryOp::ZeroPage { page });
    }

    /// Sets entry `index` of the page at `table` to `word`.
    pub fn write(&mut self, table: u64, index: u64, word: u64, level: PageLevel, va: u64)
        requires
            old(self).wf(),
            index < 512,
        ensures
            final(self).wf(),
            final(self)@ == old(self)@.insert(
                table,
                words_of(old(self)@, table).update(index as int, word),
            ),
            final(self).journal() == old(self).journal().push(
                MemoryOp::WriteEntry { table, index, word, level, va },
            ),
            final(self).origin() == old(self).origin(),
    {
        let op = MemoryOp::WriteEntry { table, index, word, level, va };
        let at: usize = self.position(table);
        if at < self.bases.len() && self.bases[at] == table {
            let ghost before = *self;
            let ghost after = self.contents@.insert(
                table,
                self.contents@[table].update(index as int, word),
            );
            self.tables[at][index as usize] = word;
            self.contents = Ghost(after);
            assert forall|p: u64| #[trigger] self.contents@.contains_key(p) implies exists|i: int|
                0 <= i < self.bases@.len() && #[trigger] self.bases@[i] == p by {
                assert(before.contents@.contains_key(p));
            }
            assert forall|i: int| #![trigger self.bases@[i]] 0 <= i < self.bases@.len() implies
                self.contents@.contains_key(self.bases@[i])
                && self.tables@[i]@ == self.contents@[self.bases@[i]]
                && self.tables@[i]@.len() == 512 by {
                assert(self.bases@[i] == before.bases@[i]);
                if i != at {
                    assert(self.bases@[i] != table);
                    assert(self.tables@[i] == before.tables@[i]);
                }
            }
            self.journal.push(op);
            assert(self.journal@.drop_last() == before.journal@);
            assert(op.apply(before.contents@) == after);
        } else {
            let mut words: Vec<u64> = vec![0u64; MAX_ENTRIES];
            assert(words@ =~= zero_words());
            words[index as usize] = word;
            self.put(table, words, op);
        }
    }

    /// Takes a page of an existing page table into the image.
    pub fn load(&mut self, page: u64, words: Vec<u64>)
        requires
            old(self).wf(),
            old(self).journal().len() == 0,
            words@.len() == 512,
        ensures
            final(self).wf(),
            final(self)@ == old(self)@.insert(page, words@),
            final(self).journal() == old(self).journal(),
            final(self).origin() == final(self)@,
    {
        let ghost before = *self;
        let at: usize = self.position(page);
        let ghost after = self.contents@.insert(page, words@);
        if at < self.bases.len() && self.bases[at] == page {
            self.tables[at] = words;
        } else {
            self.bases.insert(at, page);
            self.tables.insert(at, words);
        }
        self.contents = Ghost(after);
        self.origin = Ghost(after);
        assert forall|i: int| #![trigger self.bases@[i]] 0 <= i < self.bases@.len() implies
            self.contents@.contains_key(self.bases@[i])
            && self.tables@[i]@ == self.contents@[self.bases@[i]]
            && self.tables@[i]@.len() == 512 by {
            if before.contents@.contains_key(page) {
                assert(self.bases@[i] == before.bases@[i]);
            } else if i < at {
                assert(self.bases@[i] == before.bases@[i]);
            } else if i > at {
                assert(self.bases@[i] == before.bases@[i - 1]);
            }
        }
        assert forall|p: u64| #[trigger] self.contents@.contains_key(p) implies exists|i: int|
            0 <= i < self.bases@.len() && #[trigger] self.bases@[i] == p by {
            if p == page {
                assert(self.bases@[at as int] == page);
            } else {
                assert(before.contents@.contains_key(p));
                let i = choose|i: int| 0 <= i < before.bases@.len() && #[trigger] before.bases@[i] == p;
                if before.contents@.contains_key(page) || i < at {
                    assert(self.bases@[i] == p);
                } else {
                    assert(self.bases@[i + 1] == p);
                }
            }
        }
    }

    /// Hands out the changes since the journal was last taken, and starts a new journal.
    pub fn take_journal(&mut self) -> (r: Vec<MemoryOp>)
        requires
            old(self).wf(),
        ensures
            r@ == old(self).journal(),
            old(self)@ == replay(old(self).origin(), r@),
            final(self).wf(),
            final(self)@ == old(self)@,
            final(self).journal() == Seq::<MemoryOp>::empty(),
            final(self).origin() == old(self)@,
    {
        let ghost before = *self;
        let mut taken: Vec<MemoryOp> = Vec::new();
        taken.append(&mut self.journal);
        assert(taken@ =~= before.journal@);
        self.origin = Ghost(self.contents@);
        assert forall|p: u64| #[trigger] self.contents@.contains_key(p) implies exists|i: int|
            0 <= i < self.bases@.len() && #[trigger] self.bases@[i] == p by {
            assert(before.contents@.contains_key(p));
            let i = choose|i: int| 0 <= i < before.bases@.len() && #[trigger] before.bases@[i] == p;
            assert(self.bases@[i] == p);
        }
        assert forall|i: int| #![trigger self.bases@[i]] 0 <= i < self.bases@.len() implies
            self.contents@.contains_key(self.bases@[i])
            && self.tables@[i]@ == self.contents@[self.bases@[i]]
            && self.tables@[i]@.len() == 512 by {
            assert(self.bases@[i] == before.bases@[i]);
        }
        taken
    }
}

} // verus!
