//! The cursor over a table, and where the entries of a table stand in its
//! blocks.

use crate::block::{Block, BlockIterator};
use crate::error::LsmError;
use crate::iterators::{rest, StorageIterator};
use crate::key::{
    key_le, key_lt, lemma_key_lt_asymmetric, lemma_key_lt_total, lemma_key_lt_transitive,
};
use crate::run::{Entry, lemma_lower_bound_is, lemma_lower_bound_splits, lower_bound, sorted};
use crate::table::{block_ok, MetaView, SsTable};
use std::sync::Arc;
use vstd::prelude::*;

verus! {

/// The number of entries in the blocks before block `i`.
pub open spec fn start_of(table: &SsTable, i: int) -> int
    decreases i,
{
    if i <= 0 {
        0
    } else {
        start_of(table, i - 1) + table.block_entries(i - 1).len()
    }
}

/// The entries from block `i` on are the entries of the table without those
/// of the blocks before.
pub proof fn lemma_block_position(table: &SsTable, i: int)
    requires
        0 <= i <= table.metas().len(),
    ensures
        0 <= start_of(table, i) <= table.entries().len(),
        table.entries().skip(start_of(table, i)) == table.entries_from(i),
        i == table.metas().len() ==> start_of(table, i) == table.entries().len(),
    decreases i,
{
    if i == 0 {
        assert(table.entries().skip(0) =~= table.entries());
    } else {
        lemma_block_position(table, i - 1);
        let before = table.entries_from(i - 1);
        let block = table.block_entries(i - 1);
        assert(before == block + table.entries_from(i));
        assert(before.skip(block.len() as int) =~= table.entries_from(i));
        assert(table.entries().skip(start_of(table, i - 1)).skip(block.len() as int)
            =~= table.entries().skip(start_of(table, i)));
    }
    if i == table.metas().len() {
        assert(table.entries_from(i) =~= Seq::<Entry>::empty());
    }
}

/// Entry `j` of block `i` stands in the table at the block's start plus `j`.
pub proof fn lemma_entry_position(table: &SsTable, i: int, j: int)
    requires
        0 <= i < table.metas().len(),
        0 <= j < table.block_entries(i).len(),
    ensures
        0 <= start_of(table, i) + j < start_of(table, i + 1) <= table.entries().len(),
        table.entries()[start_of(table, i) + j] == table.block_entries(i)[j],
{
    lemma_block_position(table, i);
    lemma_block_position(table, i + 1);
    let from = table.entries().skip(start_of(table, i));
    assert(from == table.block_entries(i) + table.entries_from(i + 1));
    assert(from[j] == table.block_entries(i)[j]);
}

/// Later blocks start later in the table.
pub proof fn lemma_start_of_ascends(table: &SsTable, i: int, j: int)
    requires
        table.layout_ok(),
        0 <= i <= j <= table.metas().len(),
    ensures
        start_of(table, i) <= start_of(table, j),
        i < j ==> start_of(table, i) < start_of(table, j),
    decreases j - i,
{
    if i < j {
        lemma_start_of_ascends(table, i, j - 1);
        assert(block_ok(table.bytes(), table.metas(), table.meta_offset(), j - 1));
    }
}

/// In a well-formed table the first keys of the index ascend strictly.
pub proof fn lemma_first_keys_sorted(table: &SsTable)
    requires
        table.wf(),
    ensures
        SsTable::first_keys_sorted(table.metas()),
{
    let metas = table.metas();
    assert forall|i: int, j: int| 0 <= i < j < metas.len() implies key_lt(
        #[trigger] metas[i].1,
        #[trigger] metas[j].1,
    ) by {
        assert(block_ok(table.bytes(), metas, table.meta_offset(), i));
        assert(block_ok(table.bytes(), metas, table.meta_offset(), j));
        lemma_entry_position(table, i, 0);
        lemma_entry_position(table, j, 0);
        lemma_start_of_ascends(table, i, j);
    }
}

/// Of sorted first keys, those before the count of leading keys up to `key`
/// are `key` or come before it, and the one at the count comes after.
pub proof fn lemma_leading_le_splits(metas: Seq<MetaView>, key: Seq<u8>)
    requires
        SsTable::first_keys_sorted(metas),
    ensures
        0 <= SsTable::leading_le(metas, key) <= metas.len(),
        forall|i: int| 0 <= i < SsTable::leading_le(metas, key) ==> key_le(#[trigger] metas[i].1, key),
        SsTable::leading_le(metas, key) < metas.len() ==> key_lt(
            key,
            metas[SsTable::leading_le(metas, key)].1,
        ),
    decreases metas.len(),
{
    if metas.len() == 0 {
    } else if !key_le(metas[0].1, key) {
        lemma_key_lt_total(metas[0].1, key);
    } else {
        let t = metas.skip(1);
        assert(SsTable::first_keys_sorted(t)) by {
            assert forall|i: int, j: int| 0 <= i < j < t.len() implies key_lt(
                #[trigger] t[i].1,
                #[trigger] t[j].1,
            ) by {
                assert(t[i] == metas[i + 1] && t[j] == metas[j + 1]);
            }
        }
        lemma_leading_le_splits(t, key);
        assert forall|i: int| 0 <= i < SsTable::leading_le(metas, key) implies key_le(
            #[trigger] metas[i].1,
            key,
        ) by {
            if i > 0 {
                assert(t[i - 1] == metas[i]);
            }
        }
        if SsTable::leading_le(metas, key) < metas.len() {
            assert(t[SsTable::leading_le(t, key)] == metas[SsTable::leading_le(metas, key)]);
        }
    }
}

/// In a well-formed table, the first entry whose key is `key` or comes
/// after it stands in the block that `find_block_idx` names, at the place
/// that a search of that block gives; or, where that block holds no such
/// entry, at the start of the next block.
pub proof fn lemma_seek_position(table: &SsTable, key: Seq<u8>)
    requires
        table.wf(),
        table.metas().len() > 0,
    ensures
        ({
            let b = SsTable::block_idx_of(table.metas(), key);
            let at = lower_bound(table.block_entries(b), key);
            &&& 0 <= b < table.metas().len()
            &&& 0 <= at <= table.block_entries(b).len()
            &&& lower_bound(table.entries(), key) == start_of(table, b) + at
        }),
{
    let metas = table.metas();
    let entries = table.entries();
    lemma_first_keys_sorted(table);
    lemma_leading_le_splits(metas, key);
    let b = SsTable::block_idx_of(metas, key);
    let block = table.block_entries(b);
    let first = start_of(table, b);
    lemma_block_position(table, b);
    lemma_block_position(table, b + 1);
    assert(block_ok(table.bytes(), metas, table.meta_offset(), b));
    assert(sorted(block)) by {
        assert forall|i: int, j: int| 0 <= i < j < block.len() implies key_lt(
            #[trigger] block[i].0,
            #[trigger] block[j].0,
        ) by {
            lemma_entry_position(table, b, i);
            lemma_entry_position(table, b, j);
        }
    }
    lemma_lower_bound_splits(block, key);
    let at = lower_bound(block, key);
    assert forall|p: int| 0 <= p < first + at implies key_lt(#[trigger] entries[p].0, key) by {
        if p < first {
            // an entry of an earlier block comes before the first key of block b
            lemma_entry_position(table, b, 0);
            assert(key_lt(entries[p].0, entries[first].0));
            assert(entries[first].0 == metas[b].1);
            assert(SsTable::leading_le(metas, key) > 0) by {
                if SsTable::leading_le(metas, key) == 0 {
                    lemma_start_of_ascends(table, 0, b);
                }
            }
            assert(key_le(metas[b].1, key));
            if metas[b].1 != key {
                lemma_key_lt_transitive(entries[p].0, metas[b].1, key);
            }
        } else {
            lemma_entry_position(table, b, p - first);
            assert(key_lt(block[p - first].0, key));
        }
    }
    if first + at < entries.len() {
        if at < block.len() {
            lemma_entry_position(table, b, at);
        } else {
            assert(b + 1 < metas.len()) by {
                if b + 1 >= metas.len() {
                    lemma_block_position(table, metas.len() as int);
                }
            }
            assert(block_ok(table.bytes(), metas, table.meta_offset(), b + 1));
            lemma_entry_position(table, b + 1, 0);
            assert(entries[first + at] == table.block_entries(b + 1)[0]);
            if SsTable::leading_le(metas, key) == 0 {
                // the first entry of the first block comes after `key`
                lemma_entry_position(table, b, 0);
                assert(key_lt(key, block[0].0));
                lemma_key_lt_asymmetric(key, block[0].0);
                assert(false);
            }
            assert(key_lt(key, metas[b + 1].1));
        }
    }
    lemma_lower_bound_is(entries, key, first + at);
}

/// A cursor over the entries of a table, block after block.
pub struct SsTableIterator {
    table: Arc<SsTable>,
    block_idx: usize,
    block_iter: BlockIterator,
}

impl SsTableIterator {
    /// The table that the cursor walks.
    pub closed spec fn table(&self) -> SsTable {
        *self.table
    }

    /// A cursor on the first entry of `table`.
    pub fn create_and_seek_to_first(table: Arc<SsTable>) -> (r: Result<Self, LsmError>)
        requires
            table.wf(),
        ensures
            r is Ok,
            r->Ok_0.wf(),
            r->Ok_0.table() == *table,
            r->Ok_0.remaining() == table.entries(),
    {
        let (block_idx, block_iter) = match Self::seek_to_first_inner(&table) {
            Ok(found) => found,
            Err(e) => {
                return Err(e);
            },
        };
        let iter = Self { table, block_idx, block_iter };
        Ok(iter)
    }

    /// Moves to the first entry of the table.
    pub fn seek_to_first(&mut self) -> (r: Result<(), LsmError>)
        requires
            old(self).table().wf(),
        ensures
            r is Ok,
            final(self).wf(),
            final(self).table() == old(self).table(),
            final(self).remaining() == old(self).table().entries(),
    {
        let (block_idx, block_iter) = match Self::seek_to_first_inner(&self.table) {
            Ok(found) => found,
            Err(e) => {
                return Err(e);
            },
        };
        self.block_idx = block_idx;
        self.block_iter = block_iter;
        Ok(())
    }

    /// A cursor on the first entry of `table` whose key is `key` or comes
    /// after it; a cursor that is not valid if there is none.
    pub fn create_and_seek_to_key(table: Arc<SsTable>, key: &[u8]) -> (r: Result<Self, LsmError>)
        requires
            table.wf(),
        ensures
            r is Ok,
            r->Ok_0.wf(),
            r->Ok_0.table() == *table,
            r->Ok_0.remaining() == table.entries().skip(lower_bound(table.entries(), key@)),
    {
        let (block_idx, block_iter) = match Self::seek_to_key_inner(&table, key) {
            Ok(found) => found,
            Err(e) => {
                return Err(e);
            },
        };
        Ok(Self { table, block_idx, block_iter })
    }

    /// Moves to the first entry whose key is `key` or comes after it.
    pub fn seek_to_key(&mut self, key: &[u8]) -> (r: Result<(), LsmError>)
        requires
            old(self).table().wf(),
        ensures
            r is Ok,
            final(self).wf(),
            final(self).table() == old(self).table(),
            final(self).remaining() == old(self).table().entries().skip(
                lower_bound(old(self).table().entries(), key@),
            ),
    {
        let (block_idx, block_iter) = match Self::seek_to_key_inner(&self.table, key) {
            Ok(found) => found,
            Err(e) => {
                return Err(e);
            },
        };
        self.block_idx = block_idx;
        self.block_iter = block_iter;
        Ok(())
    }

    /// The cursor's parts fit the table: the block cursor walks block
    /// `block_idx`, and stands on an entry unless no block comes after.
    pub open spec fn fits(table: &SsTable, block_idx: int, block_iter: BlockIterator) -> bool {
        let m = table.metas().len();
        &&& table.wf()
        &&& block_iter.inv()
        &&& m == 0 ==> block_idx == 0 && !block_iter.valid()
        &&& m > 0 ==> block_idx < m && table.is_block(block_idx, block_iter.block())
        &&& !block_iter.valid() ==> block_idx + 1 >= m && block_iter.index()
            >= block_iter.block().offsets@.len()
    }

    /// What a cursor with these parts has yet to give.
    pub open spec fn remaining_of(table: &SsTable, block_idx: int, block_iter: BlockIterator) -> Seq<
        Entry,
    > {
        block_iter.remaining() + table.entries_from(block_idx + 1)
    }

    /// A block to stand on where the table has none.
    fn no_block() -> (it: BlockIterator)
        ensures
            it.cleared(),
            it.index() == 0,
            it.block().offsets@.len() == 0,
    {
        BlockIterator::new(Arc::new(Block { data: Vec::new(), offsets: Vec::new() }))
    }

    /// A cursor on the first entry of block `block_idx`.
    fn enter_block(table: &Arc<SsTable>, block_idx: usize) -> (r: Result<BlockIterator, LsmError>)
        requires
            table.wf(),
            block_idx < table.metas().len(),
        ensures
            r is Ok,
            Self::fits(&**table, block_idx as int, r->Ok_0),
            Self::remaining_of(&**table, block_idx as int, r->Ok_0) == table.entries_from(
                block_idx as int,
            ),
    {
        assert(block_ok(table.bytes(), table.metas(), table.meta_offset(), block_idx as int));
        let block = match table.read_block_cached(block_idx) {
            Ok(block) => block,
            Err(e) => {
                return Err(e);
            },
        };
        let block_iter = BlockIterator::create_and_seek_to_first(block);
        proof {
            assert(block_iter.block().entry(0) is Some);
            assert(block_iter.block().entries() == table.block_entries(block_idx as int));
            assert(block_iter.remaining() =~= table.block_entries(block_idx as int));
        }
        Ok(block_iter)
    }

    fn seek_to_first_inner(table: &Arc<SsTable>) -> (r: Result<(usize, BlockIterator), LsmError>)
        requires
            table.wf(),
        ensures
            r is Ok,
            Self::fits(&**table, r->Ok_0.0 as int, r->Ok_0.1),
            Self::remaining_of(&**table, r->Ok_0.0 as int, r->Ok_0.1) == table.entries(),
    {
        if table.num_of_blocks() == 0 {
            let block_iter = Self::no_block();
            proof {
                assert(Self::remaining_of(&**table, 0, block_iter) =~= table.entries());
            }
            return Ok((0, block_iter));
        }
        match Self::enter_block(table, 0) {
            Ok(block_iter) => Ok((0, block_iter)),
            Err(e) => Err(e),
        }
    }

    fn seek_to_key_inner(table: &Arc<SsTable>, key: &[u8]) -> (r: Result<
        (usize, BlockIterator),
        LsmError,
    >)
        requires
            table.wf(),
        ensures
            r is Ok,
            Self::fits(&**table, r->Ok_0.0 as int, r->Ok_0.1),
            Self::remaining_of(&**table, r->Ok_0.0 as int, r->Ok_0.1) == table.entries().skip(
                lower_bound(table.entries(), key@),
            ),
    {
        if table.num_of_blocks() == 0 {
            let block_iter = Self::no_block();
            proof {
                assert(table.entries() =~= Seq::<Entry>::empty());
                assert(Self::remaining_of(&**table, 0, block_iter) =~= table.entries().skip(
                    lower_bound(table.entries(), key@),
                ));
            }
            return Ok((0, block_iter));
        }
        proof {
            lemma_first_keys_sorted(&**table);
            lemma_seek_position(&**table, key@);
        }
        let mut block_idx = table.find_block_idx(key);
        assert(block_ok(table.bytes(), table.metas(), table.meta_offset(), block_idx as int));
        let block = match table.read_block_cached(block_idx) {
            Ok(block) => block,
            Err(e) => {
                return Err(e);
            },
        };
        let ghost entries = table.block_entries(block_idx as int);
        proof {
            assert(block.entries() == entries);
            assert(sorted(entries)) by {
                assert forall|i: int, j: int| 0 <= i < j < entries.len() implies key_lt(
                    #[trigger] entries[i].0,
                    #[trigger] entries[j].0,
                ) by {
                    lemma_entry_position(&**table, block_idx as int, i);
                    lemma_entry_position(&**table, block_idx as int, j);
                }
            }
        }
        let mut block_iter = BlockIterator::create_and_seek_to_key(block, key);
        let ghost at = lower_bound(entries, key@);
        proof {
            lemma_block_position(&**table, block_idx as int);
            lemma_block_position(&**table, block_idx + 1);
            if at < entries.len() {
                assert(block_iter.block().entry(at) is Some);
                assert(block_iter.positioned(at));
                assert(table.entries().skip(start_of(&**table, block_idx as int)) == entries
                    + table.entries_from(block_idx + 1));
                assert(Self::remaining_of(&**table, block_idx as int, block_iter)
                    =~= table.entries().skip(start_of(&**table, block_idx as int)).skip(at));
                assert(table.entries().skip(start_of(&**table, block_idx as int)).skip(at)
                    =~= table.entries().skip(start_of(&**table, block_idx as int) + at));
            } else {
                assert(block_iter.finished());
                assert(start_of(&**table, block_idx as int) + at == start_of(
                    &**table,
                    block_idx + 1,
                ));
            }
        }
        // not found in this block: the entry sought is the first of the next
        if !block_iter.is_valid() && block_idx + 1 < table.num_of_blocks() {
            block_idx += 1;
            block_iter = match Self::enter_block(table, block_idx) {
                Ok(block_iter) => block_iter,
                Err(e) => {
                    return Err(e);
                },
            };
        } else if !block_iter.is_valid() {
            proof {
                assert(table.entries_from(block_idx + 1) =~= Seq::<Entry>::empty());
                assert(Self::remaining_of(&**table, block_idx as int, block_iter)
                    =~= Seq::<Entry>::empty());
                lemma_block_position(&**table, table.metas().len() as int);
                assert(table.entries().skip(table.entries().len() as int)
                    =~= Seq::<Entry>::empty());
            }
        }
        Ok((block_idx, block_iter))
    }
}

impl StorageIterator for SsTableIterator {
    closed spec fn wf(&self) -> bool {
        Self::fits(&*self.table, self.block_idx as int, self.block_iter)
    }

    closed spec fn remaining(&self) -> Seq<Entry> {
        Self::remaining_of(&*self.table, self.block_idx as int, self.block_iter)
    }

    open spec fn infallible() -> bool {
        true
    }

    proof fn lemma_remaining_sorted(&self) {
        self.lemma_remaining_is_suffix();
        let entries = self.table.entries();
        let at = choose|at: int| 0 <= at <= entries.len() && self.remaining() == entries.skip(at);
        let r = self.remaining();
        assert forall|i: int, j: int| 0 <= i < j < r.len() implies key_lt(
            #[trigger] r[i].0,
            #[trigger] r[j].0,
        ) by {
            assert(r[i] == entries[at + i] && r[j] == entries[at + j]);
        }
    }

    fn value(&self) -> (v: &[u8]) {
        proof {
            self.lemma_current();
        }
        self.block_iter.value()
    }

    fn key(&self) -> (k: &[u8]) {
        proof {
            self.lemma_current();
        }
        self.block_iter.key()
    }

    fn is_valid(&self) -> (b: bool) {
        proof {
            self.lemma_current();
        }
        self.block_iter.is_valid()
    }

    fn next(&mut self) -> (r: Result<(), LsmError>) {
        proof {
            self.lemma_current();
        }
        let ghost before = self.remaining();
        let ghost block = self.block_iter.block().entries();
        let ghost idx = self.block_iter.index();
        let blocks = self.table.num_of_blocks();
        assert(self.block_idx < blocks || self.block_idx == 0);
        self.block_iter.next();
        proof {
            if before.len() > 0 {
                if idx + 1 < block.len() {
                    assert(self.block_iter.block().entry(idx + 1) is Some);
                    assert(self.block_iter.positioned(idx + 1));
                    assert(self.remaining() =~= rest(before));
                } else {
                    assert(self.block_iter.finished());
                    assert(rest(before) =~= self.table.entries_from(self.block_idx + 1));
                }
            } else {
                assert(self.remaining() =~= rest(before));
            }
        }
        if !self.block_iter.is_valid() && self.block_idx + 1 < blocks {
            self.block_idx += 1;
            self.block_iter = match Self::enter_block(&self.table, self.block_idx) {
                Ok(block_iter) => block_iter,
                Err(e) => {
                    return Err(e);
                },
            };
        } else if !self.block_iter.is_valid() {
            proof {
                assert(self.table.entries_from(self.block_idx + 1) =~= Seq::<Entry>::empty());
                assert(self.remaining() =~= rest(before));
            }
        }
        Ok(())
    }
}

impl SsTableIterator {
    /// The cursor stands on the entry that its block cursor holds, and is
    /// valid exactly when the block cursor is.
    proof fn lemma_current(&self)
        requires
            self.wf(),
        ensures
            self.table.wf(),
            self.block_iter.inv(),
            self.block_idx < self.table.metas().len() || self.block_idx == 0,
            self.block_iter.valid() == (self.remaining().len() > 0),
            self.block_iter.valid() ==> {
                &&& self.remaining()[0] == (self.block_iter.key_spec(), self.block_iter.value_spec())
                &&& self.block_iter.index() < self.block_iter.block().offsets@.len()
                &&& self.block_idx < self.table.metas().len()
                &&& self.block_iter.block().entries() == self.table.block_entries(
                    self.block_idx as int,
                )
                &&& self.block_iter.block().parses()
            },
            !self.block_iter.valid() ==> self.block_iter.index()
                >= self.block_iter.block().offsets@.len(),
    {
        if self.block_iter.valid() {
            let i = self.block_iter.index();
            assert(self.block_iter.positioned(i));
            assert(self.block_iter.block().entry(i) is Some);
            assert(block_ok(
                self.table.bytes(),
                self.table.metas(),
                self.table.meta_offset(),
                self.block_idx as int,
            ));
            assert(self.block_iter.remaining()[0] == self.block_iter.block().entries()[i]);
        } else {
            assert(self.table.entries_from(self.block_idx + 1) =~= Seq::<Entry>::empty());
        }
    }

    /// What the cursor has yet to give is the end of the table's entries.
    proof fn lemma_remaining_is_suffix(&self)
        requires
            self.wf(),
        ensures
            exists|at: int|
                0 <= at <= self.table.entries().len() && self.remaining()
                    == self.table.entries().skip(at),
    {
        self.lemma_current();
        let entries = self.table.entries();
        if self.block_iter.valid() {
            let b = self.block_idx as int;
            let i = self.block_iter.index();
            lemma_block_position(&*self.table, b);
            lemma_block_position(&*self.table, b + 1);
            let at = start_of(&*self.table, b) + i;
            assert(entries.skip(start_of(&*self.table, b)) == self.table.block_entries(b)
                + self.table.entries_from(b + 1));
            assert(self.remaining() =~= entries.skip(start_of(&*self.table, b)).skip(i));
            assert(entries.skip(start_of(&*self.table, b)).skip(i) =~= entries.skip(at));
            assert(0 <= at <= entries.len() && self.remaining() == entries.skip(at));
        } else {
            let at = entries.len() as int;
            assert(self.remaining() =~= entries.skip(at));
            assert(0 <= at <= entries.len() && self.remaining() == entries.skip(at));
        }
    }
}

} // verus!
