//! The cursor over one block, and the search for a key in a sorted run.

use crate::block::{parse_entry, Block};
use crate::key::{key_lt, key_order, lemma_key_lt_transitive, KeyOrder};
use crate::run::{Entry, lemma_lower_bound_is, lower_bound};
use crate::utils::{two_u8_to_u16, SIZEOF_U16};
use std::sync::Arc;
use vstd::prelude::*;
use vstd::slice::{slice_subrange, slice_to_vec};

verus! {

/// A cursor over the entries of one block, which holds a copy of the entry
/// that it stands on.
pub struct BlockIterator {
    block: Arc<Block>,
    key: Vec<u8>,
    value: Vec<u8>,
    idx: usize,
}

impl BlockIterator {
    /// The block that the cursor walks.
    pub closed spec fn block(&self) -> Block {
        *self.block
    }

    /// The index that the cursor last moved to.
    pub closed spec fn index(&self) -> int {
        self.idx as int
    }

    /// The key that the cursor holds; empty when it stands on no entry.
    pub closed spec fn key_spec(&self) -> Seq<u8> {
        self.key@
    }

    /// The value that the cursor holds.
    pub closed spec fn value_spec(&self) -> Seq<u8> {
        self.value@
    }

    /// The cursor stands on an entry.
    pub open spec fn valid(&self) -> bool {
        self.key_spec().len() > 0
    }

    /// The cursor stands on the `i`-th entry of its block and holds it.
    pub open spec fn positioned(&self, i: int) -> bool {
        &&& self.valid()
        &&& self.index() == i
        &&& self.block().entry(i) == Some((self.key_spec(), self.value_spec()))
    }

    /// The cursor stands on no entry and holds nothing.
    pub open spec fn cleared(&self) -> bool {
        self.key_spec().len() == 0 && self.value_spec().len() == 0
    }

    /// The cursor is past the last entry, for good.
    pub open spec fn finished(&self) -> bool {
        self.cleared() && self.index() == self.block().offsets@.len()
    }

    /// Either the cursor holds the entry at its index, or it holds nothing.
    pub open spec fn inv(&self) -> bool {
        self.positioned(self.index()) || self.cleared()
    }

    /// The cursor has moved to index `i`: it holds the entry there if one
    /// parses with a key, and is finished otherwise.
    pub open spec fn moved_to(&self, i: int) -> bool {
        match self.block().entry(i) {
            Some(e) => if e.0.len() > 0 {
                self.positioned(i)
            } else {
                self.finished()
            },
            None => self.finished(),
        }
    }

    /// The entries from the cursor's own on, or none when it stands on no
    /// entry.
    pub open spec fn remaining(&self) -> Seq<Entry> {
        if self.valid() {
            self.block().entries().skip(self.index())
        } else {
            Seq::empty()
        }
    }

    /// A cursor that has moved to index `i` of a block whose entries all
    /// parse holds entry `i` and has the entries from `i` on yet to give; past
    /// the last entry it holds nothing.
    pub proof fn lemma_moved_to(&self, i: int)
        requires
            self.block().parses(),
            self.moved_to(i),
            0 <= i,
        ensures
            i < self.block().entries().len() ==> {
                &&& self.valid()
                &&& (self.key_spec(), self.value_spec()) == self.block().entries()[i]
                &&& self.remaining() == self.block().entries().skip(i)
            },
            i >= self.block().entries().len() ==> !self.valid() && self.remaining()
                == Seq::<Entry>::empty(),
    {
        if i < self.block().entries().len() {
            assert(self.block().entry(i) is Some);
        }
    }

    /// A cursor that holds an entry of a block whose entries all parse holds
    /// the first of the entries that it has yet to give.
    pub proof fn lemma_current(&self)
        requires
            self.block().parses(),
            self.inv(),
        ensures
            self.valid() == (self.remaining().len() > 0),
            self.valid() ==> self.remaining()[0] == (self.key_spec(), self.value_spec()),
    {
        if self.valid() {
            self.lemma_moved_to(self.index());
        }
    }

    /// A cursor on `block` that stands on no entry yet.
    pub fn new(block: Arc<Block>) -> (it: Self)
        ensures
            it.block() == *block,
            it.cleared(),
            it.index() == 0,
    {
        Self { block, key: Vec::new(), value: Vec::new(), idx: 0 }
    }

    /// A cursor on the first entry of `block`.
    pub fn create_and_seek_to_first(block: Arc<Block>) -> (it: Self)
        ensures
            it.block() == *block,
            it.moved_to(0),
            it.inv(),
            block.parses() ==> it.remaining() == block.entries(),
    {
        let mut iter = Self::new(block);
        iter.seek_to_first();
        iter
    }

    /// A cursor on the first entry of `block` whose key is `key` or comes
    /// after it.
    pub fn create_and_seek_to_key(block: Arc<Block>, key: &[u8]) -> (it: Self)
        ensures
            it.block() == *block,
            it.inv(),
            block.wf() ==> it.moved_to(lower_bound(block.entries(), key@)),
    {
        let mut iter = Self::new(block);
        iter.seek_to_key(key);
        iter
    }

    /// The key of the entry that the cursor stands on.
    pub fn key(&self) -> (k: &[u8])
        ensures
            k@ == self.key_spec(),
    {
        self.key.as_slice()
    }

    /// The value of the entry that the cursor stands on.
    pub fn value(&self) -> (v: &[u8])
        ensures
            v@ == self.value_spec(),
    {
        self.value.as_slice()
    }

    /// Whether the cursor stands on an entry.
    pub fn is_valid(&self) -> (b: bool)
        ensures
            b == self.valid(),
    {
        !self.key.is_empty()
    }

    /// Moves to the first entry of the block.
    pub fn seek_to_first(&mut self)
        ensures
            final(self).block() == old(self).block(),
            final(self).moved_to(0),
            final(self).inv(),
            old(self).block().parses() ==> final(self).remaining() == old(self).block().entries(),
    {
        self.seek_to_idx(0);
        proof {
            if self.block().parses() {
                self.lemma_moved_to(0);
                assert(self.block().entries().skip(0) =~= self.block().entries());
            }
        }
    }

    /// Moves to the entry after the cursor's index. A cursor that is past
    /// the last entry stays there.
    pub fn next(&mut self)
        ensures
            final(self).block() == old(self).block(),
            old(self).index() < old(self).block().offsets@.len() ==> final(self).moved_to(
                old(self).index() + 1,
            ),
            old(self).index() >= old(self).block().offsets@.len() ==> final(self).finished(),
            final(self).inv(),
            old(self).block().parses() && old(self).inv() && old(self).valid()
                ==> final(self).remaining() == old(self).remaining().skip(1),
    {
        proof {
            if self.block().parses() && self.inv() && self.valid() {
                self.lemma_moved_to(self.index());
            }
        }
        if self.idx < self.block.offsets.len() {
            self.seek_to_idx(self.idx + 1);
        } else {
            self.seek_to_idx(self.idx);
        }
        proof {
            if old(self).block().parses() && old(self).inv() && old(self).valid() {
                let i = old(self).index();
                self.lemma_moved_to(i + 1);
                let entries = self.block().entries();
                if i + 1 < entries.len() {
                    assert(entries.skip(i).skip(1) =~= entries.skip(i + 1));
                } else {
                    assert(entries.skip(i).skip(1) =~= Seq::<Entry>::empty());
                }
            }
        }
    }

    /// Moves to the first entry whose key is `key` or comes after it, by
    /// halving the range in which it must lie.
    pub fn seek_to_key(&mut self, key: &[u8])
        ensures
            final(self).block() == old(self).block(),
            final(self).inv(),
            old(self).block().wf() ==> final(self).moved_to(
                lower_bound(old(self).block().entries(), key@),
            ),
    {
        let ghost entries = self.block().entries();
        let ghost good = self.block().wf();
        let n = self.block.offsets.len();
        let mut low: usize = 0;
        let mut high: usize = n;
        while low < high
            invariant
                self.block() == old(self).block(),
                entries == self.block().entries(),
                good == self.block().wf(),
                n == self.block().offsets@.len(),
                low <= high <= n,
                good ==> forall|i: int| 0 <= i < low ==> key_lt(#[trigger] entries[i].0, key@),
                good ==> forall|i: int| high <= i < n ==> key_lt(key@, #[trigger] entries[i].0),
            decreases high - low,
        {
            let mid = low + (high - low) / 2;
            self.seek_to_idx(mid);
            proof {
                if good {
                    assert(self.block().entry(mid as int) is Some);
                    assert(entries[mid as int] == self.block().entry(mid as int).unwrap());
                    assert(self.positioned(mid as int));
                }
            }
            match key_order(self.key(), key) {
                KeyOrder::Greater => {
                    proof {
                        if good {
                            assert forall|i: int| mid <= i < n implies key_lt(
                                key@,
                                #[trigger] entries[i].0,
                            ) by {
                                if i > mid {
                                    lemma_key_lt_transitive(
                                        key@,
                                        entries[mid as int].0,
                                        entries[i].0,
                                    );
                                }
                            }
                        }
                    }
                    high = mid;
                },
                KeyOrder::Less => {
                    proof {
                        if good {
                            assert forall|i: int| 0 <= i < mid + 1 implies key_lt(
                                #[trigger] entries[i].0,
                                key@,
                            ) by {
                                if i < mid {
                                    lemma_key_lt_transitive(
                                        entries[i].0,
                                        entries[mid as int].0,
                                        key@,
                                    );
                                }
                            }
                        }
                    }
                    low = mid + 1;
                },
                KeyOrder::Equal => {
                    proof {
                        if good {
                            assert forall|i: int| 0 <= i < mid implies key_lt(
                                #[trigger] entries[i].0,
                                key@,
                            ) by {}
                            lemma_lower_bound_is(entries, key@, mid as int);
                        }
                    }
                    return ;
                },
            }
        }
        proof {
            if good {
                lemma_lower_bound_is(entries, key@, low as int);
            }
        }
        self.seek_to_idx(low);
    }

    /// Moves to index `idx`: copies the entry there, or clears the cursor
    /// when no entry with a key parses there.
    fn seek_to_idx(&mut self, idx: usize)
        ensures
            final(self).block() == old(self).block(),
            final(self).moved_to(idx as int),
    {
        let n = self.block.offsets.len();
        if idx < n {
            let offset = self.block.offsets[idx] as usize;
            let found = self.seek_to_offset(offset);
            if found && !self.key.is_empty() {
                self.idx = idx;
                return ;
            }
        }
        self.key.clear();
        self.value.clear();
        self.idx = n;
    }

    /// Copies the entry that starts at `offset` into the cursor, if a whole
    /// entry stands there.
    fn seek_to_offset(&mut self, offset: usize) -> (found: bool)
        ensures
            final(self).block() == old(self).block(),
            final(self).index() == old(self).index(),
            found == (parse_entry(old(self).block().data@, offset as int) is Some),
            found ==> parse_entry(old(self).block().data@, offset as int) == Some(
                (final(self).key_spec(), final(self).value_spec()),
            ),
    {
        let len = self.block.data.len();
        if len < SIZEOF_U16 || offset > len - SIZEOF_U16 {
            return false;
        }
        let data = self.block.data.as_slice();
        let key_len = two_u8_to_u16(slice_subrange(data, offset, offset + SIZEOF_U16)) as usize;
        let key_at = offset + SIZEOF_U16;
        if len - key_at < SIZEOF_U16 || key_len > len - key_at - SIZEOF_U16 {
            return false;
        }
        let value_len_at = key_at + key_len;
        let value_len = two_u8_to_u16(
            slice_subrange(data, value_len_at, value_len_at + SIZEOF_U16),
        ) as usize;
        let value_at = value_len_at + SIZEOF_U16;
        if value_len > len - value_at {
            return false;
        }
        let key = slice_to_vec(slice_subrange(data, key_at, value_len_at));
        let value = slice_to_vec(slice_subrange(data, value_at, value_at + value_len));
        self.key = key;
        self.value = value;
        true
    }
}

} // verus!
