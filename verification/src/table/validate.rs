//! The reading of a whole table, to tell whether it is well formed.

use crate::block::BlockIterator;
use crate::error::LsmError;
use crate::key::{key_eq, key_lt, key_order, lemma_key_lt_transitive, KeyOrder};
use crate::run::{Entry, sorted};
use crate::table::{block_ok, SsTable};
use crate::table::iterator::{lemma_block_position, lemma_entry_position, start_of};
use vstd::prelude::*;
use vstd::slice::slice_to_vec;

verus! {

/// A run is sorted when its first `n` entries are, for `n` its length.
proof fn lemma_sorted_take_all(s: Seq<Entry>)
    requires
        sorted(s.take(s.len() as int)),
    ensures
        sorted(s),
{
    assert(s.take(s.len() as int) =~= s);
}

/// A sorted run with one more entry, whose key comes after the last key of
/// the run, is sorted.
proof fn lemma_sorted_take_next(s: Seq<Entry>, n: int)
    requires
        0 <= n < s.len(),
        sorted(s.take(n)),
        n > 0 ==> key_lt(s[n - 1].0, s[n].0),
    ensures
        sorted(s.take(n + 1)),
{
    let t = s.take(n + 1);
    assert forall|i: int, j: int| 0 <= i < j < t.len() implies key_lt(
        #[trigger] t[i].0,
        #[trigger] t[j].0,
    ) by {
        if j < n {
            assert(s.take(n)[i] == t[i] && s.take(n)[j] == t[j]);
        } else if i < n - 1 {
            assert(s.take(n)[i] == t[i] && s.take(n)[n - 1] == t[n - 1]);
            lemma_key_lt_transitive(t[i].0, t[n - 1].0, t[n].0);
        }
    }
}

/// In a sorted run every entry comes before the next.
proof fn lemma_sorted_adjacent(s: Seq<Entry>, n: int)
    requires
        sorted(s),
        0 < n < s.len(),
    ensures
        key_lt(s[n - 1].0, s[n].0),
{
}

impl SsTable {
    /// Reads every block of the table and says whether the table is well
    /// formed: whether every block that the index lists lies in the file,
    /// holds at least one entry and only whole entries with a key, and
    /// starts with the key that the index gives for it; and whether the
    /// keys ascend strictly from the first block to the last.
    pub fn validate(&self) -> (r: Result<(), LsmError>)
        ensures
            r is Ok <==> self.wf(),
            r is Err ==> r->Err_0 == LsmError::Format,
    {
        if self.block_meta_offset as u64 > self.file.size() {
            return Err(LsmError::Format);
        }
        let ghost entries = self.entries();
        let blocks = self.block_metas.len();
        let mut last_key: Vec<u8> = Vec::new();
        let mut seen = false;
        let mut i: usize = 0;
        proof {
            lemma_block_position(self, 0);
            assert(sorted(entries.take(0)));
        }
        while i < blocks
            invariant
                entries == self.entries(),
                blocks == self.metas().len(),
                0 <= self.meta_offset() <= self.bytes().len(),
                i <= blocks,
                forall|b: int|
                    0 <= b < i ==> #[trigger] block_ok(
                        self.bytes(),
                        self.metas(),
                        self.meta_offset(),
                        b,
                    ),
                0 <= start_of(self, i as int) <= entries.len(),
                sorted(entries.take(start_of(self, i as int))),
                seen == (start_of(self, i as int) > 0),
                seen ==> last_key@ == entries[start_of(self, i as int) - 1].0,
            decreases blocks - i,
        {
            let block = match self.read_block(i) {
                Ok(block) => block,
                Err(e) => {
                    assert(!block_ok(self.bytes(), self.metas(), self.meta_offset(), i as int));
                    return Err(e);
                },
            };
            let count = block.offsets.len();
            let ghost here = self.block_entries(i as int);
            let ghost first = start_of(self, i as int);
            proof {
                lemma_block_position(self, i as int);
                lemma_block_position(self, i + 1);
                assert(block.entries() == here);
            }
            if count == 0 {
                assert(!block_ok(self.bytes(), self.metas(), self.meta_offset(), i as int));
                return Err(LsmError::Format);
            }
            let mut iter = BlockIterator::create_and_seek_to_first(block);
            let mut j: usize = 0;
            while j < count
                invariant
                    entries == self.entries(),
                    here == self.block_entries(i as int),
                    here == iter.block().entries(),
                    self.is_block(i as int, iter.block()),
                    self.region_ok(i as int),
                    first == start_of(self, i as int),
                    i < blocks,
                    blocks == self.metas().len(),
                    count == here.len(),
                    count == iter.block().offsets@.len(),
                    count > 0,
                    j <= count,
                    iter.moved_to(j as int),
                    first + count == start_of(self, i + 1),
                    first + count <= entries.len(),
                    forall|e: int|
                        0 <= e < j ==> {
                            &&& (#[trigger] iter.block().entry(e)) is Some
                            &&& iter.block().entry(e).unwrap().0.len() > 0
                        },
                    j > 0 ==> self.metas()[i as int].1 == here[0].0,
                    sorted(entries.take(first + j)),
                    seen == (first + j > 0),
                    seen ==> last_key@ == entries[first + j - 1].0,
                decreases count - j,
            {
                proof {
                    lemma_entry_position(self, i as int, j as int);
                }
                if !iter.is_valid() {
                    proof {
                        // entry j of the block does not parse, or has no key
                        if self.wf() {
                            assert(block_ok(
                                self.bytes(),
                                self.metas(),
                                self.meta_offset(),
                                i as int,
                            ));
                            assert(iter.block().entry(j as int) is Some);
                        }
                    }
                    return Err(LsmError::Format);
                }
                assert(iter.block().entry(j as int) is Some);
                assert(here[j as int] == (iter.key_spec(), iter.value_spec()));
                if j == 0 && !key_eq(iter.key(), self.block_metas[i].first_key.as_slice()) {
                    assert(!block_ok(self.bytes(), self.metas(), self.meta_offset(), i as int));
                    return Err(LsmError::Format);
                }
                if seen && key_order(last_key.as_slice(), iter.key()) != KeyOrder::Less {
                    proof {
                        if sorted(entries) {
                            lemma_sorted_adjacent(entries, first + j);
                        }
                    }
                    return Err(LsmError::Format);
                }
                proof {
                    lemma_sorted_take_next(entries, first + j);
                }
                last_key = slice_to_vec(iter.key());
                seen = true;
                iter.next();
                j += 1;
            }
            proof {
                let r = self.region(i as int);
                let data = crate::block::decoded_data(r);
                let offsets = crate::block::decoded_offsets(r);
                assert(iter.block().data@ == data && iter.block().offsets@ == offsets);
                assert forall|e: int| 0 <= e < offsets.len() implies (
                #[trigger] crate::block::entry_at(data, offsets, e)) is Some
                    && crate::block::entry_at(data, offsets, e).unwrap().0.len() > 0 by {
                    assert(iter.block().entry(e) is Some);
                }
                assert(crate::block::all_parse(data, offsets));
                assert(block_ok(self.bytes(), self.metas(), self.meta_offset(), i as int));
            }
            i += 1;
        }
        proof {
            lemma_block_position(self, blocks as int);
            lemma_sorted_take_all(entries);
        }
        Ok(())
    }
}

} // verus!
