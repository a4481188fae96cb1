//! The store: a memtable that takes the writes, the memtables that wait to
//! be written out, and the tables that were written out, newest last.

pub mod laws;
mod lock;

use crate::error::LsmError;
use crate::iterators::StorageIterator;
use crate::iterators::merge_iterator::{
    all_wf, first_holding, merge_all, sources_of, MergeIterator,
};
use crate::iterators::two_merge_iterator::{merge2, TwoMergeIterator};
use crate::key::key_eq;
use crate::lsm_iterator::{visible, FusedIterator, LsmIterator};
use crate::lsm_storage::laws::lemma_first_holding_concat;
use crate::lsm_storage::lock::{
    hold_flush, new_flush_lock, new_state_lock, read_state, state_mut_of, state_of, write_state,
    ValidState,
};
use crate::mem_table::{
    bound_slice_view, map_bound, range_of, range_start, upsert, MemTable, MemTableIterator,
};
use crate::run::{lookup, lower_bound, sorted, Entry};
use crate::table::{
    new_block_cache, share, BlockCache, SsTable, SsTableBuilder, SsTableIterator,
};
use crate::table::builder::blocks_bytes;
use parking_lot::{Mutex, RwLock};
use std::ops::Bound;
use std::sync::Arc;
use vstd::prelude::*;
use vstd::slice::slice_to_vec;

verus! {

/// The size that the store aims at for the blocks of its tables.
pub const BLOCK_SIZE: usize = 4096;

/// The number of blocks that the cache of a store holds.
pub const BLOCK_CACHE_CAPACITY: u64 = 1 << 20;

/// What a store holds, as contracts speak of it: the entries of each of its
/// parts, each part sorted by key, the parts from the earliest to the latest.
pub struct StoreModel {
    /// The memtable that takes the writes.
    pub memtable: Seq<Entry>,
    /// The memtables that wait to be written out, from earliest to latest.
    pub imm: Seq<Seq<Entry>>,
    /// The tables of level 0, from earliest to latest.
    pub l0: Seq<Seq<Entry>>,
}

/// The end of a sorted run from the first entry whose key is `key` or comes
/// after it.
pub open spec fn from_key(s: Seq<Entry>, key: Seq<u8>) -> Seq<Entry> {
    s.skip(lower_bound(s, key))
}

/// The end of a sorted run from the first entry that is not below the
/// lower bound.
pub open spec fn from_lower(s: Seq<Entry>, lower: Bound<Seq<u8>>) -> Seq<Entry> {
    s.skip(range_start(s, lower))
}

impl StoreModel {
    /// The memtables, the latest first.
    pub open spec fn mem_sources(self) -> Seq<Seq<Entry>> {
        Seq::new(
            1 + self.imm.len(),
            |i: int|
                if i == 0 {
                    self.memtable
                } else {
                    self.imm[self.imm.len() - i]
                },
        )
    }

    /// The tables, the latest first.
    pub open spec fn table_sources(self) -> Seq<Seq<Entry>> {
        Seq::new(self.l0.len(), |i: int| self.l0[self.l0.len() - 1 - i])
    }

    /// The value written last for `key`, wherever it stands; an empty value
    /// where the key was deleted last.
    pub open spec fn latest(self, key: Seq<u8>) -> Option<Seq<u8>> {
        first_holding(self.mem_sources() + self.table_sources(), key)
    }

    /// What `get` returns for `key`: the value written last, unless the key
    /// was never written or was deleted last.
    pub open spec fn get(self, key: Seq<u8>) -> Option<Seq<u8>> {
        match self.latest(key) {
            Some(value) => if value.len() == 0 {
                None
            } else {
                Some(value)
            },
            None => None,
        }
    }

    /// The merge of the tables, each from the first entry on whose key is
    /// `key` or comes after it.
    pub open spec fn tables_from(self, key: Seq<u8>) -> Seq<Entry> {
        merge_all(Seq::new(self.l0.len(), |i: int| from_key(self.table_sources()[i], key)))
    }

    /// What a scan merges on the side of the memtables.
    pub open spec fn mem_merged(self, lower: Bound<Seq<u8>>, upper: Bound<Seq<u8>>) -> Seq<Entry> {
        merge_all(
            Seq::new(
                1 + self.imm.len(),
                |i: int| range_of(self.mem_sources()[i], lower, upper),
            ),
        )
    }

    /// What a scan merges on the side of the tables.
    pub open spec fn table_merged(self, lower: Bound<Seq<u8>>) -> Seq<Entry> {
        merge_all(Seq::new(self.l0.len(), |i: int| from_lower(self.table_sources()[i], lower)))
    }

    /// What a scan between the bounds gives.
    pub open spec fn scan(self, lower: Bound<Seq<u8>>, upper: Bound<Seq<u8>>) -> Seq<Entry> {
        visible(merge2(self.mem_merged(lower, upper), self.table_merged(lower)), upper)
    }

    /// The store after `value` was written for `key`.
    pub open spec fn put(self, key: Seq<u8>, value: Seq<u8>) -> StoreModel {
        StoreModel { memtable: upsert(self.memtable, key, value), imm: self.imm, l0: self.l0 }
    }

    /// The store after its memtable was set aside to be written out.
    pub open spec fn frozen(self) -> StoreModel {
        StoreModel { memtable: Seq::empty(), imm: self.imm.push(self.memtable), l0: self.l0 }
    }

    /// The entries of the memtable that is the next to be written out: the
    /// earliest of those that wait, or the memtable that takes the writes
    /// where none waits.
    pub open spec fn next_out(self) -> Seq<Entry> {
        if self.imm.len() > 0 {
            self.imm[0]
        } else {
            self.memtable
        }
    }

    /// The store after a `sync`: the memtable is set aside, and the
    /// earliest of the waiting memtables is written out as a table.
    pub open spec fn synced(self) -> StoreModel {
        self.frozen().installed(self.next_out())
    }

    /// The store after the earliest of the waiting memtables was written
    /// out as a table with the entries `table`.
    pub open spec fn installed(self, table: Seq<Entry>) -> StoreModel {
        StoreModel {
            memtable: self.memtable,
            imm: if self.imm.len() > 0 {
                self.imm.skip(1)
            } else {
                self.imm
            },
            l0: self.l0.push(table),
        }
    }
}

/// Where no run before place `at` holds the key, the first run that holds
/// it is the first from `at` on.
pub proof fn lemma_first_holding_from(sources: Seq<Seq<Entry>>, key: Seq<u8>, at: int)
    requires
        0 <= at <= sources.len(),
        forall|i: int| 0 <= i < at ==> lookup(#[trigger] sources[i], key) is None,
    ensures
        first_holding(sources, key) == first_holding(sources.skip(at), key),
    decreases at,
{
    if at == 0 {
        assert(sources.skip(0) =~= sources);
    } else {
        let t = sources.skip(1);
        assert forall|i: int| 0 <= i < at - 1 implies lookup(#[trigger] t[i], key) is None by {
            assert(t[i] == sources[i + 1]);
        }
        lemma_first_holding_from(t, key, at - 1);
        assert(t.skip(at - 1) =~= sources.skip(at));
    }
}

/// The state of the store at one moment: which memtable takes the writes,
/// which memtables wait to be written out, and which tables there are.
pub struct LsmStorageInner {
    /// The current memtable.
    memtable: MemTable,
    /// Immutable memtables, from earliest to latest.
    imm_memtables: Vec<Arc<MemTable>>,
    /// L0 tables, from earliest to latest.
    l0_sstables: Vec<Arc<SsTable>>,
    /// The tables of the levels below, sorted by key range. The store does
    /// not fill them yet.
    levels: Vec<Vec<Arc<SsTable>>>,
    /// The id of the next table.
    next_sst_id: usize,
}

impl LsmStorageInner {
    /// What the store holds.
    pub closed spec fn view(&self) -> StoreModel {
        StoreModel {
            memtable: self.memtable.entries(),
            imm: Seq::new(self.imm_memtables@.len(), |i: int| self.imm_memtables@[i].entries()),
            l0: Seq::new(self.l0_sstables@.len(), |i: int| self.l0_sstables@[i].entries()),
        }
    }

    /// The id that the next table gets.
    pub closed spec fn next_id(&self) -> usize {
        self.next_sst_id
    }

    /// Every memtable and every table of the store is well formed.
    pub closed spec fn wf(&self) -> bool {
        &&& self.memtable.wf()
        &&& forall|i: int|
            0 <= i < self.imm_memtables@.len() ==> (#[trigger] self.imm_memtables@[i]).wf()
        &&& forall|i: int| 0 <= i < self.l0_sstables@.len() ==> (#[trigger] self.l0_sstables@[i]).wf()
    }

    /// Every part of a well-formed store is sorted by key.
    pub proof fn lemma_wf_sorted(&self)
        requires
            self.wf(),
        ensures
            self@.parts_sorted(),
    {
        assert forall|i: int| 0 <= i < self@.imm.len() implies sorted(#[trigger] self@.imm[i]) by {
            assert(self.imm_memtables@[i].wf());
        }
        assert forall|i: int| 0 <= i < self@.l0.len() implies sorted(#[trigger] self@.l0[i]) by {
            assert(self.l0_sstables@[i].wf());
        }
    }

    /// An empty store, whose first table will have the id 1.
    pub fn create() -> (s: Self)
        ensures
            s.wf(),
            s@.memtable == Seq::<Entry>::empty(),
            s@.imm == Seq::<Seq<Entry>>::empty(),
            s@.l0 == Seq::<Seq<Entry>>::empty(),
            s.next_id() == 1,
    {
        let s = Self {
            memtable: MemTable::create(),
            imm_memtables: Vec::new(),
            l0_sstables: Vec::new(),
            levels: Vec::new(),
            next_sst_id: 1,
        };
        assert(s@.imm =~= Seq::<Seq<Entry>>::empty());
        assert(s@.l0 =~= Seq::<Seq<Entry>>::empty());
        s
    }

    /// Looks `key` up: in the memtable, then in the waiting memtables from
    /// the latest to the earliest, then in the tables. An empty value found
    /// in a memtable says that the key was deleted.
    pub fn get(&self, key: &[u8]) -> (r: Result<Option<Vec<u8>>, LsmError>)
        requires
            self.wf(),
        ensures
            r is Ok,
            match r->Ok_0 {
                Some(value) => self@.get(key@) == Some(value@),
                None => self@.get(key@) is None,
            },
    {
        let ghost sources = self@.mem_sources();
        proof {
            lemma_first_holding_concat(sources, self@.table_sources(), key@);
        }
        // Search on the current memtable.
        if let Some(value) = self.memtable.get(key) {
            if value.is_empty() {
                // a tombstone: the key does not exist
                return Ok(None);
            }
            return Ok(Some(value));
        }
        // Search on immutable memtables, the latest first.
        let n = self.imm_memtables.len();
        let mut i: usize = n;
        while i > 0
            invariant
                self.wf(),
                sources == self@.mem_sources(),
                n == self.imm_memtables@.len(),
                i <= n,
                forall|j: int| 0 <= j < 1 + n - i ==> lookup(#[trigger] sources[j], key@) is None,
            decreases i,
        {
            i -= 1;
            let ghost at = n - i;
            assert(sources[at] == self.imm_memtables@[i as int].entries());
            if let Some(value) = self.imm_memtables[i].get(key) {
                proof {
                    lemma_first_holding_from(sources, key@, at);
                    assert(sources.skip(at)[0] == sources[at]);
                    lemma_first_holding_concat(sources, self@.table_sources(), key@);
                }
                if value.is_empty() {
                    return Ok(None);
                }
                return Ok(Some(value));
            }
        }
        proof {
            lemma_first_holding_from(sources, key@, sources.len() as int);
        }
        // Search on the tables, the latest first.
        let ghost tables = self@.table_sources();
        let m = self.l0_sstables.len();
        let mut iters: Vec<Box<SsTableIterator>> = Vec::new();
        let mut i: usize = m;
        while i > 0
            invariant
                self.wf(),
                tables == self@.table_sources(),
                m == self.l0_sstables@.len(),
                i <= m,
                iters@.len() == m - i,
                all_wf(iters@),
                forall|j: int|
                    0 <= j < m - i ==> (#[trigger] iters@[j]).remaining() == from_key(
                        tables[j],
                        key@,
                    ),
            decreases i,
        {
            i -= 1;
            assert(tables[m - 1 - i] == self.l0_sstables@[i as int].entries());
            let iter = match SsTableIterator::create_and_seek_to_key(
                share(&self.l0_sstables[i]),
                key,
            ) {
                Ok(iter) => iter,
                Err(e) => {
                    return Err(e);
                },
            };
            iters.push(Box::new(iter));
        }
        assert(sources_of(iters@) =~= Seq::new(
            self@.l0.len(),
            |i: int| from_key(self@.table_sources()[i], key@),
        ));
        proof {
            self.lemma_wf_sorted();
            self@.lemma_tables_head(key@);
            lemma_first_holding_concat(sources, tables, key@);
        }
        let merge_iter = MergeIterator::create(iters);
        // The tables hold the key only if the merge starts with it, and an
        // empty value there says that the key was deleted.
        if merge_iter.is_valid() && key_eq(merge_iter.key(), key) && !merge_iter.value().is_empty() {
            return Ok(Some(slice_to_vec(merge_iter.value())));
        }
        Ok(None)
    }

    /// Writes `value` for `key` into the memtable.
    pub fn put(&mut self, key: &[u8], value: &[u8])
        requires
            old(self).wf(),
            0 < key@.len() <= 65535,
            0 < value@.len() <= 65535,
        ensures
            final(self).wf(),
            final(self)@ == old(self)@.put(key@, value@),
            final(self).next_id() == old(self).next_id(),
    {
        self.memtable.put(key, value);
        assert(self@.imm =~= old(self)@.imm);
        assert(self@.l0 =~= old(self)@.l0);
    }

    /// Deletes `key`, by writing an empty value for it.
    pub fn delete(&mut self, key: &[u8])
        requires
            old(self).wf(),
            0 < key@.len() <= 65535,
        ensures
            final(self).wf(),
            final(self)@ == old(self)@.put(key@, Seq::<u8>::empty()),
            final(self).next_id() == old(self).next_id(),
    {
        let nothing: Vec<u8> = Vec::new();
        self.memtable.put(key, nothing.as_slice());
        assert(self@.imm =~= old(self)@.imm);
        assert(self@.l0 =~= old(self)@.l0);
    }

    /// A cursor over the entries between the bounds, without the deleted
    /// ones: the merge of the memtables, the latest first, before the merge
    /// of the tables, the latest first.
    pub fn scan(&self, lower: Bound<&[u8]>, upper: Bound<&[u8]>) -> (r: Result<
        FusedIterator<LsmIterator>,
        LsmError,
    >)
        requires
            self.wf(),
        ensures
            r is Ok,
            r->Ok_0.wf(),
            r->Ok_0.remaining() == self@.scan(bound_slice_view(lower), bound_slice_view(upper)),
    {
        let ghost low = bound_slice_view(lower);
        let ghost up = bound_slice_view(upper);
        let ghost sources = self@.mem_sources();
        // the memtables
        let mut memtable_iters: Vec<Box<MemTableIterator>> = Vec::new();
        memtable_iters.push(Box::new(self.memtable.scan(lower, upper)));
        let n = self.imm_memtables.len();
        let mut i: usize = n;
        while i > 0
            invariant
                self.wf(),
                sources == self@.mem_sources(),
                low == bound_slice_view(lower),
                up == bound_slice_view(upper),
                n == self.imm_memtables@.len(),
                i <= n,
                memtable_iters@.len() == 1 + n - i,
                all_wf(memtable_iters@),
                forall|j: int|
                    0 <= j < 1 + n - i ==> (#[trigger] memtable_iters@[j]).remaining() == range_of(
                        sources[j],
                        low,
                        up,
                    ),
            decreases i,
        {
            i -= 1;
            assert(sources[n - i] == self.imm_memtables@[i as int].entries());
            memtable_iters.push(Box::new(self.imm_memtables[i].scan(lower, upper)));
        }
        assert(sources_of(memtable_iters@) =~= Seq::new(
            1 + self@.imm.len(),
            |i: int| range_of(self@.mem_sources()[i], low, up),
        ));
        let memtable_merge_iter = MergeIterator::create(memtable_iters);
        // the tables
        let ghost tables = self@.table_sources();
        let m = self.l0_sstables.len();
        let mut table_iters: Vec<Box<SsTableIterator>> = Vec::new();
        let mut i: usize = m;
        while i > 0
            invariant
                self.wf(),
                tables == self@.table_sources(),
                low == bound_slice_view(lower),
                m == self.l0_sstables@.len(),
                i <= m,
                table_iters@.len() == m - i,
                all_wf(table_iters@),
                forall|j: int|
                    0 <= j < m - i ==> (#[trigger] table_iters@[j]).remaining() == from_lower(
                        tables[j],
                        low,
                    ),
            decreases i,
        {
            i -= 1;
            assert(tables[m - 1 - i] == self.l0_sstables@[i as int].entries());
            let table = share(&self.l0_sstables[i]);
            let iter = match Self::seek_lower(table, lower) {
                Ok(iter) => iter,
                Err(e) => {
                    return Err(e);
                },
            };
            table_iters.push(Box::new(iter));
        }
        assert(sources_of(table_iters@) =~= Seq::new(
            self@.l0.len(),
            |i: int| from_lower(self@.table_sources()[i], low),
        ));
        let table_merge_iter = MergeIterator::create(table_iters);
        let iter = match TwoMergeIterator::create(memtable_merge_iter, table_merge_iter) {
            Ok(iter) => iter,
            Err(e) => {
                return Err(e);
            },
        };
        let iter = match LsmIterator::new(iter, map_bound(upper)) {
            Ok(iter) => iter,
            Err(e) => {
                return Err(e);
            },
        };
        Ok(FusedIterator::new(iter))
    }

    /// A cursor on the first entry of `table` that is not below the lower
    /// bound.
    fn seek_lower(table: Arc<SsTable>, lower: Bound<&[u8]>) -> (r: Result<
        SsTableIterator,
        LsmError,
    >)
        requires
            table.wf(),
        ensures
            r is Ok,
            r->Ok_0.wf(),
            r->Ok_0.remaining() == from_lower(table.entries(), bound_slice_view(lower)),
    {
        let ghost entries = table.entries();
        match lower {
            Bound::Included(key) => SsTableIterator::create_and_seek_to_key(table, key),
            Bound::Excluded(key) => {
                let mut iter = match SsTableIterator::create_and_seek_to_key(table, key) {
                    Ok(iter) => iter,
                    Err(e) => {
                        return Err(e);
                    },
                };
                proof {
                    crate::run::lemma_lower_bound_splits(entries, key@);
                }
                let ghost at = lower_bound(entries, key@);
                if iter.is_valid() && key_eq(iter.key(), key) {
                    assert(entries.skip(at)[0] == entries[at]);
                    match iter.next() {
                        Err(e) => {
                            return Err(e);
                        },
                        Ok(()) => {},
                    }
                    assert(entries.skip(at).skip(1) =~= entries.skip(at + 1));
                } else {
                    proof {
                        if at < entries.len() {
                            assert(entries.skip(at)[0] == entries[at]);
                        }
                    }
                }
                Ok(iter)
            },
            Bound::Unbounded => {
                assert(entries.skip(0) =~= entries);
                SsTableIterator::create_and_seek_to_first(table)
            },
        }
    }

    /// Builds the table of a memtable. Fails when the table would take more
    /// bytes than an offset of 32 bits can address.
    pub fn build_table(
        memtable: &MemTable,
        id: usize,
        block_cache: Option<Arc<BlockCache>>,
        path: &str,
    ) -> (r: Result<SsTable, LsmError>)
        requires
            memtable.wf(),
        ensures
            r is Ok <==> blocks_bytes(memtable.entries(), BLOCK_SIZE as int) <= u32::MAX,
            r is Err ==> r->Err_0 == LsmError::TooLarge,
            r is Ok ==> {
                &&& r->Ok_0.wf()
                &&& r->Ok_0.entries() == memtable.entries()
                &&& r->Ok_0.id() == id
                &&& r->Ok_0.cached() == (block_cache is Some)
            },
    {
        let mut builder = SsTableBuilder::new(BLOCK_SIZE);
        match memtable.flush(&mut builder) {
            Ok(()) => {},
            Err(e) => {
                return Err(e);
            },
        }
        assert(builder.entries() =~= memtable.entries());
        builder.build(id, block_cache, path)
    }

    /// Writes a memtable out as a table of level 0: sets the memtable
    /// aside, builds a table for the file at `path` from the earliest of the
    /// memtables that wait, which is the one set aside unless an earlier
    /// `sync` failed, and puts the table in the place of that memtable.
    /// Fails when the table would take more bytes than an offset of 32 bits
    /// can address, or when there is no id left for the next table; the
    /// memtable then stays set aside, and what the store holds for a key
    /// stays the same.
    pub fn sync(&mut self, block_cache: Option<Arc<BlockCache>>, path: &str) -> (r: Result<
        (),
        LsmError,
    >)
        requires
            old(self).wf(),
        ensures
            final(self).wf(),
            r is Ok <==> blocks_bytes(old(self)@.next_out(), BLOCK_SIZE as int) <= u32::MAX
                && old(self).next_id() < usize::MAX,
            r is Ok ==> final(self)@ == old(self)@.synced(),
            r is Ok ==> final(self).next_id() == old(self).next_id() + 1,
            r is Err ==> final(self)@ == old(self)@.frozen() && r->Err_0 == LsmError::TooLarge,
            r is Err ==> final(self).next_id() == old(self).next_id(),
    {
        // Move the memtable to the immutable memtables.
        let (flush_memtable, sst_id) = self.freeze();
        // Writes go to the new memtable now; the earliest can be written out.
        let table = match Self::build_table(&flush_memtable, sst_id, block_cache, path) {
            Ok(table) => table,
            Err(e) => {
                return Err(e);
            },
        };
        // Add the table to level 0.
        self.install(Arc::new(table))
    }

    /// Sets the memtable aside to be written out, and puts an empty one in
    /// its place. Returns the earliest of the memtables that wait, which is
    /// the next to be written out, and the id for its table.
    pub fn freeze(&mut self) -> (r: (Arc<MemTable>, usize))
        requires
            old(self).wf(),
        ensures
            final(self).wf(),
            final(self)@ == old(self)@.frozen(),
            final(self).next_id() == old(self).next_id(),
            r.0.wf(),
            r.0.entries() == old(self)@.next_out(),
            r.1 == old(self).next_id(),
    {
        let mut memtable = MemTable::create();
        std::mem::swap(&mut self.memtable, &mut memtable);
        let sst_id = self.next_sst_id;
        self.imm_memtables.push(Arc::new(memtable));
        proof {
            assert(self@.imm =~= old(self)@.imm.push(old(self)@.memtable));
            assert(self@.l0 =~= old(self)@.l0);
            assert(self@.imm[0] == self.imm_memtables@[0].entries());
        }
        let flush_memtable = share(&self.imm_memtables[0]);
        (flush_memtable, sst_id)
    }

    /// Takes the earliest of the waiting memtables off the list, puts
    /// `table` behind the tables, and moves on to the next id. Fails, and
    /// changes nothing, when there is no next id.
    pub fn install(&mut self, table: Arc<SsTable>) -> (r: Result<(), LsmError>)
        requires
            old(self).wf(),
            table.wf(),
        ensures
            final(self).wf(),
            r is Ok <==> old(self).next_id() < usize::MAX,
            r is Ok ==> final(self)@ == old(self)@.installed(table.entries()),
            r is Ok ==> final(self).next_id() == old(self).next_id() + 1,
            r is Err ==> final(self)@ == old(self)@ && final(self).next_id() == old(self).next_id()
                && r->Err_0 == LsmError::TooLarge,
    {
        if self.next_sst_id == usize::MAX {
            return Err(LsmError::TooLarge);
        }
        // Remove the memtable from the immutable memtables.
        if self.imm_memtables.len() > 0 {
            let _ = self.imm_memtables.remove(0);
        }
        // Add the table to level 0.
        self.l0_sstables.push(table);
        self.next_sst_id += 1;
        proof {
            assert(self@.imm =~= old(self)@.installed(table.entries()).imm);
            assert(self@.l0 =~= old(self)@.installed(table.entries()).l0);
        }
        Ok(())
    }
}

/// The decimal digit for a number below ten.
pub open spec fn digit(d: int) -> char {
    (48 + d) as char
}

/// A number in decimal digits.
pub open spec fn decimal(n: nat) -> Seq<char>
    decreases n,
{
    if n < 10 {
        seq![digit(n as int)]
    } else {
        decimal(n / 10).push(digit((n % 10) as int))
    }
}

/// A number in decimal digits, with zeros in front up to five digits.
pub open spec fn padded(n: nat) -> Seq<char> {
    if decimal(n).len() < 5 {
        Seq::new((5 - decimal(n).len()) as nat, |i: int| '0') + decimal(n)
    } else {
        decimal(n)
    }
}

/// The path of the file of table `id` in the directory `dir`.
pub open spec fn sst_path(dir: Seq<char>, id: nat) -> Seq<char> {
    dir + seq!['/'] + padded(id) + seq!['.', 's', 's', 't']
}

/// `format!`: the directory, a slash, the id in decimal digits with zeros
/// in front up to five digits, and the ending `.sst`.
#[verifier::external_body]
fn format_sst_path(dir: &str, id: usize) -> (path: String)
    ensures
        path@ == sst_path(dir@, id as nat),
{
    format!("{}/{:05}.sst", dir, id)
}

/// The storage engine, which threads share: the state of the store behind a
/// lock, the lock that lets one thread at a time write a memtable out, the
/// directory of the tables, and the cache of their blocks.
///
/// A thread that reads holds the lock of the state for reading while it
/// reads; a thread that writes holds it for writing while it changes the
/// memtable. `sync` lets one thread at a time write a memtable out. That
/// thread holds the lock of the state only to set the memtable aside and,
/// later, to put the table in: while it builds the table, other threads read
/// and write.
pub struct LsmStorage {
    inner: RwLock<ValidState>,
    flush_lock: Mutex<()>,
    path: String,
    block_cache: Arc<BlockCache>,
}

impl LsmStorage {
    /// The directory of the store's tables.
    pub closed spec fn dir(&self) -> Seq<char> {
        self.path@
    }

    /// An empty store whose tables belong in the directory `path`.
    pub fn open(path: &str) -> (r: Result<Self, LsmError>)
        ensures
            r is Ok,
            r->Ok_0.dir() == path@,
    {
        Ok(
            Self {
                inner: new_state_lock(ValidState::new(LsmStorageInner::create())),
                flush_lock: new_flush_lock(),
                path: path.to_owned(),
                block_cache: Arc::new(new_block_cache(BLOCK_CACHE_CAPACITY)),
            },
        )
    }

    /// Takes the state out of its place, and leaves an empty state there
    /// for the while.
    fn take_state(slot: &mut ValidState) -> (state: LsmStorageInner)
        ensures
            state.wf(),
            state == old(slot).inner(),
            final(slot).inner()@.memtable == Seq::<Entry>::empty(),
            final(slot).inner()@.imm == Seq::<Seq<Entry>>::empty(),
            final(slot).inner()@.l0 == Seq::<Seq<Entry>>::empty(),
    {
        let mut taken = ValidState::new(LsmStorageInner::create());
        std::mem::swap(slot, &mut taken);
        taken.into_inner()
    }

    /// Puts a state into the place of the state.
    fn put_state(slot: &mut ValidState, state: LsmStorageInner)
        requires
            state.wf(),
        ensures
            final(slot).inner() == state,
    {
        let mut next = ValidState::new(state);
        std::mem::swap(slot, &mut next);
    }

    /// Looks `key` up in the state that a thread found behind the lock.
    fn get_at(found: &ValidState, key: &[u8]) -> (r: Result<Option<Vec<u8>>, LsmError>)
        ensures
            r is Ok,
            match r->Ok_0 {
                Some(value) => found.inner()@.get(key@) == Some(value@),
                None => found.inner()@.get(key@) is None,
            },
    {
        found.get().get(key)
    }

    /// Writes `value` for `key` into the state at `slot`.
    fn put_at(slot: &mut ValidState, key: &[u8], value: &[u8])
        requires
            0 < key@.len() <= 65535,
            0 < value@.len() <= 65535,
        ensures
            final(slot).inner()@ == old(slot).inner()@.put(key@, value@),
            final(slot).inner().next_id() == old(slot).inner().next_id(),
    {
        let mut state = Self::take_state(slot);
        state.put(key, value);
        Self::put_state(slot, state);
    }

    /// Deletes `key` in the state at `slot`, by writing an empty value for
    /// it.
    fn delete_at(slot: &mut ValidState, key: &[u8])
        requires
            0 < key@.len() <= 65535,
        ensures
            final(slot).inner()@ == old(slot).inner()@.put(key@, Seq::<u8>::empty()),
            final(slot).inner().next_id() == old(slot).inner().next_id(),
    {
        let mut state = Self::take_state(slot);
        state.delete(key);
        Self::put_state(slot, state);
    }

    /// Sets the memtable of the state at `slot` aside to be written out.
    /// Returns the earliest of the memtables that wait and the id for its
    /// table.
    fn freeze_at(slot: &mut ValidState) -> (r: (Arc<MemTable>, usize))
        ensures
            final(slot).inner()@ == old(slot).inner()@.frozen(),
            final(slot).inner().next_id() == old(slot).inner().next_id(),
            r.0.wf(),
            r.0.entries() == old(slot).inner()@.next_out(),
            r.1 == old(slot).inner().next_id(),
    {
        let mut state = Self::take_state(slot);
        let set_aside = state.freeze();
        Self::put_state(slot, state);
        set_aside
    }

    /// Puts `table` behind the tables of the state at `slot`, in the place
    /// of the earliest of the waiting memtables. Fails, and changes nothing,
    /// when there is no id left for the next table.
    fn install_at(slot: &mut ValidState, table: Arc<SsTable>) -> (r: Result<(), LsmError>)
        requires
            table.wf(),
        ensures
            r is Ok <==> old(slot).inner().next_id() < usize::MAX,
            r is Ok ==> final(slot).inner()@ == old(slot).inner()@.installed(table.entries()),
            r is Ok ==> final(slot).inner().next_id() == old(slot).inner().next_id() + 1,
            r is Err ==> final(slot).inner()@ == old(slot).inner()@ && r->Err_0
                == LsmError::TooLarge,
            r is Err ==> final(slot).inner().next_id() == old(slot).inner().next_id(),
    {
        let mut state = Self::take_state(slot);
        let r = state.install(table);
        Self::put_state(slot, state);
        r
    }

    /// A cursor over the entries between the bounds, without the deleted
    /// ones, of the state that a thread found behind the lock.
    fn scan_at(found: &ValidState, lower: Bound<&[u8]>, upper: Bound<&[u8]>) -> (r: Result<
        FusedIterator<LsmIterator>,
        LsmError,
    >)
        ensures
            r is Ok,
            r->Ok_0.wf(),
            r->Ok_0.remaining() == found.inner()@.scan(
                bound_slice_view(lower),
                bound_slice_view(upper),
            ),
    {
        found.get().scan(lower, upper)
    }

    /// Looks `key` up in the state that the store is in when the call gets
    /// to read it: what `get_at` finds in that state. The call always
    /// succeeds.
    pub fn get(&self, key: &[u8]) -> (r: Result<Option<Vec<u8>>, LsmError>)
        ensures
            r is Ok,
    {
        let guard = read_state(&self.inner);
        Self::get_at(state_of(&guard), key)
    }

    /// Writes `value` for `key` into the state that the store is in when
    /// the call gets to write, as `put_at` says. The call always succeeds.
    pub fn put(&self, key: &[u8], value: &[u8]) -> (r: Result<(), LsmError>)
        requires
            0 < key@.len() <= 65535,
            0 < value@.len() <= 65535,
        ensures
            r is Ok,
    {
        let mut guard = write_state(&self.inner);
        Self::put_at(state_mut_of(&mut guard), key, value);
        Ok(())
    }

    /// Deletes `key` in the state that the store is in when the call gets
    /// to write, as `delete_at` says. The call always succeeds.
    pub fn delete(&self, key: &[u8]) -> (r: Result<(), LsmError>)
        requires
            0 < key@.len() <= 65535,
        ensures
            r is Ok,
    {
        let mut guard = write_state(&self.inner);
        Self::delete_at(state_mut_of(&mut guard), key);
        Ok(())
    }

    /// Writes the memtable out as a table of level 0, in the three steps of
    /// `LsmStorageInner::sync`: `freeze_at`, `build_table` and `install_at`.
    /// Only the first and the last hold the lock of the state. Fails when
    /// the table would take more bytes than an offset of 32 bits can
    /// address, or when there is no id left for the next table; which of
    /// these holds lies with the state that the call finds.
    pub fn sync(&self) -> (r: Result<(), LsmError>)
        ensures
            r is Err ==> r->Err_0 == LsmError::TooLarge,
    {
        let _flush_lock = hold_flush(&self.flush_lock);
        // Move the memtable to the immutable memtables.
        let (flush_memtable, sst_id) = {
            let mut guard = write_state(&self.inner);
            Self::freeze_at(state_mut_of(&mut guard))
        };
        // Writes go to the new memtable now; the old one can be written out.
        let path = self.path_of_sst(sst_id);
        let table = match LsmStorageInner::build_table(
            &flush_memtable,
            sst_id,
            Some(share(&self.block_cache)),
            path.as_str(),
        ) {
            Ok(table) => table,
            Err(e) => {
                return Err(e);
            },
        };
        // Add the table to level 0.
        let mut guard = write_state(&self.inner);
        Self::install_at(state_mut_of(&mut guard), Arc::new(table))
    }

    /// A cursor over the entries between the bounds, without the deleted
    /// ones, of the state that the store is in when the call gets to read
    /// it: what `scan_at` gives of that state.
    pub fn scan(&self, lower: Bound<&[u8]>, upper: Bound<&[u8]>) -> (r: Result<
        FusedIterator<LsmIterator>,
        LsmError,
    >)
        ensures
            r is Ok,
            r->Ok_0.wf(),
    {
        let guard = read_state(&self.inner);
        Self::scan_at(state_of(&guard), lower, upper)
    }

    /// The path of the file of table `id`.
    pub fn path_of_sst(&self, id: usize) -> (path: String)
        ensures
            path@ == sst_path(self.dir(), id as nat),
    {
        format_sst_path(self.path.as_str(), id)
    }
}

} // verus!
