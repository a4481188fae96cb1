//! The memtable: the entries written last, in key order, one value for a key.

use crate::error::LsmError;
use crate::iterators::{rest, StorageIterator};
use crate::key::{key_le, key_lt, key_order, lemma_key_lt_transitive, KeyOrder};
use crate::run::{
    Entry, lemma_bounds_split, lemma_lookup_at, lemma_lookup_none, lemma_lookup_some,
    lemma_lookup_sorted, lemma_lower_bound_is, lemma_lower_bound_splits, lookup, lower_bound,
    sorted, upper_bound,
};
use crate::table::SsTableBuilder;
use std::ops::Bound;
use vstd::prelude::*;
use vstd::slice::slice_to_vec;

verus! {

/// `std::ops::Bound`, with its three variants in view.
#[verifier::external_type_specification]
#[verifier::reject_recursive_types(T)]
pub struct ExBound<T>(Bound<T>);

/// A bound as contracts speak of it.
pub open spec fn bound_view(b: Bound<Vec<u8>>) -> Bound<Seq<u8>> {
    match b {
        Bound::Included(k) => Bound::Included(k@),
        Bound::Excluded(k) => Bound::Excluded(k@),
        Bound::Unbounded => Bound::Unbounded,
    }
}

/// A borrowed bound as contracts speak of it.
pub open spec fn bound_slice_view(b: Bound<&[u8]>) -> Bound<Seq<u8>> {
    match b {
        Bound::Included(k) => Bound::Included(k@),
        Bound::Excluded(k) => Bound::Excluded(k@),
        Bound::Unbounded => Bound::Unbounded,
    }
}

/// `key` is not below the lower bound.
pub open spec fn above_lower(key: Seq<u8>, lower: Bound<Seq<u8>>) -> bool {
    match lower {
        Bound::Included(k) => key_le(k, key),
        Bound::Excluded(k) => key_lt(k, key),
        Bound::Unbounded => true,
    }
}

/// `key` is not above the upper bound.
pub open spec fn below_upper(key: Seq<u8>, upper: Bound<Seq<u8>>) -> bool {
    match upper {
        Bound::Included(k) => key_le(key, k),
        Bound::Excluded(k) => key_lt(key, k),
        Bound::Unbounded => true,
    }
}

/// The index of the first entry of `s` that is not below the lower bound.
pub open spec fn range_start(s: Seq<Entry>, lower: Bound<Seq<u8>>) -> int {
    match lower {
        Bound::Included(k) => lower_bound(s, k),
        Bound::Excluded(k) => upper_bound(s, k),
        Bound::Unbounded => 0,
    }
}

/// The index behind the last entry of `s` that is not above the upper bound.
pub open spec fn range_end(s: Seq<Entry>, upper: Bound<Seq<u8>>) -> int {
    match upper {
        Bound::Included(k) => upper_bound(s, k),
        Bound::Excluded(k) => lower_bound(s, k),
        Bound::Unbounded => s.len() as int,
    }
}

/// The entries of a sorted run that lie between the bounds.
pub open spec fn range_of(s: Seq<Entry>, lower: Bound<Seq<u8>>, upper: Bound<Seq<u8>>) -> Seq<
    Entry,
> {
    let from = range_start(s, lower);
    let to = range_end(s, upper);
    if from < to {
        s.subrange(from, to)
    } else {
        Seq::empty()
    }
}

/// The run with `value` as the value of `key`: in place of the old value
/// where the run holds the key, and else at the key's place in the order.
pub open spec fn upsert(s: Seq<Entry>, key: Seq<u8>, value: Seq<u8>) -> Seq<Entry> {
    let at = lower_bound(s, key);
    if at < s.len() && s[at].0 == key {
        s.update(at, (key, value))
    } else {
        s.insert(at, (key, value))
    }
}

/// The entries that a list of owned pairs stands for.
pub open spec fn entries_view(v: Seq<(Vec<u8>, Vec<u8>)>) -> Seq<Entry> {
    Seq::new(v.len(), |i: int| (v[i].0@, v[i].1@))
}

/// Every key has between one byte and 65535, and no value has more.
pub open spec fn sizes_fit(s: Seq<Entry>) -> bool {
    forall|i: int| 0 <= i < s.len() ==> 0 < (#[trigger] s[i]).0.len() <= 65535 && s[i].1.len() <= 65535
}

/// Where the bounds of a range fall in a sorted run: the entries between
/// them, and no others, are not below the lower and not above the upper.
pub proof fn lemma_range_bounds(s: Seq<Entry>, lower: Bound<Seq<u8>>, upper: Bound<Seq<u8>>)
    requires
        sorted(s),
    ensures
        0 <= range_start(s, lower) <= s.len(),
        0 <= range_end(s, upper) <= s.len(),
        forall|i: int|
            0 <= i < s.len() ==> (range_start(s, lower) <= i <==> above_lower(
                #[trigger] s[i].0,
                lower,
            )),
        forall|i: int|
            0 <= i < s.len() ==> (i < range_end(s, upper) <==> below_upper(
                #[trigger] s[i].0,
                upper,
            )),
{
    match lower {
        Bound::Included(k) => {
            lemma_bounds_split(s, k);
        },
        Bound::Excluded(k) => {
            lemma_bounds_split(s, k);
        },
        Bound::Unbounded => {},
    }
    match upper {
        Bound::Included(k) => {
            lemma_bounds_split(s, k);
        },
        Bound::Excluded(k) => {
            lemma_bounds_split(s, k);
        },
        Bound::Unbounded => {},
    }
}

/// Writing a value for a key keeps the run sorted, gives the key that
/// value, and leaves the value of every other key.
pub proof fn lemma_upsert(s: Seq<Entry>, key: Seq<u8>, value: Seq<u8>, other: Seq<u8>)
    requires
        sorted(s),
    ensures
        sorted(upsert(s, key, value)),
        lookup(upsert(s, key, value), key) == Some(value),
        other != key ==> lookup(upsert(s, key, value), other) == lookup(s, other),
{
    let u = upsert(s, key, value);
    let at = lower_bound(s, key);
    lemma_bounds_split(s, key);
    let replaced = at < s.len() && s[at].0 == key;
    // where entry `i` of the new run stands in the old one, but for `at`
    let was = |i: int|
        if replaced || i < at {
            i
        } else {
            i - 1
        };
    assert forall|i: int| 0 <= i < u.len() && i != at implies #[trigger] u[i] == s[was(i)] by {}
    assert(u[at] == (key, value));
    assert forall|i: int, j: int| 0 <= i < j < u.len() implies key_lt(
        #[trigger] u[i].0,
        #[trigger] u[j].0,
    ) by {
        if i == at {
            assert(key_le(key, s[was(j)].0));
        } else if j != at {
            assert(key_lt(s[was(i)].0, s[was(j)].0));
        }
    }
    lemma_lookup_at(u, at);
    if other != key {
        if lookup(s, other) is Some {
            let i = lemma_lookup_some(s, other);
            let now = if replaced || i < at {
                i
            } else {
                i + 1
            };
            assert(u[now] == s[i]);
            lemma_lookup_at(u, now);
        } else {
            assert forall|i: int| 0 <= i < u.len() implies (#[trigger] u[i]).0 != other by {
                if i != at && u[i].0 == other {
                    lemma_lookup_at(s, was(i));
                }
            }
            lemma_lookup_none(u, other);
        }
    }
}

/// An owned copy of a bound.
pub fn map_bound(bound: Bound<&[u8]>) -> (r: Bound<Vec<u8>>)
    ensures
        bound_view(r) == bound_slice_view(bound),
{
    match bound {
        Bound::Included(k) => Bound::Included(slice_to_vec(k)),
        Bound::Excluded(k) => Bound::Excluded(slice_to_vec(k)),
        Bound::Unbounded => Bound::Unbounded,
    }
}

/// The entries written last, in key order, with one value for a key. An
/// empty value marks its key as deleted.
pub struct MemTable {
    map: Vec<(Vec<u8>, Vec<u8>)>,
}

impl MemTable {
    /// The entries of the table, in key order.
    pub closed spec fn entries(&self) -> Seq<Entry> {
        entries_view(self.map@)
    }

    /// The keys ascend strictly, and keys and values have the sizes that a
    /// block can hold.
    pub open spec fn wf(&self) -> bool {
        sorted(self.entries()) && sizes_fit(self.entries())
    }

    /// An empty table.
    pub fn create() -> (t: Self)
        ensures
            t.wf(),
            t.entries() == Seq::<Entry>::empty(),
    {
        let t = Self { map: Vec::new() };
        assert(t.entries() =~= Seq::<Entry>::empty());
        t
    }

    /// The place of the first entry whose key is `key` or comes after it.
    fn find(&self, key: &[u8]) -> (at: usize)
        requires
            self.wf(),
        ensures
            at == lower_bound(self.entries(), key@),
            at <= self.map@.len(),
    {
        let ghost entries = self.entries();
        let n = self.map.len();
        let mut low: usize = 0;
        let mut high: usize = n;
        while low < high
            invariant
                entries == self.entries(),
                sorted(entries),
                n == self.map@.len(),
                low <= high <= n,
                forall|i: int| 0 <= i < low ==> key_lt(#[trigger] entries[i].0, key@),
                forall|i: int| high <= i < n ==> key_le(key@, #[trigger] entries[i].0),
            decreases high - low,
        {
            let mid = low + (high - low) / 2;
            match key_order(self.map[mid].0.as_slice(), key) {
                KeyOrder::Less => {
                    proof {
                        assert forall|i: int| 0 <= i < mid + 1 implies key_lt(
                            #[trigger] entries[i].0,
                            key@,
                        ) by {
                            if i < mid {
                                lemma_key_lt_transitive(entries[i].0, entries[mid as int].0, key@);
                            }
                        }
                    }
                    low = mid + 1;
                },
                _ => {
                    proof {
                        assert forall|i: int| mid <= i < n implies key_le(
                            key@,
                            #[trigger] entries[i].0,
                        ) by {
                            if i > mid {
                                if key@ != entries[mid as int].0 {
                                    lemma_key_lt_transitive(
                                        key@,
                                        entries[mid as int].0,
                                        entries[i].0,
                                    );
                                }
                            }
                        }
                    }
                    high = mid;
                },
            }
        }
        proof {
            lemma_lower_bound_is(entries, key@, low as int);
        }
        low
    }

    /// The value written last for `key`, if one was written; an empty value
    /// where the key was deleted last.
    pub fn get(&self, key: &[u8]) -> (r: Option<Vec<u8>>)
        requires
            self.wf(),
        ensures
            match r {
                Some(value) => lookup(self.entries(), key@) == Some(value@),
                None => lookup(self.entries(), key@) is None,
            },
    {
        proof {
            lemma_lookup_sorted(self.entries(), key@);
        }
        let at = self.find(key);
        if at < self.map.len() && key_order(self.map[at].0.as_slice(), key) == KeyOrder::Equal {
            Some(slice_to_vec(self.map[at].1.as_slice()))
        } else {
            None
        }
    }

    /// Writes `value` as the value of `key`, in place of any value that the
    /// key had.
    pub fn put(&mut self, key: &[u8], value: &[u8])
        requires
            old(self).wf(),
            0 < key@.len() <= 65535,
            value@.len() <= 65535,
        ensures
            final(self).wf(),
            final(self).entries() == upsert(old(self).entries(), key@, value@),
    {
        proof {
            lemma_upsert(self.entries(), key@, value@, key@);
            lemma_lower_bound_splits(self.entries(), key@);
        }
        let at = self.find(key);
        if at < self.map.len() && key_order(self.map[at].0.as_slice(), key) == KeyOrder::Equal {
            self.map[at] = (slice_to_vec(key), slice_to_vec(value));
            assert(self.entries() =~= upsert(old(self).entries(), key@, value@));
        } else {
            self.map.insert(at, (slice_to_vec(key), slice_to_vec(value)));
            assert(self.entries() =~= upsert(old(self).entries(), key@, value@));
        }
        proof {
            let u = self.entries();
            let s = old(self).entries();
            assert forall|i: int| 0 <= i < u.len() implies 0 < (#[trigger] u[i]).0.len() <= 65535
                && u[i].1.len() <= 65535 by {
                if i != at {
                    let si = if i < at || u.len() == s.len() {
                        i
                    } else {
                        i - 1
                    };
                    assert(u[i] == s[si]);
                }
            }
        }
    }

    /// A cursor over a copy of the entries between the bounds.
    pub fn scan(&self, lower: Bound<&[u8]>, upper: Bound<&[u8]>) -> (it: MemTableIterator)
        requires
            self.wf(),
        ensures
            it.wf(),
            it.remaining() == range_of(
                self.entries(),
                bound_slice_view(lower),
                bound_slice_view(upper),
            ),
    {
        let ghost entries = self.entries();
        proof {
            lemma_range_bounds(entries, bound_slice_view(lower), bound_slice_view(upper));
        }
        let from = match lower {
            Bound::Included(k) => self.find(k),
            Bound::Excluded(k) => self.find_after(k),
            Bound::Unbounded => 0,
        };
        let to = match upper {
            Bound::Included(k) => self.find_after(k),
            Bound::Excluded(k) => self.find(k),
            Bound::Unbounded => self.map.len(),
        };
        let mut copy: Vec<(Vec<u8>, Vec<u8>)> = Vec::new();
        let mut i = from;
        while i < to
            invariant
                entries == self.entries(),
                from <= i,
                to <= self.map@.len(),
                i <= to || from >= to,
                from < to ==> entries_view(copy@) == entries.subrange(from as int, i as int),
                from >= to ==> copy@.len() == 0,
            decreases to - i,
        {
            let ghost before = copy@;
            copy.push(
                (slice_to_vec(self.map[i].0.as_slice()), slice_to_vec(self.map[i].1.as_slice())),
            );
            proof {
                let now = entries_view(copy@);
                let want = entries.subrange(from as int, i + 1);
                assert(entries.len() == self.map@.len());
                assert(entries_view(before).len() == before.len());
                assert(entries.subrange(from as int, i as int).len() == i - from);
                assert(now.len() == want.len());
                assert forall|j: int| 0 <= j < now.len() implies now[j] == want[j] by {
                    if j < before.len() {
                        assert(copy@[j] == before[j]);
                        assert(entries_view(before)[j] == entries.subrange(from as int, i as int)[j]);
                    } else {
                        assert(want[j] == entries[i as int]);
                    }
                }
                assert(now =~= want);
            }
            i += 1;
        }
        proof {
            if from >= to {
                assert(entries_view(copy@) =~= Seq::<Entry>::empty());
            }
            let r = range_of(entries, bound_slice_view(lower), bound_slice_view(upper));
            assert(entries_view(copy@) == r);
            assert forall|a: int, b: int| 0 <= a < b < r.len() implies key_lt(
                #[trigger] r[a].0,
                #[trigger] r[b].0,
            ) by {
                assert(r[a] == entries[from + a] && r[b] == entries[from + b]);
            }
        }
        MemTableIterator { entries: copy, idx: 0 }
    }

    /// The place of the first entry whose key comes after `key`.
    fn find_after(&self, key: &[u8]) -> (at: usize)
        requires
            self.wf(),
        ensures
            at == upper_bound(self.entries(), key@),
            at <= self.map@.len(),
    {
        proof {
            lemma_lower_bound_splits(self.entries(), key@);
        }
        let at = self.find(key);
        if at < self.map.len() && key_order(self.map[at].0.as_slice(), key) == KeyOrder::Equal {
            at + 1
        } else {
            at
        }
    }

    /// Adds every entry of the table to `builder`, in key order.
    pub fn flush(&self, builder: &mut SsTableBuilder) -> (r: Result<(), LsmError>)
        requires
            self.wf(),
            old(builder).wf(),
        ensures
            r is Ok,
            final(builder).wf(),
            final(builder).entries() == old(builder).entries() + self.entries(),
            final(builder).target_size() == old(builder).target_size(),
    {
        let ghost entries = self.entries();
        let n = self.map.len();
        let mut i: usize = 0;
        assert(old(builder).entries() + entries.take(0) =~= old(builder).entries());
        while i < n
            invariant
                entries == self.entries(),
                sizes_fit(entries),
                n == self.map@.len(),
                i <= n,
                builder.wf(),
                builder.entries() == old(builder).entries() + entries.take(i as int),
                builder.target_size() == old(builder).target_size(),
            decreases n - i,
        {
            assert(0 < entries[i as int].0.len() <= 65535);
            builder.add(self.map[i].0.as_slice(), self.map[i].1.as_slice());
            assert(old(builder).entries() + entries.take(i + 1) =~= (old(builder).entries()
                + entries.take(i as int)).push(entries[i as int]));
            i += 1;
        }
        assert(entries.take(n as int) =~= entries);
        Ok(())
    }
}

/// A cursor over a copy of a range of a memtable.
pub struct MemTableIterator {
    entries: Vec<(Vec<u8>, Vec<u8>)>,
    idx: usize,
}

impl StorageIterator for MemTableIterator {
    closed spec fn wf(&self) -> bool {
        self.idx <= self.entries@.len() && sorted(entries_view(self.entries@))
    }

    closed spec fn remaining(&self) -> Seq<Entry> {
        entries_view(self.entries@).skip(self.idx as int)
    }

    open spec fn infallible() -> bool {
        true
    }

    proof fn lemma_remaining_sorted(&self) {
        let all = entries_view(self.entries@);
        let r = self.remaining();
        assert forall|i: int, j: int| 0 <= i < j < r.len() implies key_lt(
            #[trigger] r[i].0,
            #[trigger] r[j].0,
        ) by {
            assert(r[i] == all[self.idx + i] && r[j] == all[self.idx + j]);
        }
    }

    fn value(&self) -> (v: &[u8]) {
        if self.idx < self.entries.len() {
            self.entries[self.idx].1.as_slice()
        } else {
            &[]
        }
    }

    fn key(&self) -> (k: &[u8]) {
        if self.idx < self.entries.len() {
            self.entries[self.idx].0.as_slice()
        } else {
            &[]
        }
    }

    fn is_valid(&self) -> (b: bool) {
        self.idx < self.entries.len()
    }

    fn next(&mut self) -> (r: Result<(), LsmError>) {
        if self.idx < self.entries.len() {
            self.idx += 1;
            assert(self.remaining() =~= rest(old(self).remaining()));
        }
        Ok(())
    }
}

} // verus!
