//! What holds of the store: which value a `get` and a scan show for a key,
//! and what writing a memtable out keeps.

use crate::iterators::merge_iterator::{
    all_sorted, first_holding, lemma_merge_all_from, lemma_merge_all_prefers_first, merge_all,
};
use crate::iterators::two_merge_iterator::{lemma_merge2_prefers_a, merge2};
use crate::key::{key_le, key_lt, lemma_key_lt_total, lemma_key_lt_transitive};
use crate::lsm_iterator::{
    lemma_below_upper_earlier, lemma_visible_is_sorted, lemma_visible_sorted, visible,
};
use crate::lsm_storage::{from_key, from_lower, lemma_first_holding_from, StoreModel};
use crate::mem_table::{
    above_lower, below_upper, lemma_range_bounds, range_end, range_of, range_start,
};
use crate::run::{
    Entry, all_after, all_from, lemma_lookup_all_after, lemma_lookup_at, lemma_lookup_head,
    lemma_lookup_some, lemma_lookup_subrange, lemma_lower_bound_splits, lemma_sorted_cons, lookup,
    lower_bound, sorted,
};
use std::ops::Bound;
use vstd::prelude::*;

verus! {

/// The entries of a sorted run between two bounds have for a key the value
/// of the run where the key lies between the bounds, and no value otherwise.
pub proof fn lemma_lookup_range(
    s: Seq<Entry>,
    lower: Bound<Seq<u8>>,
    upper: Bound<Seq<u8>>,
    key: Seq<u8>,
)
    requires
        sorted(s),
    ensures
        sorted(range_of(s, lower, upper)),
        lookup(range_of(s, lower, upper), key) == if above_lower(key, lower) && below_upper(
            key,
            upper,
        ) {
            lookup(s, key)
        } else {
            None
        },
{
    lemma_range_bounds(s, lower, upper);
    let from = range_start(s, lower);
    let to = range_end(s, upper);
    if from < to {
        lemma_lookup_subrange(s, from, to, key);
        if above_lower(key, lower) && below_upper(key, upper) {
            if lookup(s, key) is Some {
                let at = lemma_lookup_some(s, key);
                assert(s[at].0 == key);
                assert(from <= at < to);
            } else {
                if exists|i: int| from <= i < to && (#[trigger] s[i]).0 == key {
                    let i = choose|i: int| from <= i < to && (#[trigger] s[i]).0 == key;
                    lemma_lookup_at(s, i);
                }
            }
        } else {
            if exists|i: int| from <= i < to && (#[trigger] s[i]).0 == key {
                let i = choose|i: int| from <= i < to && (#[trigger] s[i]).0 == key;
                assert(above_lower(s[i].0, lower) && below_upper(s[i].0, upper));
            }
        }
    } else {
        if above_lower(key, lower) && below_upper(key, upper) && lookup(s, key) is Some {
            let at = lemma_lookup_some(s, key);
            assert(s[at].0 == key);
            assert(from <= at < to);
        }
    }
}

/// The end of a sorted run from a lower bound on has for a key the value of
/// the run where the key is not below the bound, and no value otherwise.
pub proof fn lemma_lookup_from_lower(s: Seq<Entry>, lower: Bound<Seq<u8>>, key: Seq<u8>)
    requires
        sorted(s),
    ensures
        sorted(from_lower(s, lower)),
        lookup(from_lower(s, lower), key) == if above_lower(key, lower) {
            lookup(s, key)
        } else {
            None
        },
{
    lemma_lookup_range(s, lower, Bound::Unbounded, key);
    lemma_range_bounds(s, lower, Bound::Unbounded);
    let from = range_start(s, lower);
    if from < s.len() {
        assert(s.skip(from) =~= s.subrange(from, s.len() as int));
    } else {
        assert(s.skip(from) =~= Seq::<Entry>::empty());
    }
}

/// Where every run of one list has for a key the value that its fellow in
/// another list has, the first value of the key is the same in both lists.
pub proof fn lemma_first_holding_same(a: Seq<Seq<Entry>>, b: Seq<Seq<Entry>>, key: Seq<u8>)
    requires
        a.len() == b.len(),
        forall|i: int| 0 <= i < a.len() ==> lookup(#[trigger] a[i], key) == lookup(b[i], key),
    ensures
        first_holding(a, key) == first_holding(b, key),
    decreases a.len(),
{
    if a.len() > 0 {
        assert(lookup(a[0], key) == lookup(b[0], key));
        assert forall|i: int| 0 <= i < a.skip(1).len() implies lookup(
            #[trigger] a.skip(1)[i],
            key,
        ) == lookup(b.skip(1)[i], key) by {
            assert(a.skip(1)[i] == a[i + 1]);
            assert(b.skip(1)[i] == b[i + 1]);
        }
        lemma_first_holding_same(a.skip(1), b.skip(1), key);
    }
}

/// Where no run of a list has a value for a key, the list has none.
pub proof fn lemma_first_holding_none(a: Seq<Seq<Entry>>, key: Seq<u8>)
    requires
        forall|i: int| 0 <= i < a.len() ==> lookup(#[trigger] a[i], key) is None,
    ensures
        first_holding(a, key) is None,
{
    lemma_first_holding_from(a, key, a.len() as int);
}

/// The first value of a key in two lists of runs, one behind the other, is
/// the first value in the front list, or the first value in the back list
/// where the front list has none.
pub proof fn lemma_first_holding_concat(a: Seq<Seq<Entry>>, b: Seq<Seq<Entry>>, key: Seq<u8>)
    ensures
        first_holding(a + b, key) == if first_holding(a, key) is Some {
            first_holding(a, key)
        } else {
            first_holding(b, key)
        },
    decreases a.len(),
{
    if a.len() == 0 {
        assert(a + b =~= b);
    } else {
        assert((a + b)[0] == a[0]);
        assert((a + b).skip(1) =~= a.skip(1) + b);
        lemma_first_holding_concat(a.skip(1), b, key);
    }
}

/// What a scan shows of a sorted run has for a key the value of the run
/// where the key is not above the upper bound and the value is not empty,
/// and no value otherwise.
pub proof fn lemma_lookup_visible(s: Seq<Entry>, upper: Bound<Seq<u8>>, key: Seq<u8>)
    requires
        sorted(s),
    ensures
        lookup(visible(s, upper), key) == if below_upper(key, upper) && lookup(s, key) is Some
            && lookup(s, key).unwrap().len() > 0 {
            lookup(s, key)
        } else {
            None
        },
    decreases s.len(),
{
    if s.len() == 0 {
    } else if !below_upper(s[0].0, upper) {
        if below_upper(key, upper) {
            // the key comes before every key of the run
            lemma_key_lt_total(key, s[0].0);
            if key_lt(s[0].0, key) {
                lemma_below_upper_earlier(s[0].0, key, upper);
            }
            assert(key_lt(key, s[0].0));
            assert(all_after(s, key)) by {
                assert forall|i: int| 0 <= i < s.len() implies key_lt(key, #[trigger] s[i].0) by {
                    if i > 0 {
                        lemma_key_lt_transitive(key, s[0].0, s[i].0);
                    }
                }
            }
            lemma_lookup_all_after(s, key);
        }
    } else {
        let t = s.skip(1);
        lemma_sorted_cons(s);
        lemma_lookup_visible(t, upper, key);
        if s[0].0 == key {
            lemma_visible_sorted(t, upper, key);
            lemma_lookup_all_after(visible(t, upper), key);
            if s[0].1.len() > 0 {
                assert(visible(s, upper)[0] == s[0]);
            }
        } else {
            if s[0].1.len() > 0 {
                assert(visible(s, upper)[0] == s[0]);
                assert(visible(s, upper).skip(1) =~= visible(t, upper));
            }
        }
    }
}

impl StoreModel {
    /// Every part of the store is sorted by key.
    pub open spec fn parts_sorted(self) -> bool {
        &&& sorted(self.memtable)
        &&& all_sorted(self.imm)
        &&& all_sorted(self.l0)
    }

    /// What a scan merges, before it is cut at the upper bound.
    pub open spec fn merged(self, lower: Bound<Seq<u8>>, upper: Bound<Seq<u8>>) -> Seq<Entry> {
        merge2(self.mem_merged(lower, upper), self.table_merged(lower))
    }

    /// What the merge of the tables, each from `key` on, starts with says
    /// what the tables hold for `key`: the value of that entry where it has
    /// the key, and nothing otherwise.
    pub proof fn lemma_tables_head(self, key: Seq<u8>)
        requires
            all_sorted(self.l0),
        ensures
            first_holding(self.table_sources(), key) == if self.tables_from(key).len() > 0
                && self.tables_from(key)[0].0 == key {
                Some(self.tables_from(key)[0].1)
            } else {
                None
            },
    {
        let tables = self.table_sources();
        let ends = Seq::new(self.l0.len(), |i: int| from_key(tables[i], key));
        assert(all_sorted(ends)) by {
            assert forall|i: int| 0 <= i < ends.len() implies sorted(#[trigger] ends[i]) by {
                lemma_lookup_from_lower(tables[i], Bound::Included(key), key);
            }
        }
        assert forall|i: int| 0 <= i < ends.len() implies lookup(#[trigger] ends[i], key)
            == lookup(tables[i], key) by {
            lemma_lookup_from_lower(tables[i], Bound::Included(key), key);
        }
        lemma_first_holding_same(ends, tables, key);
        lemma_merge_all_prefers_first(ends, key);
        assert forall|i: int| 0 <= i < ends.len() implies all_from(#[trigger] ends[i], key) by {
            lemma_lower_bound_splits(tables[i], key);
            assert forall|j: int| 0 <= j < ends[i].len() implies key_le(
                key,
                #[trigger] ends[i][j].0,
            ) by {
                assert(ends[i][j] == tables[i][lower_bound(tables[i], key) + j]);
            }
        }
        lemma_merge_all_from(ends, key);
        let merged = merge_all(ends);
        if lookup(merged, key) is Some {
            lemma_lookup_head(merged, key);
        }
    }

    /// A `get` shows for a key the value that was written last, in a
    /// memtable or in a table, and shows nothing for a key that was deleted
    /// last or never written.
    pub proof fn lemma_get_shows_latest(self, key: Seq<u8>)
        ensures
            self.latest(key) is Some && self.latest(key).unwrap().len() > 0 ==> self.get(key)
                == self.latest(key),
            self.latest(key) is None || self.latest(key) == Some(Seq::<u8>::empty())
                ==> self.get(key) is None,
    {
    }

    /// After a value was written for a key, that value is the one written
    /// last for the key, and every other key has the value that it had.
    pub proof fn lemma_put_latest(self, key: Seq<u8>, value: Seq<u8>, other: Seq<u8>)
        requires
            sorted(self.memtable),
        ensures
            self.put(key, value).latest(key) == Some(value),
            other != key ==> self.put(key, value).latest(other) == self.latest(other),
    {
        let after = self.put(key, value);
        crate::mem_table::lemma_upsert(self.memtable, key, value, other);
        let before_all = self.mem_sources() + self.table_sources();
        let after_all = after.mem_sources() + after.table_sources();
        assert(after_all[0] == after.memtable);
        assert(before_all[0] == self.memtable);
        assert(after_all.skip(1) =~= before_all.skip(1));
    }

    /// A scan shows for a key between its bounds the value that was written
    /// last, if that value is not empty, and shows nothing for any other
    /// key.
    pub proof fn lemma_scan_shows_latest(
        self,
        lower: Bound<Seq<u8>>,
        upper: Bound<Seq<u8>>,
        key: Seq<u8>,
    )
        requires
            self.parts_sorted(),
        ensures
            sorted(self.scan(lower, upper)),
            lookup(self.scan(lower, upper), key) == if above_lower(key, lower) && below_upper(
                key,
                upper,
            ) && self.latest(key) is Some && self.latest(key).unwrap().len() > 0 {
                self.latest(key)
            } else {
                None
            },
    {
        let mems = self.mem_sources();
        let tables = self.table_sources();
        let ranges = Seq::new(1 + self.imm.len(), |i: int| range_of(mems[i], lower, upper));
        let ends = Seq::new(self.l0.len(), |i: int| from_lower(tables[i], lower));
        let in_range = above_lower(key, lower) && below_upper(key, upper);
        let nothing = Seq::new(mems.len(), |i: int| Seq::<Entry>::empty());
        let none = Seq::new(tables.len(), |i: int| Seq::<Entry>::empty());
        assert(all_sorted(ranges)) by {
            assert forall|i: int| 0 <= i < ranges.len() implies sorted(#[trigger] ranges[i]) by {
                lemma_lookup_range(mems[i], lower, upper, key);
            }
        }
        assert(all_sorted(ends)) by {
            assert forall|i: int| 0 <= i < ends.len() implies sorted(#[trigger] ends[i]) by {
                lemma_lookup_from_lower(tables[i], lower, key);
            }
        }
        // the side of the memtables
        if in_range {
            assert forall|i: int| 0 <= i < ranges.len() implies lookup(#[trigger] ranges[i], key)
                == lookup(mems[i], key) by {
                lemma_lookup_range(mems[i], lower, upper, key);
            }
            lemma_first_holding_same(ranges, mems, key);
        } else {
            assert forall|i: int| 0 <= i < ranges.len() implies lookup(#[trigger] ranges[i], key)
                is None by {
                lemma_lookup_range(mems[i], lower, upper, key);
            }
            lemma_first_holding_none(ranges, key);
        }
        // the side of the tables
        if above_lower(key, lower) {
            assert forall|i: int| 0 <= i < ends.len() implies lookup(#[trigger] ends[i], key)
                == lookup(tables[i], key) by {
                lemma_lookup_from_lower(tables[i], lower, key);
            }
            lemma_first_holding_same(ends, tables, key);
        } else {
            assert forall|i: int| 0 <= i < ends.len() implies lookup(#[trigger] ends[i], key)
                is None by {
                lemma_lookup_from_lower(tables[i], lower, key);
            }
            lemma_first_holding_none(ends, key);
        }
        lemma_merge_all_prefers_first(ranges, key);
        lemma_merge_all_prefers_first(ends, key);
        lemma_merge2_prefers_a(merge_all(ranges), merge_all(ends), key);
        lemma_first_holding_concat(mems, tables, key);
        let merged = self.merged(lower, upper);
        lemma_lookup_visible(merged, upper, key);
        lemma_visible_is_sorted(merged, upper);
    }

    /// Setting the memtable aside leaves for every key the value that was
    /// written last.
    pub proof fn lemma_freeze_keeps_latest(self, key: Seq<u8>)
        ensures
            self.frozen().latest(key) == self.latest(key),
            self.frozen().get(key) == self.get(key),
    {
        let after = self.frozen();
        let empty = Seq::<Entry>::empty();
        let before_all = self.mem_sources() + self.table_sources();
        let after_all = after.mem_sources() + after.table_sources();
        assert(after.table_sources() =~= self.table_sources());
        assert(after.mem_sources() =~= seq![empty] + self.mem_sources());
        assert(after_all =~= seq![empty] + before_all);
        assert(after_all.skip(1) =~= before_all);
    }

    /// Writing the earliest of the waiting memtables out as a table leaves
    /// for every key the value that was written last.
    pub proof fn lemma_install_keeps_latest(self, key: Seq<u8>)
        requires
            self.imm.len() > 0,
        ensures
            self.installed(self.imm[0]).latest(key) == self.latest(key),
            self.installed(self.imm[0]).get(key) == self.get(key),
    {
        let after = self.installed(self.imm[0]);
        let before_all = self.mem_sources() + self.table_sources();
        let after_all = after.mem_sources() + after.table_sources();
        assert(after_all.len() == before_all.len());
        assert forall|i: int| 0 <= i < after_all.len() implies after_all[i] == before_all[i] by {
            let n = self.imm.len() as int;
            if i == 0 {
            } else if i < n {
                assert(after.imm[after.imm.len() - i] == self.imm[n - i]);
            } else if i == n {
                assert(after_all[i] == after.table_sources()[0]);
                assert(before_all[i] == self.mem_sources()[n]);
            } else {
                assert(after_all[i] == after.table_sources()[i - n]);
                assert(before_all[i] == self.table_sources()[i - n - 1]);
            }
        }
        assert(after_all =~= before_all);
    }

    /// A `sync` leaves for every key the value that was written last: what
    /// a `get` finds for a key before, it finds after.
    pub proof fn lemma_sync_keeps_latest(self, key: Seq<u8>)
        ensures
            self.synced().latest(key) == self.latest(key),
            self.synced().get(key) == self.get(key),
    {
        self.lemma_freeze_keeps_latest(key);
        assert(self.frozen().imm[0] == self.next_out());
        self.frozen().lemma_install_keeps_latest(key);
    }
}

} // verus!
