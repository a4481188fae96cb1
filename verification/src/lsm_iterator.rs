//! The cursor that a scan of the store hands out: it stops at the upper
//! bound of the scan and passes over deleted keys.

use crate::error::LsmError;
use crate::iterators::{rest, StorageIterator};
use crate::iterators::merge_iterator::MergeIterator;
use crate::iterators::two_merge_iterator::TwoMergeIterator;
use crate::key::{key_lt, key_order, lemma_key_lt_transitive, KeyOrder};
use crate::mem_table::{below_upper, bound_view, MemTableIterator};
use crate::run::{Entry, all_after, lemma_sorted_cons, sorted};
use crate::table::SsTableIterator;
use std::ops::Bound;
use vstd::prelude::*;

verus! {

/// What a scan merges: the memtables, before the tables.
pub type LsmIteratorInner = TwoMergeIterator<
    MergeIterator<MemTableIterator>,
    MergeIterator<SsTableIterator>,
>;

/// The entries of a sorted run that a scan shows: those up to the upper
/// bound whose value is not empty.
pub open spec fn visible(s: Seq<Entry>, upper: Bound<Seq<u8>>) -> Seq<Entry>
    decreases s.len(),
{
    if s.len() == 0 || !below_upper(s[0].0, upper) {
        Seq::empty()
    } else if s[0].1.len() == 0 {
        visible(s.skip(1), upper)
    } else {
        seq![s[0]] + visible(s.skip(1), upper)
    }
}

/// What a scan shows of a sorted run is sorted, and comes after whatever
/// the run comes after.
pub proof fn lemma_visible_sorted(s: Seq<Entry>, upper: Bound<Seq<u8>>, low: Seq<u8>)
    requires
        sorted(s),
        all_after(s, low),
    ensures
        sorted(visible(s, upper)),
        all_after(visible(s, upper), low),
    decreases s.len(),
{
    if s.len() == 0 || !below_upper(s[0].0, upper) {
    } else {
        let t = s.skip(1);
        lemma_sorted_cons(s);
        assert(all_after(t, low)) by {
            assert forall|i: int| 0 <= i < t.len() implies key_lt(low, #[trigger] t[i].0) by {
                assert(t[i] == s[i + 1]);
            }
        }
        lemma_visible_sorted(t, upper, low);
        lemma_visible_sorted(t, upper, s[0].0);
        if s[0].1.len() > 0 {
            let v = visible(s, upper);
            assert(v.skip(1) =~= visible(t, upper));
            lemma_sorted_cons(v);
            assert forall|i: int| 0 <= i < v.len() implies key_lt(low, #[trigger] v[i].0) by {
                if i > 0 {
                    assert(v[i] == visible(t, upper)[i - 1]);
                }
            }
        }
    }
}

/// A scan shows no entry above the upper bound and no entry with an empty
/// value.
pub proof fn lemma_visible_within(s: Seq<Entry>, upper: Bound<Seq<u8>>, i: int)
    requires
        0 <= i < visible(s, upper).len(),
    ensures
        below_upper(visible(s, upper)[i].0, upper),
        visible(s, upper)[i].1.len() > 0,
    decreases s.len(),
{
    if s.len() == 0 || !below_upper(s[0].0, upper) {
    } else if s[0].1.len() == 0 {
        lemma_visible_within(s.skip(1), upper, i);
    } else if i > 0 {
        lemma_visible_within(s.skip(1), upper, i - 1);
    }
}

/// A key below the upper bound has every earlier key below the bound too.
pub proof fn lemma_below_upper_earlier(a: Seq<u8>, b: Seq<u8>, upper: Bound<Seq<u8>>)
    requires
        key_lt(a, b),
        below_upper(b, upper),
    ensures
        below_upper(a, upper),
{
    match upper {
        Bound::Included(k) => {
            if b != k {
                lemma_key_lt_transitive(a, b, k);
            }
        },
        Bound::Excluded(k) => {
            lemma_key_lt_transitive(a, b, k);
        },
        Bound::Unbounded => {},
    }
}

/// A scan shows every entry of a sorted run that is not above the upper
/// bound and has a value that is not empty.
pub proof fn lemma_visible_complete(s: Seq<Entry>, upper: Bound<Seq<u8>>, i: int)
    requires
        sorted(s),
        0 <= i < s.len(),
        below_upper(s[i].0, upper),
        s[i].1.len() > 0,
    ensures
        exists|j: int| 0 <= j < visible(s, upper).len() && visible(s, upper)[j] == s[i],
    decreases s.len(),
{
    let v = visible(s, upper);
    if i == 0 {
        assert(v[0] == s[0]);
    } else {
        lemma_below_upper_earlier(s[0].0, s[i].0, upper);
        let t = s.skip(1);
        lemma_sorted_cons(s);
        assert(t[i - 1] == s[i]);
        lemma_visible_complete(t, upper, i - 1);
        let j = choose|j: int| 0 <= j < visible(t, upper).len() && visible(t, upper)[j] == s[i];
        if s[0].1.len() == 0 {
            assert(v[j] == s[i]);
        } else {
            assert(v[j + 1] == visible(t, upper)[j]);
        }
    }
}

/// What a scan shows of a sorted run is sorted.
pub proof fn lemma_visible_is_sorted(s: Seq<Entry>, upper: Bound<Seq<u8>>)
    requires
        sorted(s),
    ensures
        sorted(visible(s, upper)),
    decreases s.len(),
{
    if s.len() > 0 && below_upper(s[0].0, upper) {
        let t = s.skip(1);
        lemma_sorted_cons(s);
        lemma_visible_is_sorted(t, upper);
        if s[0].1.len() > 0 {
            lemma_visible_sorted(t, upper, s[0].0);
            let v = visible(s, upper);
            assert(v.skip(1) =~= visible(t, upper));
            lemma_sorted_cons(v);
        }
    }
}

/// A scan of a sorted run shows no entry above the upper bound and no entry
/// with an empty value, and shows every other entry of the run.
pub proof fn lemma_visible_bounded(s: Seq<Entry>, upper: Bound<Seq<u8>>)
    requires
        sorted(s),
    ensures
        forall|i: int|
            0 <= i < visible(s, upper).len() ==> below_upper(
                (#[trigger] visible(s, upper)[i]).0,
                upper,
            ) && visible(s, upper)[i].1.len() > 0,
        forall|j: int|
            0 <= j < s.len() && below_upper((#[trigger] s[j]).0, upper) && s[j].1.len() > 0
                ==> visible(s, upper).contains(s[j]),
{
    let v = visible(s, upper);
    assert forall|i: int| 0 <= i < v.len() implies below_upper((#[trigger] v[i]).0, upper)
        && v[i].1.len() > 0 by {
        lemma_visible_within(s, upper, i);
    }
    assert forall|j: int|
        0 <= j < s.len() && below_upper((#[trigger] s[j]).0, upper) && s[j].1.len()
            > 0 implies v.contains(s[j]) by {
        lemma_visible_complete(s, upper, j);
    }
}

/// The cursor of a scan: the merge of the memtables and the tables, cut at
/// the upper bound of the scan, without the keys that were deleted.
pub struct LsmIterator {
    iter: LsmIteratorInner,
    end_bound: Bound<Vec<u8>>,
    is_valid: bool,
}

impl LsmIterator {
    /// The upper bound of the scan.
    pub closed spec fn upper(&self) -> Bound<Seq<u8>> {
        bound_view(self.end_bound)
    }

    /// What the cursor below has yet to give, the entry that it stands on
    /// first.
    pub closed spec fn source(&self) -> Seq<Entry> {
        self.iter.remaining()
    }

    /// The cursor is marked valid exactly when the cursor below stands on
    /// an entry that is not above the upper bound.
    closed spec fn marked(&self) -> bool {
        self.is_valid == (self.source().len() > 0 && below_upper(
            self.source()[0].0,
            self.upper(),
        ))
    }

    /// What the cursor has yet to give is what a scan shows of what the
    /// cursor below has yet to give.
    pub proof fn lemma_remaining(&self)
        requires
            self.wf(),
        ensures
            self.remaining() == visible(self.source(), self.upper()),
            sorted(self.source()),
    {
        self.iter.lemma_remaining_sorted();
    }

    /// Every entry that the cursor has yet to give lies within the upper
    /// bound and has a value that is not empty.
    pub proof fn lemma_within_bound(&self, i: int)
        requires
            self.wf(),
            0 <= i < self.remaining().len(),
        ensures
            below_upper(self.remaining()[i].0, self.upper()),
            self.remaining()[i].1.len() > 0,
    {
        lemma_visible_within(self.source(), self.upper(), i);
    }

    /// A cursor over `iter` that ends at `end_bound`: it gives the entries
    /// of `iter` up to the bound whose value is not empty.
    pub fn new(iter: LsmIteratorInner, end_bound: Bound<Vec<u8>>) -> (r: Result<Self, LsmError>)
        requires
            iter.wf(),
        ensures
            r is Ok,
            r->Ok_0.wf(),
            r->Ok_0.upper() == bound_view(end_bound),
            r->Ok_0.source().len() <= iter.remaining().len(),
            r->Ok_0.remaining() == visible(iter.remaining(), bound_view(end_bound)),
    {
        let mut iter = Self { is_valid: false, iter, end_bound };
        iter.is_valid = iter.within_bound();
        match iter.move_to_non_delete() {
            Err(e) => {
                return Err(e);
            },
            Ok(()) => {},
        }
        Ok(iter)
    }

    /// Whether the cursor below stands on an entry that is not above the
    /// upper bound.
    fn within_bound(&self) -> (b: bool)
        requires
            self.iter.wf(),
        ensures
            b == (self.source().len() > 0 && below_upper(self.source()[0].0, self.upper())),
    {
        if !self.iter.is_valid() {
            return false;
        }
        proof {
            let head = self.source()[0].0;
            match self.upper() {
                Bound::Included(k) => {
                    crate::key::lemma_key_lt_total(head, k);
                    if key_lt(head, k) {
                        crate::key::lemma_key_lt_asymmetric(head, k);
                    }
                },
                _ => {},
            }
        }
        match &self.end_bound {
            Bound::Included(key) => key_order(self.iter.key(), key.as_slice())
                != KeyOrder::Greater,
            Bound::Excluded(key) => key_order(self.iter.key(), key.as_slice()) == KeyOrder::Less,
            Bound::Unbounded => true,
        }
    }

    /// Moves the cursor below by one entry, and notes whether the new entry
    /// lies within the bound.
    fn next_inner(&mut self) -> (r: Result<(), LsmError>)
        requires
            old(self).iter.wf(),
            old(self).source().len() > 0,
        ensures
            r is Ok,
            final(self).iter.wf(),
            final(self).upper() == old(self).upper(),
            final(self).source() == old(self).source().skip(1),
            final(self).marked(),
    {
        match self.iter.next() {
            Err(e) => {
                return Err(e);
            },
            Ok(()) => {},
        }
        self.is_valid = self.within_bound();
        Ok(())
    }

    /// Moves past the entries whose value is empty.
    fn move_to_non_delete(&mut self) -> (r: Result<(), LsmError>)
        requires
            old(self).iter.wf(),
            old(self).marked(),
        ensures
            r is Ok,
            final(self).wf(),
            final(self).upper() == old(self).upper(),
            final(self).source().len() <= old(self).source().len(),
            final(self).remaining() == visible(old(self).source(), old(self).upper()),
    {
        while self.is_valid && self.iter.value().is_empty()
            invariant
                self.iter.wf(),
                self.marked(),
                self.upper() == old(self).upper(),
                self.source().len() <= old(self).source().len(),
                visible(self.source(), self.upper()) == visible(
                    old(self).source(),
                    old(self).upper(),
                ),
            decreases self.source().len(),
        {
            match self.next_inner() {
                Err(e) => {
                    return Err(e);
                },
                Ok(()) => {},
            }
        }
        Ok(())
    }
}

impl StorageIterator for LsmIterator {
    closed spec fn wf(&self) -> bool {
        &&& self.iter.wf()
        &&& self.marked()
        &&& self.is_valid ==> self.source()[0].1.len() > 0
    }

    closed spec fn remaining(&self) -> Seq<Entry> {
        visible(self.source(), self.upper())
    }

    open spec fn infallible() -> bool {
        true
    }

    proof fn lemma_remaining_sorted(&self) {
        self.iter.lemma_remaining_sorted();
        lemma_visible_is_sorted(self.source(), self.upper());
    }

    fn is_valid(&self) -> (b: bool) {
        self.is_valid
    }

    fn key(&self) -> (k: &[u8]) {
        self.iter.key()
    }

    fn value(&self) -> (v: &[u8]) {
        self.iter.value()
    }

    fn next(&mut self) -> (r: Result<(), LsmError>)
        ensures
            final(self).upper() == old(self).upper(),
            final(self).source().len() <= old(self).source().len(),
    {
        if !self.is_valid {
            return Ok(());
        }
        let ghost before = self.remaining();
        match self.next_inner() {
            Err(e) => {
                return Err(e);
            },
            Ok(()) => {},
        }
        assert(visible(self.source(), self.upper()) =~= rest(before));
        match self.move_to_non_delete() {
            Err(e) => {
                return Err(e);
            },
            Ok(()) => {},
        }
        Ok(())
    }
}

/// A cursor that stays where it is once it is not valid, whatever the
/// cursor inside would do.
pub struct FusedIterator<I: StorageIterator> {
    iter: I,
}

impl<I: StorageIterator> FusedIterator<I> {
    /// The cursor inside.
    pub closed spec fn inner(&self) -> I {
        self.iter
    }

    /// A fused cursor over `iter`.
    pub fn new(iter: I) -> (it: Self)
        ensures
            it.inner() == iter,
    {
        Self { iter }
    }
}

impl<I: StorageIterator> StorageIterator for FusedIterator<I> {
    open spec fn wf(&self) -> bool {
        self.inner().wf()
    }

    open spec fn remaining(&self) -> Seq<Entry> {
        self.inner().remaining()
    }

    open spec fn infallible() -> bool {
        I::infallible()
    }

    proof fn lemma_remaining_sorted(&self) {
        self.iter.lemma_remaining_sorted();
    }

    fn is_valid(&self) -> (b: bool) {
        self.iter.is_valid()
    }

    fn key(&self) -> (k: &[u8]) {
        self.iter.key()
    }

    fn value(&self) -> (v: &[u8]) {
        self.iter.value()
    }

    fn next(&mut self) -> (r: Result<(), LsmError>)
        ensures
            old(self).remaining().len() == 0 ==> r is Ok,
            old(self).remaining().len() == 0 ==> final(self).inner() == old(self).inner(),
    {
        if self.is_valid() {
            match self.iter.next() {
                Err(e) => {
                    return Err(e);
                },
                Ok(()) => {},
            }
        }
        Ok(())
    }
}

} // verus!
