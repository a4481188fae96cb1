//! The merge of any number of cursors of one kind, where the earlier cursor
//! wins.

use crate::error::LsmError;
use crate::iterators::{rest, StorageIterator};
use crate::iterators::merge_heap::{
    before, first_below, heap_members, heap_members_from, heap_ordered, lemma_before_total,
    lemma_before_transitive, lemma_heap_same, lemma_heap_top_moved, lemma_rise_step, lemma_risen,
    lemma_sink_step, lemma_sunk, lemma_sunk_to_bottom, lemma_swapped_members, lemma_top_first,
    lemma_total_len_shrinks, ordered_but_down, ordered_but_up, parent, swapped, total_len,
};
use crate::iterators::two_merge_iterator::{lemma_merge2_prefers_a, lemma_merge2_sorted, merge2};
use crate::key::{
    key_eq, key_le, key_lt, key_order, lemma_key_lt_asymmetric, lemma_key_lt_total,
    lemma_key_lt_transitive, KeyOrder,
};
use crate::run::{
    Entry, all_from, lemma_all_from_skip, lemma_sorted_all_from, lemma_sorted_cons, lookup, sorted,
};
use vstd::prelude::*;
use vstd::slice::slice_to_vec;

verus! {

/// The merge of any number of sorted runs: every key once, in order, and
/// where several runs hold a key, the entry of the run that comes first.
pub open spec fn merge_all(sources: Seq<Seq<Entry>>) -> Seq<Entry>
    decreases sources.len(),
{
    if sources.len() == 0 {
        Seq::empty()
    } else {
        merge2(sources[0], merge_all(sources.skip(1)))
    }
}

/// The value of `key` in the first of the runs that holds it.
pub open spec fn first_holding(sources: Seq<Seq<Entry>>, key: Seq<u8>) -> Option<Seq<u8>>
    decreases sources.len(),
{
    if sources.len() == 0 {
        None
    } else if lookup(sources[0], key) is Some {
        lookup(sources[0], key)
    } else {
        first_holding(sources.skip(1), key)
    }
}

/// Every run is sorted.
pub open spec fn all_sorted(sources: Seq<Seq<Entry>>) -> bool {
    forall|i: int| 0 <= i < sources.len() ==> sorted(#[trigger] sources[i])
}

/// The run without its first entry, if that entry has the key `key`.
pub open spec fn drop_key(s: Seq<Entry>, key: Seq<u8>) -> Seq<Entry> {
    if s.len() > 0 && s[0].0 == key {
        s.skip(1)
    } else {
        s
    }
}

/// Every run without its first entry, if that entry has the key `key`.
pub open spec fn drop_key_all(sources: Seq<Seq<Entry>>, key: Seq<u8>) -> Seq<Seq<Entry>> {
    Seq::new(sources.len(), |i: int| drop_key(sources[i], key))
}

/// Run `c` starts with the least key of all, and no run before it starts
/// with that key.
pub open spec fn leads(sources: Seq<Seq<Entry>>, c: int) -> bool {
    &&& 0 <= c < sources.len()
    &&& sources[c].len() > 0
    &&& forall|j: int|
        0 <= j < sources.len() && (#[trigger] sources[j]).len() > 0 ==> key_lt(
            sources[c][0].0,
            sources[j][0].0,
        ) || (sources[c][0].0 == sources[j][0].0 && c <= j)
}

/// No run holds an entry.
pub open spec fn all_empty(sources: Seq<Seq<Entry>>) -> bool {
    forall|i: int| 0 <= i < sources.len() ==> (#[trigger] sources[i]).len() == 0
}

/// The merge of two runs that hold nothing before `key` holds nothing
/// before it.
pub proof fn lemma_merge2_all_from(a: Seq<Entry>, b: Seq<Entry>, key: Seq<u8>)
    requires
        all_from(a, key),
        all_from(b, key),
    ensures
        all_from(merge2(a, b), key),
    decreases a.len() + b.len(),
{
    if a.len() == 0 || b.len() == 0 {
    } else {
        let (x, y) = if key_lt(a[0].0, b[0].0) {
            (a.skip(1), b)
        } else if key_lt(b[0].0, a[0].0) {
            (a, b.skip(1))
        } else {
            (a.skip(1), b.skip(1))
        };
        lemma_all_from_skip(a, key);
        lemma_all_from_skip(b, key);
        lemma_merge2_all_from(x, y, key);
        let m = merge2(a, b);
        assert forall|i: int| 0 <= i < m.len() implies key_le(key, #[trigger] m[i].0) by {
            if i > 0 {
                assert(m[i] == merge2(x, y)[i - 1]);
            }
        }
    }
}

/// Taking the key `key` off the front of two sorted runs that hold nothing
/// before it takes it off the front of their merge.
pub proof fn lemma_merge2_drop_key(a: Seq<Entry>, b: Seq<Entry>, key: Seq<u8>)
    requires
        sorted(a),
        sorted(b),
        all_from(a, key),
        all_from(b, key),
    ensures
        merge2(drop_key(a, key), drop_key(b, key)) == drop_key(merge2(a, b), key),
{
    if a.len() == 0 {
        assert(merge2(a, drop_key(b, key)) == drop_key(b, key));
    } else if b.len() == 0 {
        if drop_key(a, key).len() == 0 {
        }
    } else {
        lemma_key_lt_total(a[0].0, b[0].0);
        let m = merge2(a, b);
        if a[0].0 == key && b[0].0 == key {
            if key_lt(a[0].0, b[0].0) {
                lemma_key_lt_asymmetric(a[0].0, b[0].0);
            }
            assert(m.skip(1) =~= merge2(a.skip(1), b.skip(1)));
        } else if a[0].0 == key {
            assert(key_le(key, b[0].0));
            assert(key_lt(a[0].0, b[0].0));
            assert(m.skip(1) =~= merge2(a.skip(1), b));
        } else if b[0].0 == key {
            assert(key_le(key, a[0].0));
            assert(key_lt(b[0].0, a[0].0));
            lemma_key_lt_asymmetric(b[0].0, a[0].0);
            assert(m.skip(1) =~= merge2(a, b.skip(1)));
        } else {
            assert(m[0].0 == a[0].0 || m[0].0 == b[0].0);
        }
    }
}

/// The merge of sorted runs is sorted.
pub proof fn lemma_merge_all_sorted(sources: Seq<Seq<Entry>>)
    requires
        all_sorted(sources),
    ensures
        sorted(merge_all(sources)),
    decreases sources.len(),
{
    if sources.len() > 0 {
        let t = sources.skip(1);
        assert(all_sorted(t)) by {
            assert forall|i: int| 0 <= i < t.len() implies sorted(#[trigger] t[i]) by {
                assert(t[i] == sources[i + 1]);
            }
        }
        lemma_merge_all_sorted(t);
        lemma_merge2_sorted(sources[0], merge_all(t));
    }
}

/// The merge of runs that hold nothing before `key` holds nothing before it.
pub proof fn lemma_merge_all_from(sources: Seq<Seq<Entry>>, key: Seq<u8>)
    requires
        forall|i: int| 0 <= i < sources.len() ==> all_from(#[trigger] sources[i], key),
    ensures
        all_from(merge_all(sources), key),
    decreases sources.len(),
{
    if sources.len() > 0 {
        let t = sources.skip(1);
        assert forall|i: int| 0 <= i < t.len() implies all_from(#[trigger] t[i], key) by {
            assert(t[i] == sources[i + 1]);
        }
        lemma_merge_all_from(t, key);
        lemma_merge2_all_from(sources[0], merge_all(t), key);
    }
}

/// The merge of empty runs is empty.
pub proof fn lemma_merge_all_empty(sources: Seq<Seq<Entry>>)
    requires
        all_empty(sources),
    ensures
        merge_all(sources).len() == 0,
    decreases sources.len(),
{
    if sources.len() > 0 {
        let t = sources.skip(1);
        assert forall|i: int| 0 <= i < t.len() implies (#[trigger] t[i]).len() == 0 by {
            assert(t[i] == sources[i + 1]);
        }
        lemma_merge_all_empty(t);
    }
}

/// The merge starts with the first entry of the run that leads.
pub proof fn lemma_merge_all_head(sources: Seq<Seq<Entry>>, c: int)
    requires
        all_sorted(sources),
        leads(sources, c),
    ensures
        merge_all(sources).len() > 0,
        merge_all(sources)[0] == sources[c][0],
    decreases sources.len(),
{
    let t = sources.skip(1);
    let key = sources[c][0].0;
    assert(all_sorted(t)) by {
        assert forall|i: int| 0 <= i < t.len() implies sorted(#[trigger] t[i]) by {
            assert(t[i] == sources[i + 1]);
        }
    }
    if c == 0 {
        assert forall|i: int| 0 <= i < t.len() implies all_from(#[trigger] t[i], key) by {
            assert(t[i] == sources[i + 1]);
            if t[i].len() > 0 {
                assert(sources[i + 1].len() > 0);
            }
            lemma_sorted_all_from(t[i], key);
        }
        lemma_merge_all_from(t, key);
        let m = merge_all(t);
        if m.len() > 0 {
            assert(key_le(key, m[0].0));
            if key_lt(m[0].0, key) {
                lemma_key_lt_asymmetric(m[0].0, key);
            }
        }
    } else {
        assert(leads(t, c - 1)) by {
            assert(t[c - 1] == sources[c]);
            assert forall|j: int| 0 <= j < t.len() && (#[trigger] t[j]).len() > 0 implies key_lt(
                t[c - 1][0].0,
                t[j][0].0,
            ) || (t[c - 1][0].0 == t[j][0].0 && c - 1 <= j) by {
                assert(t[j] == sources[j + 1]);
            }
        }
        lemma_merge_all_head(t, c - 1);
        let m = merge_all(t);
        assert(m[0] == sources[c][0]);
        if sources[0].len() > 0 {
            assert(key_lt(key, sources[0][0].0));
            lemma_key_lt_asymmetric(key, sources[0][0].0);
        }
    }
}

/// Taking the least key off the front of every run that starts with it
/// takes it off the front of the merge.
pub proof fn lemma_merge_all_drop_key(sources: Seq<Seq<Entry>>, key: Seq<u8>)
    requires
        all_sorted(sources),
        forall|i: int| 0 <= i < sources.len() ==> all_from(#[trigger] sources[i], key),
    ensures
        merge_all(drop_key_all(sources, key)) == drop_key(merge_all(sources), key),
    decreases sources.len(),
{
    if sources.len() > 0 {
        let t = sources.skip(1);
        assert(all_sorted(t)) by {
            assert forall|i: int| 0 <= i < t.len() implies sorted(#[trigger] t[i]) by {
                assert(t[i] == sources[i + 1]);
            }
        }
        assert forall|i: int| 0 <= i < t.len() implies all_from(#[trigger] t[i], key) by {
            assert(t[i] == sources[i + 1]);
        }
        lemma_merge_all_drop_key(t, key);
        lemma_merge_all_sorted(t);
        lemma_merge_all_from(t, key);
        lemma_merge2_drop_key(sources[0], merge_all(t), key);
        assert(drop_key_all(sources, key).skip(1) =~= drop_key_all(t, key));
    }
}

/// Moving every run that starts with the least key past it leaves the rest
/// of the merge.
pub proof fn lemma_merge_all_step(sources: Seq<Seq<Entry>>, c: int)
    requires
        all_sorted(sources),
        leads(sources, c),
    ensures
        merge_all(drop_key_all(sources, sources[c][0].0)) == rest(merge_all(sources)),
{
    let key = sources[c][0].0;
    lemma_merge_all_head(sources, c);
    assert forall|i: int| 0 <= i < sources.len() implies all_from(#[trigger] sources[i], key) by {
        lemma_sorted_all_from(sources[i], key);
    }
    lemma_merge_all_drop_key(sources, key);
}

/// The merge of sorted runs is sorted, so it gives every key once; it holds
/// the keys of all the runs and no other; and the value that it gives for a
/// key is that of the first run that holds the key.
pub proof fn lemma_merge_all_prefers_first(sources: Seq<Seq<Entry>>, key: Seq<u8>)
    requires
        all_sorted(sources),
    ensures
        sorted(merge_all(sources)),
        lookup(merge_all(sources), key) == first_holding(sources, key),
    decreases sources.len(),
{
    lemma_merge_all_sorted(sources);
    if sources.len() > 0 {
        let t = sources.skip(1);
        assert(all_sorted(t)) by {
            assert forall|i: int| 0 <= i < t.len() implies sorted(#[trigger] t[i]) by {
                assert(t[i] == sources[i + 1]);
            }
        }
        lemma_merge_all_prefers_first(t, key);
        lemma_merge2_prefers_a(sources[0], merge_all(t), key);
    }
}

/// Merges any number of cursors of one kind. Where several hold a key, the
/// merged cursor gives the key once, with the entry of the cursor that came
/// first in the input.
///
/// The cursors stay in the order of the input. `current` is the place of the
/// cursor that the merged cursor stands on; `heap` holds the places of the
/// other cursors that are valid, as a binary heap: the cursor at the top is
/// the next to be taken, and every cursor is to be taken after the one at
/// half its place.
pub struct MergeIterator<I: StorageIterator> {
    iters: Vec<Box<I>>,
    heap: Vec<usize>,
    current: usize,
}

/// The runs that a list of cursors has yet to give.
pub open spec fn sources_of<I: StorageIterator>(iters: Seq<Box<I>>) -> Seq<Seq<Entry>> {
    Seq::new(iters.len(), |i: int| iters[i].remaining())
}

/// Every cursor of the list is well formed.
pub open spec fn all_wf<I: StorageIterator>(iters: Seq<Box<I>>) -> bool {
    forall|i: int| 0 <= i < iters.len() ==> (#[trigger] iters[i]).wf()
}

impl<I: StorageIterator> MergeIterator<I> {
    /// The runs that the merged cursors have yet to give, in input order.
    pub closed spec fn sources(&self) -> Seq<Seq<Entry>> {
        sources_of(self.iters@)
    }

    /// Every cursor that is valid is the current one or in the heap.
    closed spec fn covers(&self, current: int) -> bool {
        forall|i: int|
            0 <= i < self.iters@.len() && (#[trigger] self.sources()[i]).len() > 0 && i != current
                ==> self.heap@.contains(i as usize)
    }

    /// The heap holds valid cursors in order, and with `current` every valid
    /// cursor.
    closed spec fn heap_ok(&self, current: int) -> bool {
        &&& self.iters@.len() <= usize::MAX
        &&& all_wf(self.iters@)
        &&& heap_members(self.heap@, self.sources())
        &&& heap_ordered(self.heap@, self.sources())
        &&& self.covers(current)
        &&& !self.heap@.contains(current as usize)
    }

    /// The merge of `iters`, standing on its first entry.
    pub fn create(iters: Vec<Box<I>>) -> (it: Self)
        requires
            all_wf(iters@),
        ensures
            it.wf(),
            it.sources() == sources_of(iters@),
            it.remaining() == merge_all(sources_of(iters@)),
    {
        let n = iters.len();
        let mut it = Self { iters, heap: Vec::new(), current: n };
        let mut j: usize = 0;
        while j < n
            invariant
                n == it.iters@.len(),
                it.iters@ == iters@,
                it.current == n,
                j <= n,
                all_wf(it.iters@),
                heap_members(it.heap@, it.sources()),
                heap_ordered(it.heap@, it.sources()),
                forall|x: usize|
                    #[trigger] it.heap@.contains(x) <==> x < j && it.sources()[x as int].len() > 0,
            decreases n - j,
        {
            if it.iters[j].is_valid() {
                it.push_heap(j);
            }
            j += 1;
        }
        if it.heap.len() > 0 {
            proof {
                assert forall|p: int| 1 <= p < it.heap@.len() implies before(
                    it.sources(),
                    it.heap@[0] as int,
                    #[trigger] it.heap@[p] as int,
                ) by {
                    lemma_top_first(it.heap@, it.sources(), p);
                }
            }
            let ghost heap = it.heap@;
            let top = it.pop_heap();
            it.current = top;
            proof {
                assert forall|x: usize| it.heap@.contains(x) implies before(
                    it.sources(),
                    top as int,
                    x as int,
                ) by {
                    let p = choose|p: int| 0 <= p < heap.len() && heap[p] == x;
                    assert(p != 0);
                }
                assert(heap.contains(top)) by {
                    assert(heap[0] == top);
                }
            }
        }
        it
    }

    /// Every run is sorted.
    proof fn lemma_sources_sorted(&self)
        requires
            all_wf(self.iters@),
        ensures
            all_sorted(self.sources()),
    {
        assert forall|i: int| 0 <= i < self.sources().len() implies sorted(
            #[trigger] self.sources()[i],
        ) by {
            self.iters@[i].lemma_remaining_sorted();
        }
    }

    /// Whether the cursor at place `a` is to be taken before the one at `b`.
    fn comes_before(&self, a: usize, b: usize) -> (r: bool)
        requires
            all_wf(self.iters@),
            a < self.iters@.len(),
            b < self.iters@.len(),
            self.sources()[a as int].len() > 0,
            self.sources()[b as int].len() > 0,
        ensures
            r == before(self.sources(), a as int, b as int),
    {
        match key_order(self.iters[a].key(), self.iters[b].key()) {
            KeyOrder::Less => true,
            KeyOrder::Equal => a < b,
            KeyOrder::Greater => false,
        }
    }

    /// Exchanges the places at `a` and `b` of the heap.
    fn swap_heap(&mut self, a: usize, b: usize)
        requires
            a < old(self).heap@.len(),
            b < old(self).heap@.len(),
        ensures
            final(self).iters@ == old(self).iters@,
            final(self).current == old(self).current,
            final(self).heap@ == swapped(old(self).heap@, a as int, b as int),
    {
        let x = self.heap[a];
        let y = self.heap[b];
        self.heap[a] = y;
        self.heap[b] = x;
    }

    /// Lets the cursor at place `start` of the heap sink to where it
    /// belongs.
    fn sift_down(&mut self, start: usize)
        requires
            all_wf(old(self).iters@),
            heap_members(old(self).heap@, old(self).sources()),
            start < old(self).heap@.len(),
            ordered_but_down(old(self).heap@, old(self).sources(), start as int),
        ensures
            final(self).iters@ == old(self).iters@,
            final(self).current == old(self).current,
            heap_members(final(self).heap@, final(self).sources()),
            heap_ordered(final(self).heap@, final(self).sources()),
            final(self).heap@.len() == old(self).heap@.len(),
            forall|x: usize| #[trigger] final(self).heap@.contains(x) <==> old(self).heap@.contains(x),
    {
        let n = self.heap.len();
        let mut pos = start;
        loop
            invariant_except_break
                ordered_but_down(self.heap@, self.sources(), pos as int),
            invariant
                self.iters@ == old(self).iters@,
                self.current == old(self).current,
                all_wf(self.iters@),
                n == self.heap@.len(),
                n == old(self).heap@.len(),
                pos < n,
                heap_members(self.heap@, self.sources()),
                forall|x: usize| #[trigger] self.heap@.contains(x) <==> old(self).heap@.contains(x),
            ensures
                heap_ordered(self.heap@, self.sources()),
            decreases n - pos,
        {
            if pos > (n - 1) / 2 {
                proof {
                    lemma_sunk_to_bottom(self.heap@, self.sources(), pos as int);
                }
                break ;
            }
            let left = 2 * pos + 1;
            if left >= n {
                proof {
                    lemma_sunk_to_bottom(self.heap@, self.sources(), pos as int);
                }
                break ;
            }
            let right = left + 1;
            let mut least = left;
            if right < n && self.comes_before(self.heap[right], self.heap[left]) {
                least = right;
            }
            proof {
                if right < n {
                    lemma_before_total(
                        self.sources(),
                        self.heap@[left as int] as int,
                        self.heap@[right as int] as int,
                    );
                }
                assert(first_below(self.heap@, self.sources(), pos as int, least as int));
            }
            if self.comes_before(self.heap[least], self.heap[pos]) {
                proof {
                    lemma_sink_step(self.heap@, self.sources(), pos as int, least as int);
                    lemma_swapped_members(self.heap@, self.sources(), pos as int, least as int);
                }
                self.swap_heap(pos, least);
                pos = least;
            } else {
                proof {
                    lemma_sunk(self.heap@, self.sources(), pos as int, least as int);
                }
                break ;
            }
        }
    }

    /// Lets the cursor at place `start` of the heap rise to where it
    /// belongs.
    fn sift_up(&mut self, start: usize)
        requires
            all_wf(old(self).iters@),
            heap_members(old(self).heap@, old(self).sources()),
            start < old(self).heap@.len(),
            ordered_but_up(old(self).heap@, old(self).sources(), start as int),
        ensures
            final(self).iters@ == old(self).iters@,
            final(self).current == old(self).current,
            heap_members(final(self).heap@, final(self).sources()),
            heap_ordered(final(self).heap@, final(self).sources()),
            final(self).heap@.len() == old(self).heap@.len(),
            forall|x: usize| #[trigger] final(self).heap@.contains(x) <==> old(self).heap@.contains(x),
    {
        let n = self.heap.len();
        let mut pos = start;
        loop
            invariant_except_break
                ordered_but_up(self.heap@, self.sources(), pos as int),
            invariant
                self.iters@ == old(self).iters@,
                self.current == old(self).current,
                all_wf(self.iters@),
                n == self.heap@.len(),
                n == old(self).heap@.len(),
                pos < n,
                heap_members(self.heap@, self.sources()),
                forall|x: usize| #[trigger] self.heap@.contains(x) <==> old(self).heap@.contains(x),
            ensures
                heap_ordered(self.heap@, self.sources()),
            decreases pos,
        {
            if pos == 0 {
                proof {
                    lemma_risen(self.heap@, self.sources(), pos as int);
                }
                break ;
            }
            let up = (pos - 1) / 2;
            if self.comes_before(self.heap[pos], self.heap[up]) {
                proof {
                    lemma_rise_step(self.heap@, self.sources(), pos as int);
                    lemma_swapped_members(self.heap@, self.sources(), pos as int, up as int);
                }
                self.swap_heap(pos, up);
                pos = up;
            } else {
                proof {
                    lemma_before_total(
                        self.sources(),
                        self.heap@[pos as int] as int,
                        self.heap@[up as int] as int,
                    );
                    lemma_risen(self.heap@, self.sources(), pos as int);
                }
                break ;
            }
        }
    }

    /// Puts the place of a valid cursor into the heap.
    fn push_heap(&mut self, place: usize)
        requires
            all_wf(old(self).iters@),
            heap_members(old(self).heap@, old(self).sources()),
            heap_ordered(old(self).heap@, old(self).sources()),
            place < old(self).iters@.len(),
            old(self).sources()[place as int].len() > 0,
            !old(self).heap@.contains(place),
        ensures
            final(self).iters@ == old(self).iters@,
            final(self).current == old(self).current,
            heap_members(final(self).heap@, final(self).sources()),
            heap_ordered(final(self).heap@, final(self).sources()),
            forall|x: usize|
                #[trigger] final(self).heap@.contains(x) <==> old(self).heap@.contains(x) || x
                    == place,
    {
        let last = self.heap.len();
        self.heap.push(place);
        proof {
            let before_push = old(self).heap@;
            let heap = self.heap@;
            assert forall|p: int, q: int| 0 <= p < q < heap.len() implies #[trigger] heap[p]
                != #[trigger] heap[q] by {
                if q == last {
                    assert(before_push.contains(heap[p]));
                } else {
                    assert(heap[p] == before_push[p] && heap[q] == before_push[q]);
                }
            }
            assert forall|p: int| 1 <= p < heap.len() && p != last implies before(
                self.sources(),
                heap[parent(p)] as int,
                #[trigger] heap[p] as int,
            ) by {
                assert(heap[p] == before_push[p] && heap[parent(p)] == before_push[parent(p)]);
            }
            assert forall|x: usize| #[trigger] heap.contains(x) <==> before_push.contains(x) || x
                == place by {
                if heap.contains(x) {
                    let p = choose|p: int| 0 <= p < heap.len() && heap[p] == x;
                    if p < last {
                        assert(before_push[p] == x);
                    }
                }
                if before_push.contains(x) {
                    let p = choose|p: int| 0 <= p < before_push.len() && before_push[p] == x;
                    assert(heap[p] == x);
                }
                assert(heap[last as int] == place);
            }
        }
        self.sift_up(last);
    }

    /// Takes the place at the top out of the heap after the cursor there
    /// has failed, and puts the last place of the heap there. Nothing is
    /// known of the merge after that.
    fn drop_top(&mut self)
        requires
            old(self).heap@.len() > 0,
        ensures
            final(self).iters@ == old(self).iters@,
            final(self).current == old(self).current,
            final(self).heap@ == if old(self).heap@.len() == 1 {
                Seq::<usize>::empty()
            } else {
                old(self).heap@.drop_last().update(0, old(self).heap@.last())
            },
    {
        let last = self.heap.pop();
        if self.heap.len() > 0 {
            if let Some(place) = last {
                self.heap[0] = place;
            }
        }
    }

    /// Takes the place at the top out of the heap. The cursor at the top
    /// may be one that is valid no more, or one that has moved on.
    fn pop_heap(&mut self) -> (top: usize)
        requires
            all_wf(old(self).iters@),
            heap_members_from(old(self).heap@, old(self).sources(), 1),
            old(self).heap@.len() > 0,
            ordered_but_down(old(self).heap@, old(self).sources(), 0),
        ensures
            final(self).iters@ == old(self).iters@,
            final(self).current == old(self).current,
            top == old(self).heap@[0],
            heap_members(final(self).heap@, final(self).sources()),
            heap_ordered(final(self).heap@, final(self).sources()),
            final(self).heap@.len() == old(self).heap@.len() - 1,
            forall|x: usize|
                #[trigger] final(self).heap@.contains(x) <==> old(self).heap@.contains(x) && x
                    != top,
    {
        let top = self.heap[0];
        let last = self.heap.pop().unwrap();
        let ghost before_pop = old(self).heap@;
        if self.heap.len() > 0 {
            self.heap[0] = last;
            proof {
                let heap = self.heap@;
                let n = heap.len() as int;
                assert forall|p: int| 0 <= p < n implies #[trigger] heap[p] == if p == 0 {
                    before_pop[n]
                } else {
                    before_pop[p]
                } by {}
                assert forall|p: int, q: int| 0 <= p < q < n implies #[trigger] heap[p]
                    != #[trigger] heap[q] by {
                    if p == 0 {
                        assert(before_pop[q] != before_pop[n]);
                    }
                }
                assert(heap_members(heap, self.sources()));
                assert forall|x: usize| #[trigger] heap.contains(x) <==> before_pop.contains(x)
                    && x != top by {
                    if heap.contains(x) {
                        let p = choose|p: int| 0 <= p < n && heap[p] == x;
                        if p == 0 {
                            assert(before_pop[n] == x);
                            assert(before_pop[0] != before_pop[n]);
                        } else {
                            assert(before_pop[p] == x);
                            assert(before_pop[0] != before_pop[p]);
                        }
                    }
                    if before_pop.contains(x) && x != top {
                        let p = choose|p: int| 0 <= p < before_pop.len() && before_pop[p] == x;
                        if p == n {
                            assert(heap[0] == x);
                        } else {
                            assert(heap[p] == x);
                        }
                    }
                }
                assert(ordered_but_down(heap, self.sources(), 0)) by {
                    assert forall|p: int| 1 <= p < n && parent(p) != 0 implies before(
                        self.sources(),
                        heap[parent(p)] as int,
                        #[trigger] heap[p] as int,
                    ) by {
                        assert(heap[p] == before_pop[p]);
                        assert(heap[parent(p)] == before_pop[parent(p)]);
                    }
                }
            }
            self.sift_down(0);
        } else {
            proof {
                assert forall|x: usize| #[trigger] self.heap@.contains(x) <==> before_pop.contains(
                    x,
                ) && x != top by {
                    if before_pop.contains(x) {
                        let p = choose|p: int| 0 <= p < before_pop.len() && before_pop[p] == x;
                        assert(p == 0);
                    }
                }
            }
        }
        top
    }

    /// What `wf` says, with the fields in view.
    proof fn lemma_wf(&self)
        requires
            self.wf(),
        ensures
            all_wf(self.iters@),
            all_sorted(self.sources()),
            self.current <= self.iters@.len(),
            self.current < self.iters@.len() ==> leads(self.sources(), self.current as int),
            self.current < self.iters@.len() ==> self.remaining().len() > 0 && self.remaining()[0]
                == self.sources()[self.current as int][0],
            self.current == self.iters@.len() ==> self.remaining().len() == 0,
    {
        self.lemma_sources_sorted();
        let src = self.sources();
        let c = self.current as int;
        if self.current < self.iters@.len() {
            assert forall|j: int| 0 <= j < src.len() && (#[trigger] src[j]).len() > 0 implies key_lt(
                src[c][0].0,
                src[j][0].0,
            ) || (src[c][0].0 == src[j][0].0 && c <= j) by {
                if j != c {
                    assert(self.heap@.contains(j as usize));
                }
            }
            lemma_merge_all_head(src, c);
        } else {
            assert forall|i: int| 0 <= i < src.len() implies (#[trigger] src[i]).len() == 0 by {
                if src[i].len() > 0 {
                    assert(self.heap@.contains(i as usize));
                }
            }
            lemma_merge_all_empty(src);
        }
    }
}

impl<I: StorageIterator> StorageIterator for MergeIterator<I> {
    closed spec fn wf(&self) -> bool {
        &&& self.heap_ok(self.current as int)
        &&& self.current <= self.iters@.len()
        &&& self.current < self.iters@.len() ==> {
            &&& self.sources()[self.current as int].len() > 0
            &&& forall|x: usize|
                #[trigger] self.heap@.contains(x) ==> before(
                    self.sources(),
                    self.current as int,
                    x as int,
                )
        }
        &&& self.current == self.iters@.len() ==> self.heap@.len() == 0
    }

    closed spec fn remaining(&self) -> Seq<Entry> {
        merge_all(self.sources())
    }

    open spec fn infallible() -> bool {
        I::infallible()
    }

    proof fn lemma_remaining_sorted(&self) {
        self.lemma_sources_sorted();
        lemma_merge_all_sorted(self.sources());
    }

    fn value(&self) -> (v: &[u8]) {
        proof {
            self.lemma_wf();
        }
        if self.current < self.iters.len() {
            self.iters[self.current].value()
        } else {
            &[]
        }
    }

    fn key(&self) -> (k: &[u8]) {
        proof {
            self.lemma_wf();
        }
        if self.current < self.iters.len() {
            self.iters[self.current].key()
        } else {
            &[]
        }
    }

    fn is_valid(&self) -> (b: bool) {
        proof {
            self.lemma_wf();
        }
        self.current < self.iters.len()
    }

    fn next(&mut self) -> (r: Result<(), LsmError>) {
        proof {
            self.lemma_wf();
        }
        let n = self.iters.len();
        if self.current >= n {
            return Ok(());
        }
        let current = self.current;
        let key = slice_to_vec(self.iters[current].key());
        let ghost start = self.sources();
        proof {
            lemma_merge_all_step(start, current as int);
        }
        // Move the cursors of the heap that stand on the same key past it.
        match self.skip_same_key(key.as_slice()) {
            Err(e) => {
                return Err(e);
            },
            Ok(()) => {},
        }
        // Move the cursor that the merge stands on.
        let ghost src = self.sources();
        match self.iters[current].next() {
            Err(e) => {
                return Err(e);
            },
            Ok(()) => {},
        }
        proof {
            let now = self.sources();
            assert forall|i: int| 0 <= i < n && i != current implies #[trigger] now[i] == src[i] by {}
            assert(now =~= drop_key_all(start, key@));
            assert forall|p: int| 0 <= p < self.heap@.len() implies now[(
            #[trigger] self.heap@[p]) as int] == src[self.heap@[p] as int] by {
                assert(self.heap@.contains(self.heap@[p]));
            }
            lemma_heap_same(self.heap@, src, now);
            assert(self.covers(current as int)) by {
                assert forall|i: int|
                    0 <= i < n && (#[trigger] now[i]).len() > 0 && i
                        != current implies self.heap@.contains(i as usize) by {
                    assert(src[i].len() > 0);
                }
            }
        }
        self.settle();
        Ok(())
    }
}

impl<I: StorageIterator> MergeIterator<I> {
    /// Moves every cursor of the heap that stands on `key` past it. The
    /// cursor that the merge stands on stands on `key` too, and stays.
    fn skip_same_key(&mut self, key: &[u8]) -> (r: Result<(), LsmError>)
        requires
            old(self).wf(),
            old(self).current < old(self).iters@.len(),
            key@ == old(self).sources()[old(self).current as int][0].0,
        ensures
            r is Ok ==> {
                &&& final(self).current == old(self).current
                &&& final(self).iters@.len() == old(self).iters@.len()
                &&& final(self).heap_ok(old(self).current as int)
                &&& final(self).sources()[old(self).current as int] == old(self).sources()[old(
                    self,
                ).current as int]
                &&& forall|i: int|
                    0 <= i < old(self).iters@.len() && i != old(self).current
                        ==> #[trigger] final(self).sources()[i] == drop_key(
                        old(self).sources()[i],
                        key@,
                    )
            },
            I::infallible() ==> r is Ok,
    {
        let n = self.iters.len();
        let current = self.current;
        let ghost start = self.sources();
        proof {
            self.lemma_sources_sorted();
            assert forall|x: usize| #[trigger] self.heap@.contains(x) implies key_le(
                key@,
                start[x as int][0].0,
            ) by {
                assert(before(start, current as int, x as int));
            }
        }
        while self.heap.len() > 0 && key_eq(self.iters[self.heap[0]].key(), key)
            invariant
                n == self.iters@.len(),
                start.len() == n,
                self.current == current,
                current < n,
                self.heap_ok(current as int),
                all_sorted(start),
                start[current as int].len() > 0,
                key@ == start[current as int][0].0,
                self.sources()[current as int] == start[current as int],
                forall|i: int|
                    0 <= i < n ==> #[trigger] self.sources()[i] == start[i] || (start[i].len() > 0
                        && start[i][0].0 == key@ && self.sources()[i] == start[i].skip(1)),
                forall|x: usize|
                    #[trigger] self.heap@.contains(x) ==> key_le(
                        key@,
                        self.sources()[x as int][0].0,
                    ),
            decreases total_len(self.sources()),
        {
            let top = self.heap[0];
            let ghost heap = self.heap@;
            let ghost src = self.sources();
            proof {
                assert(heap.contains(top)) by {
                    assert(heap[0] == top);
                }
                // the cursor at the top has not moved yet
                if src[top as int] != start[top as int] {
                    lemma_sorted_cons(start[top as int]);
                    assert(src[top as int][0] == start[top as int][1]);
                    lemma_key_lt_asymmetric(start[top as int][0].0, start[top as int][1].0);
                }
            }
            match self.iters[top].next() {
                Err(e) => {
                    // The cursor that failed leaves the heap.
                    self.drop_top();
                    return Err(e);
                },
                Ok(()) => {},
            }
            let ghost now = self.sources();
            proof {
                assert(now[top as int] == src[top as int].skip(1));
                assert forall|i: int| 0 <= i < n && i != top implies #[trigger] now[i] == src[i] by {}
                lemma_total_len_shrinks(src, now, top as int);
                lemma_heap_top_moved(heap, src, now);
                if now[top as int].len() > 0 {
                    lemma_sorted_cons(src[top as int]);
                    assert(now[top as int][0] == src[top as int][1]);
                }
            }
            if !self.iters[top].is_valid() {
                let _ = self.pop_heap();
            } else {
                self.sift_down(0);
            }
            proof {
                assert forall|x: usize| #[trigger] self.heap@.contains(x) implies key_le(
                    key@,
                    now[x as int][0].0,
                ) by {
                    assert(heap.contains(x));
                    if x != top {
                        assert(now[x as int] == src[x as int]);
                    }
                }
                assert(self.covers(current as int)) by {
                    assert forall|i: int|
                        0 <= i < n && (#[trigger] now[i]).len() > 0 && i
                            != current implies self.heap@.contains(i as usize) by {
                        if i != top {
                            assert(src[i] == now[i]);
                            assert(heap.contains(i as usize));
                        }
                    }
                }
                assert(!self.heap@.contains(current));
            }
        }
        proof {
            // No cursor of the heap stands on the key now.
            let heap = self.heap@;
            let src = self.sources();
            assert forall|x: usize| #[trigger] heap.contains(x) implies src[x as int][0].0
                != key@ by {
                let p = choose|p: int| 0 <= p < heap.len() && heap[p] == x;
                let top = heap[0] as int;
                assert(heap.contains(heap[0]));
                assert(key_lt(key@, src[top][0].0));
                if p > 0 {
                    lemma_top_first(heap, src, p);
                    if src[top][0].0 != src[x as int][0].0 {
                        lemma_key_lt_transitive(key@, src[top][0].0, src[x as int][0].0);
                    }
                }
                lemma_key_lt_asymmetric(key@, src[x as int][0].0);
            }
            assert forall|i: int| 0 <= i < n && i != current implies #[trigger] src[i] == drop_key(
                start[i],
                key@,
            ) by {
                if src[i] == start[i] && start[i].len() > 0 {
                    assert(heap.contains(i as usize));
                }
            }
        }
        Ok(())
    }

    /// Finds the cursor for the merge to stand on, after the cursor that it
    /// stood on has moved: that cursor again; or the cursor at the top of
    /// the heap, where that one is to be taken first or the other has come
    /// to its end.
    fn settle(&mut self)
        requires
            old(self).heap_ok(old(self).current as int),
            old(self).current < old(self).iters@.len(),
        ensures
            final(self).wf(),
            final(self).iters@ == old(self).iters@,
    {
        let n = self.iters.len();
        let current = self.current;
        let ghost heap = self.heap@;
        let ghost src = self.sources();
        proof {
            assert forall|p: int| 1 <= p < heap.len() implies before(
                src,
                heap[0] as int,
                #[trigger] heap[p] as int,
            ) by {
                lemma_top_first(heap, src, p);
            }
            if heap.len() > 0 {
                assert(heap.contains(heap[0]));
            }
        }
        if !self.iters[current].is_valid() {
            // The cursor is at its end: the next of the heap takes its place.
            if self.heap.len() > 0 {
                let top = self.pop_heap();
                self.current = top;
                proof {
                    assert forall|x: usize| #[trigger] self.heap@.contains(x) implies before(
                        src,
                        top as int,
                        x as int,
                    ) by {
                        let p = choose|p: int| 0 <= p < heap.len() && heap[p] == x;
                        assert(p != 0);
                    }
                    assert(self.covers(top as int)) by {
                        assert forall|i: int|
                            0 <= i < n && (#[trigger] src[i]).len() > 0 && i
                                != top implies self.heap@.contains(i as usize) by {
                            assert(heap.contains(i as usize));
                        }
                    }
                }
            } else {
                self.current = n;
                proof {
                    assert(self.covers(n as int)) by {
                        assert forall|i: int|
                            0 <= i < n && (#[trigger] src[i]).len() > 0 && i
                                != n implies self.heap@.contains(i as usize) by {
                            if i != current {
                                assert(heap.contains(i as usize));
                            }
                        }
                    }
                    assert(!self.heap@.contains(n));
                }
            }
            return ;
        }
        // Otherwise the cursor changes places with the top of the heap where
        // that one is to be taken first.
        if self.heap.len() > 0 && self.comes_before(self.heap[0], current) {
            let top = self.heap[0];
            self.heap[0] = current;
            self.current = top;
            let ghost changed = self.heap@;
            proof {
                assert forall|p: int| 0 <= p < changed.len() implies #[trigger] changed[p] == if p
                    == 0 {
                    current
                } else {
                    heap[p]
                } by {}
                assert forall|p: int, q: int| 0 <= p < q < changed.len() implies #[trigger] changed[p]
                    != #[trigger] changed[q] by {
                    if p == 0 {
                        assert(heap.contains(heap[q]));
                    }
                }
                assert(heap_members(changed, src));
                assert(ordered_but_down(changed, src, 0)) by {
                    assert forall|p: int| 1 <= p < changed.len() && parent(p) != 0 implies before(
                        src,
                        changed[parent(p)] as int,
                        #[trigger] changed[p] as int,
                    ) by {
                        assert(changed[p] == heap[p] && changed[parent(p)] == heap[parent(p)]);
                    }
                }
            }
            self.sift_down(0);
            proof {
                assert forall|x: usize| #[trigger] self.heap@.contains(x) implies before(
                    src,
                    top as int,
                    x as int,
                ) && x != top by {
                    assert(changed.contains(x));
                    let p = choose|p: int| 0 <= p < changed.len() && changed[p] == x;
                    if p > 0 {
                        assert(heap[p] == x);
                        assert(heap[0] != heap[p]);
                    }
                }
                assert(self.covers(top as int)) by {
                    assert forall|i: int|
                        0 <= i < n && (#[trigger] src[i]).len() > 0 && i
                            != top implies self.heap@.contains(i as usize) by {
                        if i == current {
                            assert(changed[0] == current);
                            assert(changed.contains(i as usize));
                        } else {
                            assert(heap.contains(i as usize));
                            let p = choose|p: int| 0 <= p < heap.len() && heap[p] == i as usize;
                            assert(changed[p] == i as usize);
                            assert(changed.contains(i as usize));
                        }
                    }
                }
            }
        } else {
            proof {
                if heap.len() > 0 {
                    lemma_before_total(src, heap[0] as int, current as int);
                    assert forall|x: usize| #[trigger] self.heap@.contains(x) implies before(
                        src,
                        current as int,
                        x as int,
                    ) by {
                        let p = choose|p: int| 0 <= p < heap.len() && heap[p] == x;
                        if p > 0 {
                            lemma_before_transitive(src, current as int, heap[0] as int, x as int);
                        }
                    }
                }
            }
        }
    }
}

} // verus!
