//! The merge of two cursors of different kinds, where the first wins.

use crate::error::LsmError;
use crate::iterators::{rest, StorageIterator};
use crate::key::{
    key_eq, key_lt, key_order, lemma_key_lt_asymmetric, lemma_key_lt_total,
    lemma_key_lt_transitive, KeyOrder,
};
use crate::run::{Entry, all_after, lemma_lookup_all_after, lemma_sorted_cons, lookup, sorted};
use vstd::prelude::*;

verus! {

/// The merge of two sorted runs into one: every key once, in order, and
/// where both runs hold a key, the entry of `a`.
pub open spec fn merge2(a: Seq<Entry>, b: Seq<Entry>) -> Seq<Entry>
    decreases a.len() + b.len(),
{
    if a.len() == 0 {
        b
    } else if b.len() == 0 {
        a
    } else if key_lt(a[0].0, b[0].0) {
        seq![a[0]] + merge2(a.skip(1), b)
    } else if key_lt(b[0].0, a[0].0) {
        seq![b[0]] + merge2(a, b.skip(1))
    } else {
        seq![a[0]] + merge2(a.skip(1), b.skip(1))
    }
}

/// What comes after `key` in both runs comes after it in their merge.
pub proof fn lemma_merge2_all_after(a: Seq<Entry>, b: Seq<Entry>, key: Seq<u8>)
    requires
        all_after(a, key),
        all_after(b, key),
    ensures
        all_after(merge2(a, b), key),
    decreases a.len() + b.len(),
{
    if a.len() == 0 || b.len() == 0 {
    } else {
        let (x, y) = if key_lt(a[0].0, b[0].0) {
            (a.skip(1), b)
        } else if key_lt(b[0].0, a[0].0) {
            (a, b.skip(1))
        } else {
            (a.skip(1), b.skip(1))
        };
        assert(all_after(a.skip(1), key)) by {
            assert forall|i: int| 0 <= i < a.skip(1).len() implies key_lt(
                key,
                #[trigger] a.skip(1)[i].0,
            ) by {
                assert(a.skip(1)[i] == a[i + 1]);
            }
        }
        assert(all_after(b.skip(1), key)) by {
            assert forall|i: int| 0 <= i < b.skip(1).len() implies key_lt(
                key,
                #[trigger] b.skip(1)[i].0,
            ) by {
                assert(b.skip(1)[i] == b[i + 1]);
            }
        }
        lemma_merge2_all_after(x, y, key);
        let m = merge2(a, b);
        assert forall|i: int| 0 <= i < m.len() implies key_lt(key, #[trigger] m[i].0) by {
            if i > 0 {
                assert(m[i] == merge2(x, y)[i - 1]);
            }
        }
    }
}

/// The merge of two sorted runs is sorted.
pub proof fn lemma_merge2_sorted(a: Seq<Entry>, b: Seq<Entry>)
    requires
        sorted(a),
        sorted(b),
    ensures
        sorted(merge2(a, b)),
    decreases a.len() + b.len(),
{
    if a.len() == 0 || b.len() == 0 {
    } else {
        lemma_sorted_cons(a);
        lemma_sorted_cons(b);
        lemma_key_lt_total(a[0].0, b[0].0);
        let m = merge2(a, b);
        if key_lt(a[0].0, b[0].0) {
            lemma_merge2_sorted(a.skip(1), b);
            assert(all_after(b, a[0].0)) by {
                assert forall|i: int| 0 <= i < b.len() implies key_lt(a[0].0, #[trigger] b[i].0) by {
                    if i > 0 {
                        lemma_key_lt_transitive(a[0].0, b[0].0, b[i].0);
                    }
                }
            }
            lemma_merge2_all_after(a.skip(1), b, a[0].0);
            assert(m.skip(1) =~= merge2(a.skip(1), b));
        } else if key_lt(b[0].0, a[0].0) {
            lemma_merge2_sorted(a, b.skip(1));
            assert(all_after(a, b[0].0)) by {
                assert forall|i: int| 0 <= i < a.len() implies key_lt(b[0].0, #[trigger] a[i].0) by {
                    if i > 0 {
                        lemma_key_lt_transitive(b[0].0, a[0].0, a[i].0);
                    }
                }
            }
            lemma_merge2_all_after(a, b.skip(1), b[0].0);
            assert(m.skip(1) =~= merge2(a, b.skip(1)));
        } else {
            lemma_merge2_sorted(a.skip(1), b.skip(1));
            lemma_merge2_all_after(a.skip(1), b.skip(1), a[0].0);
            assert(m.skip(1) =~= merge2(a.skip(1), b.skip(1)));
        }
        lemma_sorted_cons(m);
    }
}

/// Where the two runs start with the same key, the first entry of `b` makes
/// no difference to the merge.
pub proof fn lemma_merge2_skip_equal(a: Seq<Entry>, b: Seq<Entry>)
    requires
        sorted(b),
        a.len() > 0,
        b.len() > 0,
        a[0].0 == b[0].0,
    ensures
        merge2(a, b.skip(1)) == merge2(a, b),
{
    if key_lt(a[0].0, b[0].0) {
        lemma_key_lt_asymmetric(a[0].0, b[0].0);
    }
    let t = b.skip(1);
    if t.len() == 0 {
        assert(merge2(a.skip(1), t) =~= a.skip(1));
        assert(a =~= seq![a[0]] + a.skip(1));
    } else {
        assert(t[0] == b[1]);
        assert(key_lt(a[0].0, t[0].0));
    }
}

/// The first entry of a merge is the first entry of `a` where `a` starts
/// first or `b` is empty, and the rest is the merge of the rest.
pub proof fn lemma_merge2_take_a(a: Seq<Entry>, b: Seq<Entry>)
    requires
        a.len() > 0,
        b.len() == 0 || key_lt(a[0].0, b[0].0),
    ensures
        merge2(a, b).len() > 0,
        merge2(a, b)[0] == a[0],
        rest(merge2(a, b)) == merge2(a.skip(1), b),
{
    if b.len() == 0 {
        assert(merge2(a.skip(1), b) =~= a.skip(1));
    } else {
        assert(merge2(a, b).skip(1) =~= merge2(a.skip(1), b));
    }
}

/// The first entry of a merge is the first entry of `b` where `b` starts
/// first or `a` is empty, and the rest is the merge of the rest.
pub proof fn lemma_merge2_take_b(a: Seq<Entry>, b: Seq<Entry>)
    requires
        b.len() > 0,
        a.len() == 0 || key_lt(b[0].0, a[0].0),
    ensures
        merge2(a, b).len() > 0,
        merge2(a, b)[0] == b[0],
        rest(merge2(a, b)) == merge2(a, b.skip(1)),
{
    if a.len() == 0 {
        assert(merge2(a, b.skip(1)) =~= b.skip(1));
    } else {
        lemma_key_lt_asymmetric(b[0].0, a[0].0);
        assert(merge2(a, b).skip(1) =~= merge2(a, b.skip(1)));
    }
}

/// The merge of two sorted runs is sorted, holds the keys of both and no
/// other, and gives for a key the value of `a` where `a` holds the key.
pub proof fn lemma_merge2_prefers_a(a: Seq<Entry>, b: Seq<Entry>, key: Seq<u8>)
    requires
        sorted(a),
        sorted(b),
    ensures
        sorted(merge2(a, b)),
        lookup(merge2(a, b), key) == if lookup(a, key) is Some {
            lookup(a, key)
        } else {
            lookup(b, key)
        },
    decreases a.len() + b.len(),
{
    lemma_merge2_sorted(a, b);
    if a.len() == 0 || b.len() == 0 {
    } else {
        lemma_sorted_cons(a);
        lemma_sorted_cons(b);
        lemma_key_lt_total(a[0].0, b[0].0);
        let m = merge2(a, b);
        if key_lt(a[0].0, b[0].0) {
            lemma_merge2_prefers_a(a.skip(1), b, key);
            assert(m.skip(1) =~= merge2(a.skip(1), b));
            if key == a[0].0 {
            } else {
            }
        } else if key_lt(b[0].0, a[0].0) {
            lemma_merge2_prefers_a(a, b.skip(1), key);
            assert(m.skip(1) =~= merge2(a, b.skip(1)));
            lemma_key_lt_asymmetric(b[0].0, a[0].0);
            if key == b[0].0 {
                assert(all_after(a, key)) by {
                    assert forall|i: int| 0 <= i < a.len() implies key_lt(key, #[trigger] a[i].0) by {
                        if i > 0 {
                            lemma_key_lt_transitive(key, a[0].0, a[i].0);
                        }
                    }
                }
                lemma_lookup_all_after(a, key);
            }
        } else {
            lemma_merge2_prefers_a(a.skip(1), b.skip(1), key);
            assert(m.skip(1) =~= merge2(a.skip(1), b.skip(1)));
        }
    }
}

/// Merges two cursors of different kinds into one. Where both hold a key,
/// the merged cursor gives the key once, with the entry of `a`.
pub struct TwoMergeIterator<A: StorageIterator, B: StorageIterator> {
    a: A,
    b: B,
    choose_a: bool,
}

/// Whether the merged cursor stands on the entry of `a`: `a` is valid, and
/// `b` is not or starts later.
pub open spec fn picks_a(a: Seq<Entry>, b: Seq<Entry>) -> bool {
    a.len() > 0 && (b.len() == 0 || key_lt(a[0].0, b[0].0))
}

/// The two runs do not start with the same key.
pub open spec fn heads_differ(a: Seq<Entry>, b: Seq<Entry>) -> bool {
    a.len() > 0 && b.len() > 0 ==> a[0].0 != b[0].0
}

impl<A: StorageIterator, B: StorageIterator> TwoMergeIterator<A, B> {
    /// The merge of `a` and `b`, standing on its first entry.
    pub fn create(a: A, b: B) -> (r: Result<Self, LsmError>)
        requires
            a.wf(),
            b.wf(),
        ensures
            r is Ok ==> r->Ok_0.wf() && r->Ok_0.remaining() == merge2(
                a.remaining(),
                b.remaining(),
            ),
            A::infallible() && B::infallible() ==> r is Ok,
    {
        let mut iter = Self { a, b, choose_a: false };
        match iter.skip_b() {
            Err(e) => {
                return Err(e);
            },
            Ok(()) => {},
        }
        iter.choose_a = Self::choose_a(&iter.a, &iter.b);
        Ok(iter)
    }

    /// Whether to stand on the entry of `a`.
    fn choose_a(a: &A, b: &B) -> (c: bool)
        requires
            a.wf(),
            b.wf(),
        ensures
            heads_differ(a.remaining(), b.remaining()) ==> c == picks_a(
                a.remaining(),
                b.remaining(),
            ),
    {
        if !a.is_valid() {
            return false;
        }
        if !b.is_valid() {
            return true;
        }
        key_order(a.key(), b.key()) == KeyOrder::Less
    }

    /// Moves `b` past the key that `a` stands on.
    fn skip_b(&mut self) -> (r: Result<(), LsmError>)
        requires
            old(self).a.wf(),
            old(self).b.wf(),
        ensures
            r is Ok ==> {
                &&& final(self).a == old(self).a
                &&& final(self).choose_a == old(self).choose_a
                &&& final(self).b.wf()
                &&& heads_differ(final(self).a.remaining(), final(self).b.remaining())
                &&& merge2(final(self).a.remaining(), final(self).b.remaining()) == merge2(
                    old(self).a.remaining(),
                    old(self).b.remaining(),
                )
            },
            B::infallible() ==> r is Ok,
    {
        if self.a.is_valid() {
            while self.b.is_valid() && key_eq(self.b.key(), self.a.key())
                invariant
                    self.a == old(self).a,
                    self.choose_a == old(self).choose_a,
                    self.a.wf(),
                    self.b.wf(),
                    self.a.remaining().len() > 0,
                    merge2(self.a.remaining(), self.b.remaining()) == merge2(
                        old(self).a.remaining(),
                        old(self).b.remaining(),
                    ),
                decreases self.b.remaining().len(),
            {
                proof {
                    self.b.lemma_remaining_sorted();
                    lemma_merge2_skip_equal(self.a.remaining(), self.b.remaining());
                }
                match self.b.next() {
                    Err(e) => {
                        return Err(e);
                    },
                    Ok(()) => {},
                }
            }
        }
        Ok(())
    }
}

impl<A: StorageIterator, B: StorageIterator> StorageIterator for TwoMergeIterator<A, B> {
    closed spec fn wf(&self) -> bool {
        &&& self.a.wf()
        &&& self.b.wf()
        &&& heads_differ(self.a.remaining(), self.b.remaining())
        &&& self.choose_a == picks_a(self.a.remaining(), self.b.remaining())
    }

    closed spec fn remaining(&self) -> Seq<Entry> {
        merge2(self.a.remaining(), self.b.remaining())
    }

    open spec fn infallible() -> bool {
        A::infallible() && B::infallible()
    }

    proof fn lemma_remaining_sorted(&self) {
        self.a.lemma_remaining_sorted();
        self.b.lemma_remaining_sorted();
        lemma_merge2_sorted(self.a.remaining(), self.b.remaining());
    }

    fn value(&self) -> (v: &[u8]) {
        proof {
            self.lemma_head();
        }
        if self.choose_a {
            self.a.value()
        } else {
            self.b.value()
        }
    }

    fn key(&self) -> (k: &[u8]) {
        proof {
            self.lemma_head();
        }
        if self.choose_a {
            self.a.key()
        } else {
            self.b.key()
        }
    }

    fn is_valid(&self) -> (b: bool) {
        proof {
            self.lemma_head();
        }
        if self.choose_a {
            self.a.is_valid()
        } else {
            self.b.is_valid()
        }
    }

    fn next(&mut self) -> (r: Result<(), LsmError>) {
        proof {
            self.lemma_head();
        }
        if self.choose_a {
            match self.a.next() {
                Err(e) => {
                    return Err(e);
                },
                Ok(()) => {},
            }
        } else {
            match self.b.next() {
                Err(e) => {
                    return Err(e);
                },
                Ok(()) => {},
            }
        }
        match self.skip_b() {
            Err(e) => {
                return Err(e);
            },
            Ok(()) => {},
        }
        self.choose_a = Self::choose_a(&self.a, &self.b);
        Ok(())
    }
}

impl<A: StorageIterator, B: StorageIterator> TwoMergeIterator<A, B> {
    /// The merged cursor stands on the entry of the child that it chose, and
    /// moving that child on leaves the rest of the merge.
    proof fn lemma_head(&self)
        requires
            self.wf(),
        ensures
            self.choose_a ==> {
                &&& self.a.remaining().len() > 0
                &&& self.remaining().len() > 0
                &&& self.remaining()[0] == self.a.remaining()[0]
                &&& rest(self.remaining()) == merge2(
                    rest(self.a.remaining()),
                    self.b.remaining(),
                )
            },
            !self.choose_a ==> {
                &&& (self.remaining().len() > 0) == (self.b.remaining().len() > 0)
                &&& self.b.remaining().len() > 0 ==> self.remaining()[0] == self.b.remaining()[0]
                &&& rest(self.remaining()) == merge2(
                    self.a.remaining(),
                    rest(self.b.remaining()),
                )
            },
    {
        let a = self.a.remaining();
        let b = self.b.remaining();
        if self.choose_a {
            lemma_merge2_take_a(a, b);
        } else if b.len() > 0 {
            if a.len() > 0 {
                lemma_key_lt_total(a[0].0, b[0].0);
            }
            lemma_merge2_take_b(a, b);
        } else {
        }
    }
}

} // verus!
