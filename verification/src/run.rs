//! Runs of entries: what it means for a run to be sorted by key, where a key
//! stands in a sorted run, and which value a run holds for a key.

use crate::key::{
    key_le, key_lt, lemma_key_lt_asymmetric, lemma_key_lt_total, lemma_key_lt_transitive,
};
use vstd::prelude::*;

verus! {

/// A key with its value, as contracts speak of them.
pub type Entry = (Seq<u8>, Seq<u8>);

/// The keys of `s` ascend strictly.
pub open spec fn sorted(s: Seq<Entry>) -> bool {
    forall|i: int, j: int| 0 <= i < j < s.len() ==> key_lt(#[trigger] s[i].0, #[trigger] s[j].0)
}

/// The index of the first entry of `s` whose key is `key` or comes after it;
/// the length of `s` if there is none.
pub open spec fn lower_bound(s: Seq<Entry>, key: Seq<u8>) -> int
    decreases s.len(),
{
    if s.len() == 0 {
        0
    } else if key_le(key, s[0].0) {
        0
    } else {
        1 + lower_bound(s.skip(1), key)
    }
}

/// In a sorted sequence, `at` is the lower bound of `key` when every entry
/// before `at` comes before `key` and the entry at `at`, if any, does not.
pub proof fn lemma_lower_bound_is(s: Seq<Entry>, key: Seq<u8>, at: int)
    requires
        0 <= at <= s.len(),
        forall|i: int| 0 <= i < at ==> key_lt(#[trigger] s[i].0, key),
        at < s.len() ==> key_le(key, s[at].0),
    ensures
        lower_bound(s, key) == at,
    decreases s.len(),
{
    if s.len() == 0 {
    } else if at == 0 {
    } else {
        assert(key_lt(s[0].0, key));
        lemma_key_lt_asymmetric(s[0].0, key);
        let t = s.skip(1);
        assert forall|i: int| 0 <= i < at - 1 implies key_lt(#[trigger] t[i].0, key) by {
            assert(t[i] == s[i + 1]);
        }
        lemma_lower_bound_is(t, key, at - 1);
    }
}

/// What the lower bound means in a sorted sequence: the entries before it
/// come before `key`, and those from it on do not.
pub proof fn lemma_lower_bound_splits(s: Seq<Entry>, key: Seq<u8>)
    requires
        sorted(s),
    ensures
        0 <= lower_bound(s, key) <= s.len(),
        forall|i: int| 0 <= i < lower_bound(s, key) ==> key_lt(#[trigger] s[i].0, key),
        forall|i: int| lower_bound(s, key) <= i < s.len() ==> key_le(key, #[trigger] s[i].0),
    decreases s.len(),
{
    if s.len() == 0 {
    } else if key_le(key, s[0].0) {
        assert forall|i: int| 0 <= i < s.len() implies key_le(key, #[trigger] s[i].0) by {
            if i > 0 {
                if key == s[0].0 {
                } else {
                    lemma_key_lt_transitive(key, s[0].0, s[i].0);
                }
            }
        }
    } else {
        let t = s.skip(1);
        assert(sorted(t)) by {
            assert forall|i: int, j: int| 0 <= i < j < t.len() implies key_lt(
                #[trigger] t[i].0,
                #[trigger] t[j].0,
            ) by {
                assert(t[i] == s[i + 1] && t[j] == s[j + 1]);
            }
        }
        lemma_lower_bound_splits(t, key);
        crate::key::lemma_key_lt_total(key, s[0].0);
        assert forall|i: int| 0 <= i < lower_bound(s, key) implies key_lt(
            #[trigger] s[i].0,
            key,
        ) by {
            if i > 0 {
                assert(t[i - 1] == s[i]);
            }
        }
        assert forall|i: int| lower_bound(s, key) <= i < s.len() implies key_le(
            key,
            #[trigger] s[i].0,
        ) by {
            assert(t[i - 1] == s[i]);
        }
    }
}

/// The index of the first entry of `s` whose key comes after `key`.
pub open spec fn upper_bound(s: Seq<Entry>, key: Seq<u8>) -> int {
    let at = lower_bound(s, key);
    if at < s.len() && s[at].0 == key {
        at + 1
    } else {
        at
    }
}

/// The value that a run holds for `key`, if it holds the key: that of the
/// first entry with the key.
pub open spec fn lookup(s: Seq<Entry>, key: Seq<u8>) -> Option<Seq<u8>>
    decreases s.len(),
{
    if s.len() == 0 {
        None
    } else if s[0].0 == key {
        Some(s[0].1)
    } else {
        lookup(s.skip(1), key)
    }
}

/// Every key of `s` comes after `key`.
pub open spec fn all_after(s: Seq<Entry>, key: Seq<u8>) -> bool {
    forall|i: int| 0 <= i < s.len() ==> key_lt(key, #[trigger] s[i].0)
}

/// A run is sorted when its first key comes before all the others and the
/// others are sorted, and only then.
pub proof fn lemma_sorted_cons(s: Seq<Entry>)
    requires
        s.len() > 0,
    ensures
        sorted(s) <==> (all_after(s.skip(1), s[0].0) && sorted(s.skip(1))),
{
    let t = s.skip(1);
    if sorted(s) {
        assert forall|i: int| 0 <= i < t.len() implies key_lt(s[0].0, #[trigger] t[i].0) by {
            assert(t[i] == s[i + 1]);
        }
        assert forall|i: int, j: int| 0 <= i < j < t.len() implies key_lt(
            #[trigger] t[i].0,
            #[trigger] t[j].0,
        ) by {
            assert(t[i] == s[i + 1] && t[j] == s[j + 1]);
        }
    }
    if all_after(t, s[0].0) && sorted(t) {
        assert forall|i: int, j: int| 0 <= i < j < s.len() implies key_lt(
            #[trigger] s[i].0,
            #[trigger] s[j].0,
        ) by {
            assert(s[j] == t[j - 1]);
            if i > 0 {
                assert(s[i] == t[i - 1]);
            }
        }
    }
}

/// No key of `s` comes before `key`.
pub open spec fn all_from(s: Seq<Entry>, key: Seq<u8>) -> bool {
    forall|i: int| 0 <= i < s.len() ==> key_le(key, #[trigger] s[i].0)
}

/// In a sorted run, the entries before the lower bound of `key` come before
/// `key`, those from its upper bound on come after, and between the two
/// stands the entry with the key, if there is one.
pub proof fn lemma_bounds_split(s: Seq<Entry>, key: Seq<u8>)
    requires
        sorted(s),
    ensures
        0 <= lower_bound(s, key) <= upper_bound(s, key) <= s.len(),
        forall|i: int| 0 <= i < s.len() ==> (i < lower_bound(s, key) <==> key_lt(#[trigger] s[i].0, key)),
        forall|i: int| 0 <= i < s.len() ==> (upper_bound(s, key) <= i <==> key_lt(key, #[trigger] s[i].0)),
        forall|i: int| 0 <= i < s.len() ==> (lower_bound(s, key) <= i <==> key_le(key, #[trigger] s[i].0)),
        forall|i: int| 0 <= i < s.len() ==> (i < upper_bound(s, key) <==> key_le(#[trigger] s[i].0, key)),
{
    lemma_lower_bound_splits(s, key);
    let at = lower_bound(s, key);
    assert forall|i: int| 0 <= i < s.len() implies (i < at <==> key_lt(#[trigger] s[i].0, key)) && (
    upper_bound(s, key) <= i <==> key_lt(key, s[i].0)) && (at <= i <==> key_le(key, s[i].0)) && (i
        < upper_bound(s, key) <==> key_le(s[i].0, key)) by {
        lemma_key_lt_total(s[i].0, key);
        if key_lt(s[i].0, key) {
            lemma_key_lt_asymmetric(s[i].0, key);
        }
        if key_lt(key, s[i].0) {
            lemma_key_lt_asymmetric(key, s[i].0);
        }
        if i > at && at < s.len() {
            assert(key_lt(s[at].0, s[i].0));
            if s[at].0 != key {
                lemma_key_lt_transitive(key, s[at].0, s[i].0);
            }
        }
        if i < at {
        }
    }
}

/// In a sorted run the value of a key is the value of the entry at the
/// key's lower bound, if that entry has the key.
pub proof fn lemma_lookup_sorted(s: Seq<Entry>, key: Seq<u8>)
    requires
        sorted(s),
    ensures
        lookup(s, key) == if lower_bound(s, key) < s.len() && s[lower_bound(s, key)].0 == key {
            Some(s[lower_bound(s, key)].1)
        } else {
            None
        },
    decreases s.len(),
{
    if s.len() == 0 {
    } else {
        let t = s.skip(1);
        assert(sorted(t)) by {
            assert forall|i: int, j: int| 0 <= i < j < t.len() implies key_lt(
                #[trigger] t[i].0,
                #[trigger] t[j].0,
            ) by {
                assert(t[i] == s[i + 1] && t[j] == s[j + 1]);
            }
        }
        lemma_lookup_sorted(t, key);
        if s[0].0 == key {
        } else if key_le(key, s[0].0) {
            // every key of the run comes after `key`
            lemma_lower_bound_splits(t, key);
            if lower_bound(t, key) < t.len() {
                let at = lower_bound(t, key);
                assert(t[at] == s[at + 1]);
                assert(key_lt(s[0].0, s[at + 1].0));
                lemma_key_lt_transitive(key, s[0].0, t[at].0);
                lemma_key_lt_asymmetric(key, t[at].0);
            }
        } else {
            lemma_lower_bound_splits(t, key);
            if lower_bound(t, key) < t.len() {
                assert(t[lower_bound(t, key)] == s[lower_bound(t, key) + 1]);
            }
        }
    }
}

/// A run whose keys all come after `key` does not hold `key`.
pub proof fn lemma_lookup_all_after(s: Seq<Entry>, key: Seq<u8>)
    requires
        all_after(s, key),
    ensures
        lookup(s, key) is None,
    decreases s.len(),
{
    if s.len() > 0 {
        lemma_key_lt_asymmetric(key, s[0].0);
        assert forall|i: int| 0 <= i < s.skip(1).len() implies key_lt(
            key,
            #[trigger] s.skip(1)[i].0,
        ) by {
            assert(s.skip(1)[i] == s[i + 1]);
        }
        lemma_lookup_all_after(s.skip(1), key);
    }
}

/// A sorted run that starts at or after `key` holds nothing before `key`.
pub proof fn lemma_sorted_all_from(s: Seq<Entry>, key: Seq<u8>)
    requires
        sorted(s),
        s.len() > 0 ==> key_le(key, s[0].0),
    ensures
        all_from(s, key),
{
    assert forall|i: int| 0 <= i < s.len() implies key_le(key, #[trigger] s[i].0) by {
        if i > 0 {
            if key != s[0].0 {
                lemma_key_lt_transitive(key, s[0].0, s[i].0);
            }
        }
    }
}

/// The rest of a run that holds nothing before `key` holds nothing before it.
pub proof fn lemma_all_from_skip(s: Seq<Entry>, key: Seq<u8>)
    requires
        all_from(s, key),
        s.len() > 0,
    ensures
        all_from(s.skip(1), key),
{
    assert forall|i: int| 0 <= i < s.skip(1).len() implies key_le(key, #[trigger] s.skip(1)[i].0) by {
        assert(s.skip(1)[i] == s[i + 1]);
    }
}

/// A run that holds no entry with the key has no value for it.
pub proof fn lemma_lookup_none(s: Seq<Entry>, key: Seq<u8>)
    requires
        forall|i: int| 0 <= i < s.len() ==> (#[trigger] s[i]).0 != key,
    ensures
        lookup(s, key) is None,
    decreases s.len(),
{
    if s.len() > 0 {
        assert forall|i: int| 0 <= i < s.skip(1).len() implies (#[trigger] s.skip(1)[i]).0 != key by {
            assert(s.skip(1)[i] == s[i + 1]);
        }
        lemma_lookup_none(s.skip(1), key);
    }
}

/// A run that has a value for a key holds an entry with the key and that
/// value.
pub proof fn lemma_lookup_some(s: Seq<Entry>, key: Seq<u8>) -> (at: int)
    requires
        lookup(s, key) is Some,
    ensures
        0 <= at < s.len(),
        s[at] == (key, lookup(s, key).unwrap()),
    decreases s.len(),
{
    if s[0].0 == key {
        0
    } else {
        let at = lemma_lookup_some(s.skip(1), key);
        assert(s.skip(1)[at] == s[at + 1]);
        at + 1
    }
}

/// In a sorted run the value of the key of an entry is the value of that
/// entry.
pub proof fn lemma_lookup_at(s: Seq<Entry>, at: int)
    requires
        sorted(s),
        0 <= at < s.len(),
    ensures
        lookup(s, s[at].0) == Some(s[at].1),
    decreases s.len(),
{
    if at > 0 {
        assert(key_lt(s[0].0, s[at].0));
        lemma_key_lt_asymmetric(s[0].0, s[at].0);
        let t = s.skip(1);
        assert(sorted(t)) by {
            assert forall|i: int, j: int| 0 <= i < j < t.len() implies key_lt(
                #[trigger] t[i].0,
                #[trigger] t[j].0,
            ) by {
                assert(t[i] == s[i + 1] && t[j] == s[j + 1]);
            }
        }
        assert(t[at - 1] == s[at]);
        lemma_lookup_at(t, at - 1);
    }
}

/// A part of a sorted run, cut out between two places, has for a key the
/// value of the run where an entry with the key stands between the places,
/// and no value otherwise.
pub proof fn lemma_lookup_subrange(s: Seq<Entry>, from: int, to: int, key: Seq<u8>)
    requires
        sorted(s),
        0 <= from <= to <= s.len(),
    ensures
        sorted(s.subrange(from, to)),
        lookup(s.subrange(from, to), key) == if exists|i: int|
            from <= i < to && (#[trigger] s[i]).0 == key {
            lookup(s, key)
        } else {
            None
        },
{
    let r = s.subrange(from, to);
    assert(sorted(r)) by {
        assert forall|i: int, j: int| 0 <= i < j < r.len() implies key_lt(
            #[trigger] r[i].0,
            #[trigger] r[j].0,
        ) by {
            assert(r[i] == s[from + i] && r[j] == s[from + j]);
        }
    }
    if exists|i: int| from <= i < to && (#[trigger] s[i]).0 == key {
        let i = choose|i: int| from <= i < to && (#[trigger] s[i]).0 == key;
        lemma_lookup_at(s, i);
        assert(r[i - from] == s[i]);
        lemma_lookup_at(r, i - from);
    } else {
        assert forall|i: int| 0 <= i < r.len() implies (#[trigger] r[i]).0 != key by {
            assert(r[i] == s[from + i]);
        }
        lemma_lookup_none(r, key);
    }
}

/// A sorted run that holds nothing before a key and has a value for the key
/// starts with the key and that value.
pub proof fn lemma_lookup_head(s: Seq<Entry>, key: Seq<u8>)
    requires
        sorted(s),
        all_from(s, key),
        lookup(s, key) is Some,
    ensures
        s.len() > 0,
        s[0] == (key, lookup(s, key).unwrap()),
{
    let at = lemma_lookup_some(s, key);
    if at > 0 {
        assert(key_lt(s[0].0, s[at].0));
        assert(key_le(key, s[0].0));
        lemma_key_lt_asymmetric(s[0].0, key);
    }
}

} // verus!
