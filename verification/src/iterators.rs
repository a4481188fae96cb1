//! Ordered cursors: what every cursor of the store offers, and the cursors
//! that merge others.

pub mod merge_heap;
pub mod merge_iterator;
pub mod two_merge_iterator;

use crate::error::LsmError;
use crate::run::{Entry, sorted};
use vstd::prelude::*;

verus! {

/// What is left of a run of entries once its first entry is consumed.
pub open spec fn rest(s: Seq<Entry>) -> Seq<Entry> {
    if s.len() > 0 {
        s.skip(1)
    } else {
        s
    }
}

/// A cursor over entries in strictly ascending key order.
///
/// The model of a cursor is the run of entries that it has yet to give, the
/// current one first. A cursor is valid while that run is not empty.
pub trait StorageIterator: Sized {
    /// The cursor is in a state that its own operations produce.
    spec fn wf(&self) -> bool;

    /// The entries that the cursor has yet to give, the current one first.
    spec fn remaining(&self) -> Seq<Entry>;

    /// Whether `next` of this kind of cursor succeeds on every cursor that is
    /// well formed.
    spec fn infallible() -> bool;

    /// The entries still to come ascend strictly by key.
    proof fn lemma_remaining_sorted(&self)
        requires
            self.wf(),
        ensures
            sorted(self.remaining()),
    ;

    /// The value of the current entry; of a cursor that is not valid, some
    /// bytes of no meaning.
    fn value(&self) -> (v: &[u8])
        requires
            self.wf(),
        ensures
            self.remaining().len() > 0 ==> v@ == self.remaining()[0].1,
    ;

    /// The key of the current entry; of a cursor that is not valid, some
    /// bytes of no meaning.
    fn key(&self) -> (k: &[u8])
        requires
            self.wf(),
        ensures
            self.remaining().len() > 0 ==> k@ == self.remaining()[0].0,
    ;

    /// Whether the cursor stands on an entry.
    fn is_valid(&self) -> (b: bool)
        requires
            self.wf(),
        ensures
            b == (self.remaining().len() > 0),
    ;

    /// Moves to the next entry. After a failure nothing is known of the
    /// cursor.
    fn next(&mut self) -> (r: Result<(), LsmError>)
        requires
            old(self).wf(),
        ensures
            r is Ok ==> final(self).wf() && final(self).remaining() == rest(old(self).remaining()),
            Self::infallible() ==> r is Ok,
    ;
}

} // verus!
