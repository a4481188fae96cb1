//! The locks of the engine: `parking_lot`'s locks, what they hold, and the
//! calls that take and give them.

use crate::lsm_storage::LsmStorageInner;
use parking_lot::{Mutex, MutexGuard, RwLock, RwLockReadGuard, RwLockWriteGuard};
use vstd::prelude::*;

verus! {

/// `parking_lot::RwLock`, which is `lock_api::RwLock` over `RawRwLock`:
/// nothing is known of what is inside.
#[verifier::external_type_specification]
#[verifier::external_body]
#[verifier::reject_recursive_types(R)]
#[verifier::reject_recursive_types(T)]
pub struct ExRwLock<R, T: ?Sized>(parking_lot::lock_api::RwLock<R, T>);

/// `parking_lot::RawRwLock`: nothing is known of what is inside.
#[verifier::external_type_specification]
#[verifier::external_body]
pub struct ExRawRwLock(parking_lot::RawRwLock);

/// `parking_lot::Mutex`, which is `lock_api::Mutex` over `RawMutex`: nothing
/// is known of what is inside.
#[verifier::external_type_specification]
#[verifier::external_body]
#[verifier::reject_recursive_types(R)]
#[verifier::reject_recursive_types(T)]
pub struct ExMutex<R, T: ?Sized>(parking_lot::lock_api::Mutex<R, T>);

/// `parking_lot::RawMutex`: nothing is known of what is inside.
#[verifier::external_type_specification]
#[verifier::external_body]
pub struct ExRawMutex(parking_lot::RawMutex);

/// A state of the store that is well formed. What the lock holds, and so
/// what a thread finds when it takes the lock, is a value of this type.
pub(crate) struct ValidState {
    state: LsmStorageInner,
}

impl ValidState {
    #[verifier::type_invariant]
    spec fn state_wf(self) -> bool {
        self.state.wf()
    }

    /// The state inside.
    pub(crate) closed spec fn inner(self) -> LsmStorageInner {
        self.state
    }

    /// Marks a well-formed state as such.
    pub(crate) fn new(state: LsmStorageInner) -> (valid: Self)
        requires
            state.wf(),
        ensures
            valid.inner() == state,
    {
        Self { state }
    }

    /// The state, which is well formed.
    pub(crate) fn get(&self) -> (state: &LsmStorageInner)
        ensures
            state.wf(),
            *state == self.inner(),
    {
        proof {
            use_type_invariant(self);
        }
        &self.state
    }

    /// The state, which is well formed.
    pub(crate) fn into_inner(self) -> (state: LsmStorageInner)
        ensures
            state.wf(),
            state == self.inner(),
    {
        proof {
            use_type_invariant(&self);
        }
        self.state
    }
}

/// A `parking_lot::RwLockReadGuard`: the right to read the state, until it
/// is dropped. The guard's own type asks for a trait of `lock_api` as a
/// bound, so it is held in this struct, of which nothing is known.
#[verifier::external_body]
pub(crate) struct StateReadGuard<'a> {
    guard: RwLockReadGuard<'a, ValidState>,
}

/// A `parking_lot::RwLockWriteGuard`: the right to change the state, until
/// it is dropped. Nothing is known of what is inside.
#[verifier::external_body]
pub(crate) struct StateWriteGuard<'a> {
    guard: RwLockWriteGuard<'a, ValidState>,
}

/// A `parking_lot::MutexGuard`: the right to write a memtable out, until it
/// is dropped. Nothing is known of what is inside.
#[verifier::external_body]
pub(crate) struct FlushGuard<'a> {
    guard: MutexGuard<'a, ()>,
}

/// `parking_lot::RwLock::new`: a lock that holds `state`.
#[verifier::external_body]
pub(crate) fn new_state_lock(state: ValidState) -> (lock: RwLock<ValidState>) {
    RwLock::new(state)
}

/// `parking_lot::Mutex::new`: a lock that holds nothing.
#[verifier::external_body]
pub(crate) fn new_flush_lock() -> (lock: Mutex<()>) {
    Mutex::new(())
}

/// `parking_lot::RwLock::read`: waits until no thread writes, and then
/// gives the right to read. A thread that holds the right to write already
/// would wait for itself.
#[verifier::external_body]
pub(crate) fn read_state<'a>(lock: &'a RwLock<ValidState>) -> (guard: StateReadGuard<'a>) {
    StateReadGuard { guard: lock.read() }
}

/// `parking_lot::RwLock::write`: waits until no thread reads or writes, and
/// then gives the right to write. A thread that holds a right to the state
/// already would wait for itself.
#[verifier::external_body]
pub(crate) fn write_state<'a>(lock: &'a RwLock<ValidState>) -> (guard: StateWriteGuard<'a>) {
    StateWriteGuard { guard: lock.write() }
}

/// `parking_lot::Mutex::lock`: waits until no thread holds the lock, and
/// then holds it. A thread that holds the lock already would wait for
/// itself.
#[verifier::external_body]
pub(crate) fn hold_flush<'a>(lock: &'a Mutex<()>) -> (guard: FlushGuard<'a>) {
    FlushGuard { guard: lock.lock() }
}

/// `Deref::deref` of the read guard: the state that the lock holds.
#[verifier::external_body]
pub(crate) fn state_of<'a, 'b>(guard: &'b StateReadGuard<'a>) -> (state: &'b ValidState) {
    &guard.guard
}

/// `DerefMut::deref_mut` of the write guard: the place of the state that
/// the lock holds.
#[verifier::external_body]
pub(crate) fn state_mut_of<'a, 'b>(guard: &'b mut StateWriteGuard<'a>) -> (state:
    &'b mut ValidState) {
    &mut guard.guard
}

} // verus!
