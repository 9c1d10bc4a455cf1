//! A spin-waiting mutual-exclusion lock guarding a single shared value.
//!
//! `lock` busy-polls an atomic flag until it can claim it, then hands the
//! caller the protected value together with a guard; `Guard::unlock` stores
//! the value back and frees the flag. Whatever invariant the protected type
//! declares holds of every value the lock ever hands out, so a reader can
//! never observe a torn state.
//!
//! The lock is not reentrant: a thread that holds it and calls `lock` again
//! spins forever. There is no poisoning: a holder that never unlocks leaves
//! the lock held forever. Both are documented constraints on callers.

use vstd::prelude::*;
use vstd::rwlock::RwLock;
use vstd::rwlock::WriteHandle;

verus! {

/// A value a `SpinLock` can protect. `lock_inv` is the invariant the lock
/// maintains: `SpinLock::new` and `Guard::unlock` demand it, and `lock`
/// yields it back for whatever value is currently stored.
pub trait Protected: Sized {
    spec fn lock_inv(&self) -> bool;
}

/// A spin-waiting mutual-exclusion lock around one value of `T`.
#[verifier::reject_recursive_types(T)]
pub struct SpinLock<T: Protected> {
    inner: RwLock<T, spec_fn(T) -> bool>,
}

/// Witnesses exclusive ownership of a `SpinLock`'s value between `lock` and
/// `unlock`.
#[verifier::reject_recursive_types(T)]
pub struct Guard<'a, T: Protected> {
    handle: WriteHandle<'a, T, spec_fn(T) -> bool>,
}

impl<T: Protected> SpinLock<T> {
    #[verifier::type_invariant]
    spec fn wf(&self) -> bool {
        forall|t: T| self.inner.inv(t) == t.lock_inv()
    }

    /// Creates a lock holding `value`.
    pub fn new(value: T) -> (r: SpinLock<T>)
        requires
            value.lock_inv(),
    {
        SpinLock { inner: RwLock::new(value, Ghost(|t: T| t.lock_inv())) }
    }

    /// Acquires the lock, spinning until it is free, and takes the protected
    /// value out; the lock's invariant holds of the value received. Release
    /// it through the accompanying guard.
    pub fn lock(&self) -> (r: (T, Guard<'_, T>))
        ensures
            r.0.lock_inv(),
    {
        proof {
            use_type_invariant(self);
        }
        let (value, handle) = self.inner.acquire_write();
        (value, Guard { handle })
    }
}

impl<'a, T: Protected> Guard<'a, T> {
    /// The invariant of the lock this guard came from is the protected
    /// type's own.
    #[verifier::type_invariant]
    spec fn wf(&self) -> bool {
        forall|t: T| self.handle.rwlock().inv(t) == t.lock_inv()
    }

    /// Releases the lock, storing `value` as the protected value.
    pub fn unlock(self, value: T)
        requires
            value.lock_inv(),
    {
        proof {
            use_type_invariant(&self);
        }
        let Guard { handle } = self;
        handle.release_write(value);
    }
}

} // verus!
