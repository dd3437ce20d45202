//! Exclusive access to a value through a spinlock.

use vstd::prelude::*;

verus! {

/// `spin::mutex::Mutex`, a lock that busy-waits. Nothing is claimed of what
/// is inside one.
#[verifier::external_type_specification]
#[verifier::external_body]
#[verifier::reject_recursive_types(T)]
#[verifier::reject_recursive_types(R)]
pub struct ExMutex<T: ?Sized, R>(spin::mutex::Mutex<T, R>);

/// `spin::mutex::MutexGuard`, which holds a `Mutex` locked for as long as
/// it lives. Nothing is claimed of what is inside one.
#[verifier::external_type_specification]
#[verifier::external_body]
#[verifier::reject_recursive_types(T)]
pub struct ExMutexGuard<'a, T: 'a + ?Sized>(spin::mutex::MutexGuard<'a, T>);

/// `spin::relax::Spin`, the strategy by which a waiting `Mutex` spins. It
/// holds nothing.
#[verifier::external_type_specification]
#[verifier::external_body]
pub struct ExSpin(spin::relax::Spin);

/// A spinlock-based mutex.
#[verifier::reject_recursive_types(T)]
pub struct Mutexed<T> {
    inner: spin::mutex::Mutex<T, spin::relax::Spin>,
}

impl<T> Mutexed<T> {
    /// Puts `inner` behind a lock, by `spin::mutex::Mutex::new`. The
    /// contract claims nothing of the result.
    #[verifier::external_body]
    pub fn new(inner: T) -> Self {
        Mutexed { inner: spin::mutex::Mutex::new(inner) }
    }

    /// Waits until the lock is free, takes it and returns a guard that
    /// gives access to the value, by `spin::mutex::Mutex::lock`. The lock
    /// is released when the guard goes out of scope. The contract claims
    /// nothing of the value found: another holder may have changed it.
    #[verifier::external_body]
    pub fn lock(&self) -> spin::mutex::MutexGuard<'_, T> {
        self.inner.lock()
    }
}

/// The value that `guard` protects, by the guard's `DerefMut::deref_mut`.
/// The contract claims nothing of the value.
#[verifier::external_body]
pub(crate) fn guarded<'a, 'b, T>(guard: &'a mut spin::mutex::MutexGuard<'b, T>) -> &'a mut T {
    &mut **guard
}

} // verus!
