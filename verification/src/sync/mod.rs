//! Kernel synchronisation primitives.
//!
//! Two tiers, and picking the wrong one is a bug:
//!
//! * [`SpinLock`] masks interrupts and busy-waits. It is the only kind of lock an
//!   interrupt handler may take, and the only kind usable before the scheduler
//!   exists.
//! * [`Mutex`] and [`Semaphore`] park the calling task on a [`WaitQueue`]. They
//!   must never be taken from interrupt context, because there is no task there to
//!   park.

use vstd::prelude::*;

pub mod spin;
pub mod wait;

pub use spin::{SpinLock, SpinLockGuard};
pub use wait::{Mutex, MutexGuard, Semaphore, WaitQueue};

verus! {

/// A value initialised exactly once at boot and read freely thereafter.
///
/// This exists because a lot of kernel state -- the frame allocator's range, the
/// timer frequency, the device list -- is written during init and is immutable
/// afterwards.
pub struct Once<T> {
    inner: Option<T>,
}

impl<T> Once<T> {
    /// What the cell holds.
    pub closed spec fn value(&self) -> Option<T> {
        self.inner
    }

    /// Create an empty cell.
    pub fn new() -> (r: Once<T>)
        ensures
            r.value() is None,
    {
        Once { inner: None }
    }

    /// Store `value`. The cell must not have been populated already.
    pub fn init(&mut self, value: T)
        requires
            old(self).value() is None,
        ensures
            final(self).value() == Some(value),
    {
        self.inner = Some(value);
    }

    /// Has this cell been initialised?
    pub fn is_initialized(&self) -> (r: bool)
        ensures
            r == self.value() is Some,
    {
        self.inner.is_some()
    }
}

impl<T: Copy> Once<T> {
    /// Read the value, which must have been initialised.
    pub fn get(&self) -> (r: T)
        requires
            self.value() is Some,
        ensures
            r == self.value()->0,
    {
        self.inner.unwrap()
    }
}

impl<T> Default for Once<T> {
    fn default() -> (r: Once<T>)
        ensures
            r.value() is None,
    {
        Once::new()
    }
}

} // verus!
