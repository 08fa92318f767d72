//! Interrupt-safe spin lock.
//!
//! Kernel locks are taken from both thread context and interrupt handlers. If a
//! hart held a lock with interrupts enabled and the timer fired, the handler could
//! try to take the same lock and deadlock against itself. So acquiring a
//! `SpinLock` masks interrupts on the local hart for the whole critical section,
//! and releasing it restores the previous state.
//!
//! Masking happens *before* the lock is taken and unmasking *after* it is
//! released, otherwise there is a window where the lock is held with interrupts
//! live -- the exact race this type exists to prevent.

use vstd::prelude::*;
use crate::arch::{self, Hart};

verus! {

/// A mutual-exclusion primitive that spins rather than sleeping.
///
/// Correct for short critical sections and for anything reachable from an
/// interrupt handler. Code that may block while holding the lock wants a `Mutex`
/// instead, which parks the task.
pub struct SpinLock<T> {
    locked: bool,
    data: T,
    /// Which lock this is.
    id: Ghost<int>,
    /// How often it has been taken.
    turn: Ghost<int>,
}

/// Proof that a lock is held: what that lock protects is reached through it.
pub struct SpinLockGuard {
    /// Whether interrupts were enabled before the lock masked them.
    restore_intr: bool,
    /// The lock that it was handed out by.
    id: Ghost<int>,
    /// When it was.
    turn: Ghost<int>,
}

impl SpinLockGuard {
    /// Were interrupts enabled before the lock was taken?
    pub closed spec fn restores(&self) -> bool {
        self.restore_intr
    }
}

impl<T> SpinLock<T> {
    /// Is it held?
    pub closed spec fn is_held(&self) -> bool {
        self.locked
    }

    /// Is it held, and `guard` what was handed out when it was taken? A guard of another
    /// lock, or of an earlier time, is not.
    pub closed spec fn held_by(&self, guard: SpinLockGuard) -> bool {
        self.locked && guard.id@ == self.id@ && guard.turn@ == self.turn@
    }

    /// What it protects.
    pub closed spec fn value(&self) -> T {
        self.data
    }

    /// Create an unlocked spin lock.
    pub fn new(data: T) -> (r: SpinLock<T>)
        ensures
            !r.is_held(),
            r.value() == data,
    {
        SpinLock { locked: false, data, id: Ghost(arbitrary()), turn: Ghost(0) }
    }

    /// Consume the lock and return the protected value.
    pub fn into_inner(self) -> (r: T)
        ensures
            r == self.value(),
    {
        self.data
    }

    /// Block until the lock is acquired. On one hart nobody can release a lock that
    /// is held while this spins, so it must be free.
    pub fn lock(&mut self, hart: &mut Hart) -> (r: SpinLockGuard)
        requires
            !old(self).is_held(),
        ensures
            final(self).is_held(),
            final(self).held_by(r),
            final(self).value() == old(self).value(),
            r.restores() == arch::enabled(old(hart).sstatus),
            *final(hart) == (Hart { sstatus: arch::with_enable(old(hart).sstatus, false), ..*old(hart) }),
    {
        proof {
            arch::lemma_enable(hart.sstatus);
        }
        let restore_intr: bool = arch::intr_enabled(hart);
        if restore_intr {
            arch::intr_disable(hart);
        }
        self.locked = true;
        self.turn = Ghost(self.turn@ + 1);
        SpinLockGuard { restore_intr, id: self.id, turn: self.turn }
    }

    /// Acquire the lock if it is free, otherwise return `None` immediately.
    ///
    /// Used by the panic path, which must not deadlock on a lock whose holder is
    /// the thread that just panicked.
    pub fn try_lock(&mut self, hart: &mut Hart) -> (r: Option<SpinLockGuard>)
        ensures
            final(self).is_held(),
            final(self).value() == old(self).value(),
            r is Some <==> !old(self).is_held(),
            match r {
                Some(g) => {
                    &&& final(self).held_by(g)
                    &&& g.restores() == arch::enabled(old(hart).sstatus)
                    &&& *final(hart) == (Hart { sstatus: arch::with_enable(old(hart).sstatus, false), ..*old(hart) })
                },
                None => *final(self) == *old(self) && *final(hart) == *old(hart),
            },
    {
        proof {
            arch::lemma_enable(hart.sstatus);
        }
        let restore_intr: bool = arch::intr_enabled(hart);
        if restore_intr {
            arch::intr_disable(hart);
        }
        if !self.locked {
            self.locked = true;
            self.turn = Ghost(self.turn@ + 1);
            Some(SpinLockGuard { restore_intr, id: self.id, turn: self.turn })
        } else {
            if restore_intr {
                arch::intr_enable(hart);
            }
            None
        }
    }

    /// Is the lock currently held? Intended for assertions.
    pub fn is_locked(&self) -> (r: bool)
        ensures
            r == self.is_held(),
    {
        self.locked
    }

    /// Reach the value without locking, proven safe by `&mut self`.
    pub fn get_mut(&mut self) -> (r: &mut T)
        ensures
            *r == old(self).value(),
            final(self).value() == *final(r),
            final(self).is_held() == old(self).is_held(),
            forall|g: SpinLockGuard| #[trigger] final(self).held_by(g) == old(self).held_by(g),
    {
        &mut self.data
    }

    /// What the lock protects.
    pub fn get(&self, guard: &SpinLockGuard) -> (r: &T)
        requires
            self.held_by(*guard),
        ensures
            *r == self.value(),
    {
        &self.data
    }

    /// Replace what the lock protects.
    pub fn set(&mut self, guard: &SpinLockGuard, data: T)
        requires
            old(self).held_by(*guard),
        ensures
            final(self).is_held(),
            final(self).held_by(*guard),
            final(self).value() == data,
    {
        self.data = data;
    }

    /// Release the lock without going through a guard. Only the holder may, and it
    /// must see to it that the guard does not release the lock too.
    pub fn force_unlock(&mut self)
        ensures
            !final(self).is_held(),
            forall|g: SpinLockGuard| !(#[trigger] final(self).held_by(g)),
            final(self).value() == old(self).value(),
    {
        self.locked = false;
    }

    /// Release the lock and restore the interrupt state it was taken in.
    pub fn unlock(&mut self, guard: SpinLockGuard, hart: &mut Hart)
        requires
            old(self).held_by(guard),
        ensures
            !final(self).is_held(),
            forall|g: SpinLockGuard| !(#[trigger] final(self).held_by(g)),
            final(self).value() == old(self).value(),
            *final(hart) == (if guard.restores() {
                Hart { sstatus: arch::with_enable(old(hart).sstatus, true), ..*old(hart) }
            } else {
                *old(hart)
            }),
    {
        self.locked = false;
        if guard.restore_intr {
            arch::intr_enable(hart);
        }
    }
}

/// Taking a lock masks interrupts, and releasing it leaves them as they were: on if
/// they were on, off if they were off, so that locks nest.
pub proof fn law_lock_restores_interrupts(h0: Hart, h1: Hart, h2: Hart, g: SpinLockGuard)
    requires
        g.restores() == arch::enabled(h0.sstatus),
        h1 == (Hart { sstatus: arch::with_enable(h0.sstatus, false), ..h0 }),
        h2 == (if g.restores() {
            Hart { sstatus: arch::with_enable(h1.sstatus, true), ..h1 }
        } else {
            h1
        }),
    ensures
        !arch::enabled(h1.sstatus),
        h2 == h0,
{
    arch::lemma_enable(h0.sstatus);
}

impl<T: Default> Default for SpinLock<T> {
    fn default() -> (r: SpinLock<T>)
        ensures
            !r.is_held(),
            call_ensures(T::default, (), r.value()),
    {
        SpinLock::new(T::default())
    }
}

} // verus!
