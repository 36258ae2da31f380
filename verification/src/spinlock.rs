//! Mutual exclusion on a bare machine.
//!
//! In the kernel the lock busy-waits on a compare-and-swap with acquire
//! ordering and releases with a store; it is not reentrant, and a guard
//! hands out exclusive access to the protected value. Here the protocol
//! is modelled by moving the value out through the guard and back in at
//! unlock, so exclusive access is enforced by ownership: while a guard is
//! live the lock holds no value, and locking twice is ruled out by the
//! precondition (at run time it would spin forever).

use vstd::prelude::*;

verus! {

/// A spinlock protecting a value of type `T`.
#[derive(Debug)]
pub struct Spinlock<T> {
    locked: bool,
    value: Option<T>,
}

/// Exclusive access to the protected value between `lock` and `unlock`.
#[derive(Debug)]
pub struct SpinlockGuard<T> {
    pub value: T,
}

impl<T> Spinlock<T> {
    /// Whether the lock is currently held.
    pub closed spec fn spec_locked(&self) -> bool {
        self.locked
    }

    /// The protected value while the lock is free.
    pub closed spec fn spec_value(&self) -> T {
        self.value->0
    }

    /// A free lock holds its value; a held lock's value is out with the
    /// guard.
    pub closed spec fn wf(&self) -> bool {
        self.locked <==> self.value is None
    }

    pub fn new(data: T) -> (r: Self)
        ensures
            r.wf(),
            !r.spec_locked(),
            r.spec_value() == data,
    {
        Spinlock { locked: false, value: Some(data) }
    }

    /// Acquires the lock, taking the protected value into the guard.
    pub fn lock(&mut self) -> (g: SpinlockGuard<T>)
        requires
            old(self).wf(),
            !old(self).spec_locked(),
        ensures
            final(self).wf(),
            final(self).spec_locked(),
            g.value == old(self).spec_value(),
    {
        self.locked = true;
        let mut taken = None;
        core::mem::swap(&mut taken, &mut self.value);
        match taken {
            Some(v) => SpinlockGuard { value: v },
            None => vstd::pervasive::unreached(),
        }
    }

    /// Acquires the lock only if it is free.
    pub fn try_lock(&mut self) -> (g: Option<SpinlockGuard<T>>)
        requires
            old(self).wf(),
        ensures
            final(self).wf(),
            old(self).spec_locked() ==> g is None && *final(self) == *old(self),
            !old(self).spec_locked() ==> {
                &&& final(self).spec_locked()
                &&& g is Some
                &&& g->0.value == old(self).spec_value()
            },
    {
        if self.locked {
            None
        } else {
            Some(self.lock())
        }
    }

    /// Releases the lock, storing the guard's value back.
    pub fn unlock(&mut self, guard: SpinlockGuard<T>)
        requires
            old(self).wf(),
            old(self).spec_locked(),
        ensures
            final(self).wf(),
            !final(self).spec_locked(),
            final(self).spec_value() == guard.value,
    {
        self.value = Some(guard.value);
        self.locked = false;
    }
}

} // verus!
