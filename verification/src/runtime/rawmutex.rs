//! A spinlock without a guard, so that several can be held at once and one can
//! be released by somebody else than who took it.

use vstd::prelude::*;

verus! {

/// Failed attempts after which a thread lets others run.
pub const SPIN_LIMIT: u32 = 100;

/// A lock that is not re-entrant.
#[derive(Copy, Clone, Debug, PartialEq, Eq, Structural)]
pub struct RawMutex {
    /// Somebody holds it.
    pub locked: bool,
}

/// What a thread that wants a lock does next.
#[derive(Copy, Clone, Debug, PartialEq, Eq, Structural)]
pub enum LockStep {
    /// It has the lock.
    Acquired,
    /// It tries again at once.
    Spin,
    /// It lets others run, and then tries again.
    Yield,
}

impl RawMutex {
    /// A lock that nobody holds.
    pub fn new() -> (m: RawMutex)
        ensures
            !m.locked,
    {
        RawMutex { locked: false }
    }

    /// One attempt at the lock, by a thread that has failed `spins` times since
    /// it last let others run.
    pub fn lock(&mut self, spins: &mut u32) -> (step: LockStep)
        requires
            *old(spins) < SPIN_LIMIT,
        ensures
            final(self).locked,
            !old(self).locked ==> step == LockStep::Acquired && *final(spins) == *old(spins),
            old(self).locked && *old(spins) + 1 < SPIN_LIMIT ==> step == LockStep::Spin
                && *final(spins) == *old(spins) + 1,
            old(self).locked && *old(spins) + 1 == SPIN_LIMIT ==> step == LockStep::Yield
                && *final(spins) == 0,
    {
        if self.try_lock() {
            return LockStep::Acquired;
        }
        *spins = *spins + 1;
        if *spins < SPIN_LIMIT {
            LockStep::Spin
        } else {
            *spins = 0;
            LockStep::Yield
        }
    }

    /// Takes the lock if it is free.
    pub fn try_lock(&mut self) -> (taken: bool)
        ensures
            taken == !old(self).locked,
            final(self).locked,
    {
        if self.locked {
            false
        } else {
            self.locked = true;
            true
        }
    }

    /// Releases the lock, which is held.
    pub fn unlock(&mut self)
        requires
            old(self).locked,
        ensures
            !final(self).locked,
    {
        self.locked = false;
    }
}

} // verus!
