//! A lock that also disables interrupts while it is held.
use vstd::prelude::*;
use crate::arch::trap::irq;
use crate::arch::csr::sstatus;
use crate::bit::{bit_u64, set_bit_u64};

verus! {

/// A value behind a lock.
pub struct SpinLock<T> {
    locked: bool,
    value: T,
}

/// A held lock: remembers whether interrupts were enabled when it was taken.
#[derive(Copy, Clone, PartialEq, Eq, Structural)]
pub struct Guard {
    pub irqen: bool,
}

impl<T> SpinLock<T> {
    /// Whether the lock is held.
    pub closed spec fn is_locked(&self) -> bool {
        self.locked
    }

    /// The value behind the lock.
    pub closed spec fn view(&self) -> T {
        self.value
    }

    /// An unlocked lock around `value`.
    pub fn new(value: T) -> (r: Self)
        ensures
            !r.is_locked(),
            r@ == value,
    {
        Self { locked: false, value }
    }

    /// Takes the lock, given `sstatus`: returns the guard and `sstatus` with interrupts
    /// disabled. The lock must be free (taking a held lock spins forever).
    pub fn lock(&mut self, sstatus_val: u64) -> (r: (Guard, u64))
        requires
            !old(self).is_locked(),
        ensures
            final(self).is_locked(),
            final(self)@ == old(self)@,
            r.0 == (Guard { irqen: bit_u64(sstatus_val, sstatus::SIE) }),
            r.1 == set_bit_u64(sstatus_val, sstatus::SIE, false),
    {
        let en = irq::enabled(sstatus_val);
        let off = irq::off(sstatus_val);
        self.locked = true;
        (Guard { irqen: en }, off)
    }

    /// The value behind a held lock.
    pub fn value(&mut self) -> (r: &mut T)
        requires
            old(self).is_locked(),
        ensures
            *r == old(self)@,
            final(self)@ == *final(r),
            final(self).is_locked(),
    {
        &mut self.value
    }

    /// Releases the lock held with `guard`, given `sstatus`: returns `sstatus` with interrupts
    /// enabled again if they were enabled when the lock was taken.
    pub fn unlock(&mut self, guard: Guard, sstatus_val: u64) -> (r: u64)
        requires
            old(self).is_locked(),
        ensures
            !final(self).is_locked(),
            final(self)@ == old(self)@,
            r == if guard.irqen { set_bit_u64(sstatus_val, sstatus::SIE, true) } else { sstatus_val },
    {
        self.locked = false;
        if guard.irqen {
            irq::on(sstatus_val)
        } else {
            sstatus_val
        }
    }
}

/// Taking the lock and releasing it with its guard leaves `sstatus` as it was.
pub proof fn lemma_lock_restores(s: u64)
    ensures
        ({
            let g = Guard { irqen: bit_u64(s, sstatus::SIE) };
            let off = set_bit_u64(s, sstatus::SIE, false);
            (if g.irqen { set_bit_u64(off, sstatus::SIE, true) } else { off }) == s
        }),
{
    crate::cpu::lemma_guard_restores(crate::cpu::Cpu { coreid: 0, primary: false, stack: 0 }, s);
}

} // verus!
