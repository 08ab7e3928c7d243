//! A lock that disables interrupts during a critical region, for access to a value.
use vstd::prelude::*;
use crate::arch::trap::irq;
use crate::arch::csr::sstatus;
use crate::bit::{bit_u64, set_bit_u64};

verus! {

/// A value accessed in critical regions.
pub struct IrqLock<T> {
    value: T,
}

/// A critical region: remembers whether interrupts were enabled when it began.
#[derive(Copy, Clone, PartialEq, Eq, Structural)]
pub struct Guard {
    pub was_en: bool,
}

impl<T> IrqLock<T> {
    /// The value.
    pub closed spec fn view(&self) -> T {
        self.value
    }

    /// A lock around `value`.
    pub fn new(value: T) -> (r: Self)
        ensures
            r@ == value,
    {
        Self { value }
    }

    /// Begins a critical region, given `sstatus`: returns the guard, which records whether
    /// interrupts were enabled, and `sstatus` with interrupts disabled.
    pub fn lock(&self, sstatus_val: u64) -> (r: (Guard, u64))
        ensures
            r.0 == (Guard { was_en: bit_u64(sstatus_val, sstatus::SIE) }),
            r.1 == set_bit_u64(sstatus_val, sstatus::SIE, false),
    {
        (Guard { was_en: irq::enabled(sstatus_val) }, irq::off(sstatus_val))
    }

    /// The value, inside a critical region.
    pub fn value(&mut self, guard: &Guard) -> (r: &mut T)
        ensures
            *r == old(self)@,
            final(self)@ == *final(r),
    {
        &mut self.value
    }

    /// Ends the critical region of `guard`, given `sstatus`: returns `sstatus` with interrupts
    /// enabled again if they were enabled when the region began.
    pub fn unlock(&self, guard: Guard, sstatus_val: u64) -> (r: u64)
        ensures
            r == if guard.was_en { set_bit_u64(sstatus_val, sstatus::SIE, true) } else { sstatus_val },
    {
        if guard.was_en {
            irq::on(sstatus_val)
        } else {
            sstatus_val
        }
    }
}

} // verus!
