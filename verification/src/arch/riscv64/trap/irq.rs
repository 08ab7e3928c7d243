//! Supervisor interrupt enable, as a bit of `sstatus`.
use vstd::prelude::*;
use crate::arch::riscv64::csr::sstatus;
use crate::bit::{Bit, bit_u64, set_bit_u64};

verus! {

/// `sstatus` with supervisor interrupts enabled.
pub fn on(sstatus: u64) -> (r: u64)
    ensures
        r == set_bit_u64(sstatus, sstatus::SIE, true),
{
    sstatus.set_bit(sstatus::SIE, true)
}

/// `sstatus` with supervisor interrupts disabled.
pub fn off(sstatus: u64) -> (r: u64)
    ensures
        r == set_bit_u64(sstatus, sstatus::SIE, false),
{
    sstatus.set_bit(sstatus::SIE, false)
}

/// Whether `sstatus` has supervisor interrupts enabled.
pub fn enabled(sstatus: u64) -> (r: bool)
    ensures
        r == bit_u64(sstatus, sstatus::SIE),
{
    sstatus.bit(sstatus::SIE)
}

/// Turning interrupts on or off is seen by `enabled`, and touches no other bit of `sstatus`.
pub proof fn lemma_on_off(s: u64, other: usize)
    requires
        other < 64,
        other != sstatus::SIE,
    ensures
        bit_u64(set_bit_u64(s, sstatus::SIE, true), sstatus::SIE),
        !bit_u64(set_bit_u64(s, sstatus::SIE, false), sstatus::SIE),
        bit_u64(set_bit_u64(s, sstatus::SIE, true), other) == bit_u64(s, other),
        bit_u64(set_bit_u64(s, sstatus::SIE, false), other) == bit_u64(s, other),
{
    crate::bit::lemma_u64_bit_set_bit(s, sstatus::SIE, true, other);
    crate::bit::lemma_u64_bit_set_bit(s, sstatus::SIE, false, other);
}

} // verus!
