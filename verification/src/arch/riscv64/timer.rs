use vstd::prelude::*;
use crate::board::machine;

verus! {

/// Length of a scheduling time slice, in microseconds.
pub const TIME_SLICE_US: u64 = 10_000;

/// Frequency of the machine timer, in Hz.
pub fn freq() -> (r: u64)
    ensures
        r == machine::MTIME_FREQ,
{
    machine::MTIME_FREQ
}

/// The timer value at which the next timer interrupt should fire, `us` microseconds after the
/// timer value `now` (at whole ticks per microsecond).
pub fn intr(now: u64, us: u64) -> (r: u64)
    requires
        now + machine::MTIME_FREQ / 1_000_000 * us <= u64::MAX,
    ensures
        r == now + machine::MTIME_FREQ / 1_000_000 * us,
{
    let per_us = freq() / 1_000_000;
    assert(per_us == 7);
    now + per_us * us
}

} // verus!
