//! Timekeeping over the machine timer and the cycle counter. Reading the counters is left to
//! the caller; these functions decide on the values read.
use vstd::prelude::*;
use crate::arch::timer;
use crate::board::machine;

verus! {

/// A busy wait: done once a counter has advanced `amt` past `start`.
#[derive(Copy, Clone, PartialEq, Eq, Structural)]
pub struct Delay {
    pub start: u64,
    pub amt: u64,
}

impl Delay {
    /// Whether the wait is over when the counter reads `now`.
    pub fn done(&self, now: u64) -> (r: bool)
        requires
            now >= self.start,
        ensures
            r == (now - self.start >= self.amt),
    {
        now - self.start >= self.amt
    }
}

/// A wait of `cyc` cycles, starting at cycle count `now`.
pub fn delay_cycles(cyc: u64, now: u64) -> (r: Delay)
    ensures
        r == (Delay { start: now, amt: cyc }),
{
    Delay { start: now, amt: cyc }
}

/// A wait of `us` microseconds, starting at timer value `now`.
pub fn delay_us(us: u64, now: u64) -> (r: Delay)
    requires
        us * machine::MTIME_FREQ <= u64::MAX,
    ensures
        r == (Delay { start: now, amt: (us * machine::MTIME_FREQ / 1_000_000) as u64 }),
{
    Delay { start: now, amt: us * timer::freq() / 1_000_000 }
}

/// Microseconds from the timer value `prev` to the timer value `now`.
pub fn us_since(prev: u64, now: u64) -> (r: u64)
    requires
        now >= prev,
        (now - prev) * 1_000_000 <= u64::MAX,
    ensures
        r == ((now - prev) * 1_000_000) as u64 / machine::MTIME_FREQ,
{
    (now - prev) * 1_000_000 / timer::freq()
}

} // verus!
