//! Hardware breakpoints (debug triggers), as the values written to the trigger registers.
use vstd::prelude::*;

pub mod brkpt;

verus! {

/// Number of hardware breakpoints.
pub const NBRKPT: u64 = 2;

/// Values to write to the trigger registers: `tselect`, then `tdata1`, then `tdata2` when there
/// is one.
#[derive(Copy, Clone, PartialEq, Eq, Structural)]
pub struct TriggerWrite {
    pub tselect: u64,
    pub tdata1: u64,
    pub tdata2: Option<u64>,
}

/// Places breakpoint `n` at `addr`, matching the accesses in `flags`.
pub fn place(n: u64, addr: u64, flags: u64) -> (r: TriggerWrite)
    ensures
        r == (TriggerWrite { tselect: n, tdata1: flags | brkpt::MATCH6, tdata2: Some(addr) }),
{
    TriggerWrite { tselect: n, tdata1: flags | brkpt::MATCH6, tdata2: Some(addr) }
}

/// Clears breakpoint `n`.
pub fn clear(n: u64) -> (r: TriggerWrite)
    ensures
        r == (TriggerWrite { tselect: n, tdata1: 0 | brkpt::MATCH6, tdata2: None }),
{
    TriggerWrite { tselect: n, tdata1: 0 | brkpt::MATCH6, tdata2: None }
}

/// Places breakpoints `n` and `n + 1` so that together they match accesses anywhere but at
/// `addr` and `addr + 1`: below `addr`, and at or above `addr + 2`.
pub fn place_mismatch(n: u64, addr: u64, flags: u64) -> (r: (TriggerWrite, TriggerWrite))
    requires
        n + 1 <= u64::MAX,
        addr + 2 <= u64::MAX,
    ensures
        r.0 == (TriggerWrite { tselect: n, tdata1: flags | brkpt::LT | brkpt::MATCH6, tdata2: Some(addr) }),
        r.1 == (TriggerWrite { tselect: (n + 1) as u64, tdata1: flags | brkpt::GE | brkpt::MATCH6, tdata2: Some((addr + 2) as u64) }),
{
    let below = TriggerWrite { tselect: n, tdata1: flags | brkpt::LT | brkpt::MATCH6, tdata2: Some(addr) };
    let above = TriggerWrite { tselect: n + 1, tdata1: flags | brkpt::GE | brkpt::MATCH6, tdata2: Some(addr + 2) };
    (below, above)
}

/// Clears every breakpoint, in order.
pub fn clear_all() -> (r: Vec<TriggerWrite>)
    ensures
        r@.len() == NBRKPT,
        forall|i: int| 0 <= i < NBRKPT ==> #[trigger] r@[i] == (TriggerWrite { tselect: i as u64, tdata1: 0 | brkpt::MATCH6, tdata2: None }),
{
    let mut writes: Vec<TriggerWrite> = Vec::new();
    let mut i: u64 = 0;
    while i < NBRKPT
        invariant
            i <= NBRKPT,
            writes@.len() == i,
            forall|j: int| 0 <= j < i ==> #[trigger] writes@[j] == (TriggerWrite { tselect: j as u64, tdata1: 0 | brkpt::MATCH6, tdata2: None }),
        decreases NBRKPT - i,
    {
        writes.push(clear(i));
        i += 1;
    }
    writes
}

} // verus!
