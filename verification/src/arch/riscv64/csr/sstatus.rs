use vstd::prelude::*;

verus! {

/// Bit position: supervisor interrupt enable.
pub const SIE: usize = 1;

/// Bit position: supervisor previous interrupt enable.
pub const SPIE: usize = 5;

/// Bit position: supervisor previous privilege.
pub const SPP: usize = 8;

/// Bit position: supervisor access to user memory.
pub const SUM: usize = 18;

} // verus!
