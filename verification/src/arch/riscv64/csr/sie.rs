use vstd::prelude::*;

verus! {

/// Bit position: supervisor external interrupts.
pub const SEIE: usize = 9;

/// Bit position: supervisor timer interrupts.
pub const STIE: usize = 5;

/// Bit position: supervisor software interrupts.
pub const SSIE: usize = 1;

} // verus!
