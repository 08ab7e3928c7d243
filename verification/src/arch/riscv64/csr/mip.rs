use vstd::prelude::*;

verus! {

/// Bit position: supervisor timer interrupt pending.
pub const STIP: usize = 5;

} // verus!
