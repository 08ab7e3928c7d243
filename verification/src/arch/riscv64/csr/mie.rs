use vstd::prelude::*;

verus! {

/// Bit position: machine timer interrupts.
pub const MTIE: usize = 7;

} // verus!
