use vstd::prelude::*;

verus! {

/// Match loads.
pub const LOAD: u64 = 1;
/// Match stores.
pub const STORE: u64 = 2;
/// Match instruction fetches.
pub const EXEC: u64 = 4;
/// Match in user mode.
pub const USER: u64 = 8;
/// Match in supervisor mode.
pub const SUPER: u64 = 16;
/// Match an address equal to `tdata2`.
pub const EQ: u64 = 0;
/// Match an address at or above `tdata2`.
pub const GE: u64 = 0x100;
/// Match an address below `tdata2`.
pub const LT: u64 = 0x180;
/// Chain with the next trigger.
pub const CHAIN: u64 = 0x800;
/// Trigger type 6 (address/data match).
pub const MATCH6: u64 = 0x6000_0000_0000_0000;

} // verus!
