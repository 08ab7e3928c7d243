use vstd::prelude::*;

verus! {

/// Breakpoint exception.
pub const BREAKPOINT: u64 = 3;

/// Environment call from user mode.
pub const ECALL_U: u64 = 8;

/// Environment call from supervisor mode.
pub const ECALL_S: u64 = 9;

/// Supervisor timer interrupt.
pub const STI: u64 = 0x8000_0000_0000_0005;

/// Machine timer interrupt.
pub const MTI: u64 = 0x8000_0000_0000_0007;

} // verus!
