use vstd::prelude::*;

verus! {

pub const SYS_WRITE: usize = 0;
pub const SYS_GETPID: usize = 1;
pub const SYS_EXIT: usize = 2;
pub const SYS_FORK: usize = 3;
pub const SYS_WAIT: usize = 4;
pub const SYS_SBRK: usize = 5;
pub const SYS_USLEEP: usize = 6;

} // verus!
