use vstd::prelude::*;

verus! {

/// Bad file descriptor.
pub const BADF: isize = -9;
/// No such system call.
pub const NOSYS: isize = -38;
/// Bad address.
pub const FAULT: isize = -14;
/// Out of memory.
pub const NOMEM: isize = -12;
/// No child processes.
pub const CHILD: isize = -10;

} // verus!
