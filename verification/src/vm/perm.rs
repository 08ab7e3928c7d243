use vstd::prelude::*;

verus! {

/// Readable.
pub const READ: u8 = 1;
/// Writable.
pub const WRITE: u8 = 2;
/// Executable.
pub const EXEC: u8 = 4;
/// Accessible from user mode.
pub const USER: u8 = 8;
/// Copy-on-write.
pub const COW: u8 = 16;
/// Readable, writable and executable.
pub const RWX: u8 = 7;
/// Readable, writable and executable from user mode.
pub const URWX: u8 = 15;
/// Readable and writable from user mode.
pub const URW: u8 = 11;

} // verus!
