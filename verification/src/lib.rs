use vstd::prelude::*;

pub mod bit;
pub mod bootloader;
pub mod builtin;
pub mod sync;
pub mod sys;
pub mod syscall;
pub mod timer;
pub mod trap;
pub mod vm;
pub mod arch;
pub mod board;
pub mod cpu;
pub mod crc;
pub mod dev;
pub mod elf;
pub mod kalloc;
pub mod primary;
pub mod proc;
pub mod schedule;

verus! {

} // verus!
