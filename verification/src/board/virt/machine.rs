use vstd::prelude::*;

verus! {

/// Number of cores of the QEMU virt machine.
pub const NCORES: usize = 4;

/// Frequency of the machine timer, in Hz.
pub const MTIME_FREQ: u64 = 7_160_000;

/// A range of physical memory.
#[derive(Copy, Clone)]
pub struct MemRange {
    pub start: u64,
    pub size: u64,
}

/// Main memory: 2 GiB at 0x8000_0000.
pub fn main_memory() -> (r: MemRange)
    ensures
        r.start == 0x8000_0000,
        r.size == 0x8000_0000,
{
    MemRange { start: 0x8000_0000, size: 0x8000_0000 }
}

/// The physical memory ranges mapped for the kernel: the 2 GiB of devices below main memory,
/// and main memory.
pub fn mem_ranges() -> (r: [MemRange; 2])
    ensures
        r[0].start == 0,
        r[0].size == 0x8000_0000,
        r[1].start == 0x8000_0000,
        r[1].size == 0x8000_0000,
{
    [MemRange { start: 0, size: 0x8000_0000 }, main_memory()]
}

} // verus!
