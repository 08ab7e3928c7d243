use vstd::prelude::*;

verus! {

/// Core clock frequency of the VisionFive 2, in Hz.
pub const CPU_FREQ: u64 = 1_250_000_000;

/// Number of cores of the VisionFive 2.
pub const NCORES: usize = 5;

/// Frequency of the machine timer, in Hz.
pub const MTIME_FREQ: u64 = 4_000_000;

/// A range of physical memory.
#[derive(Copy, Clone)]
pub struct MemRange {
    pub start: u64,
    pub size: u64,
}

/// Main memory: 3 GiB at 0x4000_0000.
pub fn main_memory() -> (r: MemRange)
    ensures
        r.start == 0x4000_0000,
        r.size == 0xc000_0000,
{
    MemRange { start: 0x4000_0000, size: 0xc000_0000 }
}

/// The physical memory ranges mapped for the kernel: the 1 GiB of devices below main memory,
/// and main memory.
pub fn mem_ranges() -> (r: [MemRange; 2])
    ensures
        r[0].start == 0,
        r[0].size == 0x4000_0000,
        r[1].start == 0x4000_0000,
        r[1].size == 0xc000_0000,
{
    [MemRange { start: 0, size: 0x4000_0000 }, main_memory()]
}

} // verus!
