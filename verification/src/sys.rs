use vstd::prelude::*;

verus! {

/// Number of bytes in `n` gibibytes.
pub fn gb(n: u64) -> (r: u64)
    requires
        n <= u64::MAX / 0x4000_0000,
    ensures
        r == n * 0x4000_0000,
{
    0x4000_0000 * n
}

/// Number of bytes in `n` mebibytes.
pub fn mb(n: u64) -> (r: u64)
    requires
        n <= u64::MAX / 0x10_0000,
    ensures
        r == n * 0x10_0000,
{
    0x10_0000 * n
}

/// Start of the high canonical kernel address range.
pub const HIGHMEM_BASE: u64 = 0xffff_ffc0_0000_0000;

/// Size of a page in bytes.
pub const PAGESIZE: u64 = 4096;

} // verus!
