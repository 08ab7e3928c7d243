use vstd::prelude::*;

verus! {

/// Converts a kernel address to a physical address when the code runs as the monitor, where
/// kernel addresses are physical addresses.
pub fn ka2pa(ka: u64) -> (r: u64)
    ensures
        r == ka,
{
    ka
}

/// Converts a physical address to a kernel address when the code runs as the monitor, where
/// kernel addresses are physical addresses.
pub fn pa2ka(pa: u64) -> (r: u64)
    ensures
        r == pa,
{
    pa
}

} // verus!
