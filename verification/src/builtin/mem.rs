//! The byte routines behind `memset` and `memcpy`.
use vstd::prelude::*;

verus! {

/// Sets every byte of `v` to `c`, first to last.
pub fn memset(v: &mut [u8], c: u8)
    ensures
        final(v)@.len() == old(v)@.len(),
        forall|i: int| 0 <= i < final(v)@.len() ==> #[trigger] final(v)@[i] == c,
{
    let n = v.len();
    let mut i: usize = 0;
    while i < n
        invariant
            n == v@.len(),
            v@.len() == old(v)@.len(),
            i <= n,
            forall|k: int| 0 <= k < i ==> #[trigger] v@[k] == c,
        decreases n - i,
    {
        v[i] = c;
        i = i + 1;
    }
}

/// Copies `src` into `dst`, which has the same length, first byte to last.
pub fn memcpy(dst: &mut [u8], src: &[u8])
    requires
        old(dst)@.len() == src@.len(),
    ensures
        final(dst)@ == src@,
{
    let n = src.len();
    let mut i: usize = 0;
    while i < n
        invariant
            n == src@.len(),
            dst@.len() == n,
            i <= n,
            forall|k: int| 0 <= k < i ==> #[trigger] dst@[k] == src@[k],
        decreases n - i,
    {
        dst[i] = src[i];
        i = i + 1;
    }
    assert(dst@ =~= src@);
}

} // verus!
