use vstd::prelude::*;

pub mod kr;

verus! {

/// A page of memory: the physical frame that holds it, and its bytes.
pub struct Page {
    pub pa: u64,
    pub data: Vec<u8>,
}

impl Page {
    /// A page at frame `pa` whose bytes are all zero.
    pub fn zeroed(pa: u64) -> (r: Page)
        ensures
            r.pa == pa,
            r.data@.len() == 4096,
            forall|i: int| 0 <= i < 4096 ==> #[trigger] r.data@[i] == 0,
    {
        let mut data: Vec<u8> = Vec::new();
        let mut i: usize = 0;
        while i < 4096
            invariant
                i <= 4096,
                data@.len() == i,
                forall|j: int| 0 <= j < i ==> #[trigger] data@[j] == 0,
            decreases 4096 - i,
        {
            data.push(0);
            i = i + 1;
        }
        Page { pa, data }
    }
}

} // verus!
