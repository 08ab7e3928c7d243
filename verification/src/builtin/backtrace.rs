//! Walking the chain of frame records that frame pointers leave on the stack.
//!
//! Each record sits just below the address its frame pointer holds: the
//! return address at `fp - 8` and the caller's frame pointer at `fp - 16`.
//! The walk is a state machine: `next_frame` says which record to read next,
//! and `step` takes in what was read there.
use vstd::prelude::*;
use crate::sys::HIGHMEM_BASE;
use crate::vm::ishka;

verus! {

/// The most return addresses a backtrace holds.
pub const MAX_BACKTRACE_ADRESSES: usize = 10;

/// Whether `ptr` can be a frame pointer: a high kernel address.
pub fn is_valid(ptr: u64) -> (r: bool)
    ensures
        r == (ptr >= HIGHMEM_BASE),
{
    ishka(ptr)
}

/// A backtrace in progress: the return addresses gathered so far (the first
/// `index` entries of `result`), how many more to skip, the last address
/// read, the frame pointer to follow, and whether the walk is over.
pub struct Unwind {
    pub result: [Option<usize>; 10],
    pub index: usize,
    pub suppress: i32,
    pub old_address: u64,
    pub fp: u64,
    pub done: bool,
}

impl Unwind {
    /// The first `index` entries hold addresses, the rest none.
    pub open spec fn wf(&self) -> bool {
        &&& self.index <= MAX_BACKTRACE_ADRESSES
        &&& forall|k: int| 0 <= k < 10 ==> (#[trigger] self.result@[k] is Some <==> k < self.index)
        &&& self.index == MAX_BACKTRACE_ADRESSES ==> self.done
    }

    /// A walk from frame pointer `fp` that skips the first `suppress` return
    /// addresses. With a negative `suppress` no address is ever recorded: each one
    /// read counts `suppress` further down.
    pub fn new(fp: u64, suppress: i32) -> (r: Unwind)
        ensures
            r.wf(),
            r.fp == fp,
            r.suppress == suppress,
            r.index == 0,
            r.old_address == 0,
            !r.done,
    {
        Unwind { result: [None; 10], index: 0, suppress, old_address: 0, fp, done: false }
    }

    /// The frame pointer whose record is to be read next; `None`, and the walk
    /// is over, once it is over or the frame pointer is not a kernel address.
    pub fn next_frame(&mut self) -> (r: Option<u64>)
        requires
            old(self).wf(),
        ensures
            final(self).wf(),
            !old(self).done && is_frame_ok(old(self).fp) ==> r == Some(old(self).fp) && *final(self)
                == *old(self),
            old(self).done || !is_frame_ok(old(self).fp) ==> r is None && final(self).done
                && final(self).result == old(self).result && final(self).index == old(self).index,
    {
        if self.done || !is_valid(self.fp) {
            self.done = true;
            return None;
        }
        Some(self.fp)
    }

    /// Takes in the record read at the current frame: the return `address`
    /// and the caller's frame pointer `next_fp`, which is followed next. The
    /// walk ends at an address equal to the last one read, or 0; otherwise the
    /// address is skipped while there are addresses to skip, and recorded
    /// after that, and the walk ends once the result is full.
    pub fn step(&mut self, address: u64, next_fp: u64)
        requires
            old(self).wf(),
            !old(self).done,
            old(self).suppress > i32::MIN,
        ensures
            final(self).wf(),
            final(self).fp == next_fp,
            address == old(self).old_address ==> final(self).done && final(self).result == old(self).result
                && final(self).index == old(self).index && final(self).suppress == old(self).suppress,
            address != old(self).old_address ==> final(self).old_address == address,
            address != old(self).old_address && address == 0 ==> final(self).done && final(self).result
                == old(self).result && final(self).index == old(self).index,
            address != old(self).old_address && address != 0 && old(self).suppress == 0 ==> {
                &&& final(self).result@ == old(self).result@.update(
                    old(self).index as int,
                    Some(address as usize),
                )
                &&& final(self).index == old(self).index + 1
                &&& final(self).suppress == 0
                &&& final(self).done == (final(self).index >= MAX_BACKTRACE_ADRESSES)
            },
            address != old(self).old_address && address != 0 && old(self).suppress != 0 ==> {
                &&& final(self).result == old(self).result
                &&& final(self).index == old(self).index
                &&& final(self).suppress == old(self).suppress - 1
                &&& !final(self).done
            },
    {
        self.fp = next_fp;
        if self.old_address == address {
            self.done = true;
            return;
        }
        self.old_address = address;
        if address == 0 {
            self.done = true;
            return;
        }
        if self.suppress == 0 {
            self.result[self.index] = Some(address as usize);
            self.index = self.index + 1;
            if self.index >= MAX_BACKTRACE_ADRESSES {
                self.done = true;
            }
        } else {
            self.suppress = self.suppress - 1;
        }
    }
}

/// Whether the walk follows the frame pointer `fp`.
pub open spec fn is_frame_ok(fp: u64) -> bool {
    fp >= HIGHMEM_BASE
}

} // verus!
