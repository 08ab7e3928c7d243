//! Firmware interface: calls from the kernel to the monitor.
use vstd::prelude::*;

verus! {

/// Firmware function, passed in `a7`.
#[derive(Copy, Clone, PartialEq, Eq, Structural)]
pub enum Func {
    WakeCores,
    SetTimer,
    SetWatchpoint,
}

impl Func {
    /// Number of the function.
    pub fn value(self) -> (r: usize)
        ensures
            r == match self {
                Func::WakeCores => 0usize,
                Func::SetTimer => 1usize,
                Func::SetWatchpoint => 2usize,
            },
    {
        match self {
            Func::WakeCores => 0,
            Func::SetTimer => 1,
            Func::SetWatchpoint => 2,
        }
    }

    /// The function with number `n`, if any.
    pub fn from_value(n: usize) -> (r: Option<Func>)
        ensures
            r == match n {
                0 => Some(Func::WakeCores),
                1 => Some(Func::SetTimer),
                2 => Some(Func::SetWatchpoint),
                _ => None::<Func>,
            },
    {
        if n == 0 {
            Some(Func::WakeCores)
        } else if n == 1 {
            Some(Func::SetTimer)
        } else if n == 2 {
            Some(Func::SetWatchpoint)
        } else {
            None
        }
    }
}

} // verus!
