//! Control and status registers: privilege levels and register bit positions.
use vstd::prelude::*;

pub mod cause;
pub mod mie;
pub mod mip;
pub mod sie;
pub mod sstatus;

verus! {

/// Privilege level.
#[derive(Copy, Clone, PartialEq, Eq, Structural)]
pub enum Priv {
    U,
    S,
    M,
}

impl Priv {
    /// Encoding of the privilege level (as in `mstatus.MPP`).
    pub fn value(self) -> (r: u64)
        ensures
            r == match self {
                Priv::U => 0u64,
                Priv::S => 1u64,
                Priv::M => 3u64,
            },
    {
        match self {
            Priv::U => 0b00,
            Priv::S => 0b01,
            Priv::M => 0b11,
        }
    }
}

/// Bits of `sstatus`.
#[derive(Copy, Clone, PartialEq, Eq, Structural)]
pub enum Sstatus {
    Sie,
    Spie,
    Spp,
    Sum,
}

impl Sstatus {
    /// Position of the bit.
    pub fn value(self) -> (r: usize)
        ensures
            r == match self {
                Sstatus::Sie => 1usize,
                Sstatus::Spie => 5usize,
                Sstatus::Spp => 8usize,
                Sstatus::Sum => 18usize,
            },
    {
        match self {
            Sstatus::Sie => 1,
            Sstatus::Spie => 5,
            Sstatus::Spp => 8,
            Sstatus::Sum => 18,
        }
    }
}

/// Bits of `sie`.
#[derive(Copy, Clone, PartialEq, Eq, Structural)]
pub enum Sie {
    Seie,
    Stie,
    Ssie,
}

impl Sie {
    /// Position of the bit.
    pub fn value(self) -> (r: usize)
        ensures
            r == match self {
                Sie::Seie => 9usize,
                Sie::Stie => 5usize,
                Sie::Ssie => 1usize,
            },
    {
        match self {
            Sie::Seie => 9,
            Sie::Stie => 5,
            Sie::Ssie => 1,
        }
    }
}

} // verus!
