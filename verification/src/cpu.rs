//! Per-core state.
use vstd::prelude::*;
use crate::arch::trap::irq;
use crate::bit::{bit_u64, set_bit_u64};
use crate::arch::csr::sstatus;

verus! {

/// Core-local state.
#[derive(Copy, Clone, PartialEq, Eq, Structural)]
pub struct Cpu {
    pub coreid: usize,
    pub primary: bool,
    pub stack: usize,
}

impl Cpu {
    /// The state of core `coreid`: each core's stack ends `(coreid + 1)` pages above
    /// `stack_start`.
    pub fn init(coreid: usize, primary: bool, stack_start: usize) -> (r: Cpu)
        requires
            stack_start + (coreid + 1) * 4096 <= usize::MAX,
        ensures
            r == (Cpu { coreid, primary, stack: (stack_start + (coreid + 1) * 4096) as usize }),
    {
        Cpu { coreid, primary, stack: stack_start + (coreid + 1) * 4096 }
    }
}

/// Whether the secondary cores have booted. The primary core sets it once,
/// after which it never changes.
pub struct Booted {
    all: bool,
}

impl Booted {
    /// Whether the secondary cores have booted.
    pub closed spec fn is_set(&self) -> bool {
        self.all
    }

    /// Before the secondary cores boot.
    pub fn new() -> (r: Booted)
        ensures
            !r.is_set(),
    {
        Booted { all: false }
    }

    /// Records that the secondary cores have booted; it must not have been
    /// recorded before.
    pub fn set_booted_all(&mut self)
        requires
            !old(self).is_set(),
        ensures
            final(self).is_set(),
    {
        self.all = true;
    }

    /// Whether the secondary cores have booted.
    pub fn booted_all(&self) -> (r: bool)
        ensures
            r == self.is_set(),
    {
        self.all
    }
}

/// Access to the core-local state with interrupts disabled; remembers whether they were
/// enabled before.
#[derive(Copy, Clone, PartialEq, Eq, Structural)]
pub struct CpuGuard {
    pub cpu: Cpu,
    pub was_en: bool,
}

impl CpuGuard {
    /// Takes the guard for the core state `cpu`, given `sstatus`: returns the guard and
    /// `sstatus` with interrupts disabled.
    pub fn new(cpu: Cpu, sstatus_val: u64) -> (r: (CpuGuard, u64))
        ensures
            r.0 == (CpuGuard { cpu, was_en: bit_u64(sstatus_val, sstatus::SIE) }),
            r.1 == set_bit_u64(sstatus_val, sstatus::SIE, false),
    {
        let was_en = irq::enabled(sstatus_val);
        let off = irq::off(sstatus_val);
        (CpuGuard { cpu, was_en }, off)
    }

    /// Gives the guard up: `sstatus` with interrupts enabled again if they were enabled when
    /// the guard was taken, and unchanged otherwise.
    pub fn release(&self, sstatus_val: u64) -> (r: u64)
        ensures
            r == if self.was_en { set_bit_u64(sstatus_val, sstatus::SIE, true) } else { sstatus_val },
    {
        if self.was_en {
            irq::on(sstatus_val)
        } else {
            sstatus_val
        }
    }
}

/// The guard for the core state `cpu` (see `CpuGuard::new`).
pub fn cpu(c: Cpu, sstatus_val: u64) -> (r: (CpuGuard, u64))
    ensures
        r.0 == (CpuGuard { cpu: c, was_en: bit_u64(sstatus_val, sstatus::SIE) }),
        r.1 == set_bit_u64(sstatus_val, sstatus::SIE, false),
{
    CpuGuard::new(c, sstatus_val)
}

/// Taking a guard and giving it up leaves `sstatus` as it was.
pub proof fn lemma_guard_restores(c: Cpu, s: u64)
    ensures
        ({
            let g = CpuGuard { cpu: c, was_en: bit_u64(s, sstatus::SIE) };
            let off = set_bit_u64(s, sstatus::SIE, false);
            (if g.was_en { set_bit_u64(off, sstatus::SIE, true) } else { off }) == s
        }),
{
    assert(((s >> 1usize) & 1 != 0) ==> (((s & !(1u64 << 1usize)) | (0u64 << 1usize)) & !(1u64 << 1usize)) | (1u64 << 1usize) == s) by (bit_vector);
    assert(!((s >> 1usize) & 1 != 0) ==> ((s & !(1u64 << 1usize)) | (0u64 << 1usize)) == s) by (bit_vector);
}

} // verus!
