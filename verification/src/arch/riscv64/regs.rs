use vstd::prelude::*;
use crate::arch::vm::Pagetable;
use crate::bit::set_bits_u64;

verus! {

/// The general-purpose registers of a RISC-V hart, other than `zero`.
#[derive(Copy, Clone)]
pub struct Regs {
    pub ra: usize,
    pub sp: usize,
    pub gp: usize,
    pub tp: usize,
    pub t0: usize,
    pub t1: usize,
    pub t2: usize,
    pub s0: usize,
    pub s1: usize,
    pub a0: usize,
    pub a1: usize,
    pub a2: usize,
    pub a3: usize,
    pub a4: usize,
    pub a5: usize,
    pub a6: usize,
    pub a7: usize,
    pub s2: usize,
    pub s3: usize,
    pub s4: usize,
    pub s5: usize,
    pub s6: usize,
    pub s7: usize,
    pub s8: usize,
    pub s9: usize,
    pub s10: usize,
    pub s11: usize,
    pub t3: usize,
    pub t4: usize,
    pub t5: usize,
    pub t6: usize,
}

/// Registers that are all zero.
pub open spec fn regs_zero() -> Regs {
    Regs {
        ra: 0, sp: 0, gp: 0, tp: 0, t0: 0, t1: 0, t2: 0, s0: 0, s1: 0, a0: 0, a1: 0, a2: 0, a3: 0,
        a4: 0, a5: 0, a6: 0, a7: 0, s2: 0, s3: 0, s4: 0, s5: 0, s6: 0, s7: 0, s8: 0, s9: 0,
        s10: 0, s11: 0, t3: 0, t4: 0, t5: 0, t6: 0,
    }
}

impl Default for Regs {
    fn default() -> (r: Regs)
        ensures
            r == regs_zero(),
    {
        Regs {
            ra: 0, sp: 0, gp: 0, tp: 0, t0: 0, t1: 0, t2: 0, s0: 0, s1: 0, a0: 0, a1: 0, a2: 0,
            a3: 0, a4: 0, a5: 0, a6: 0, a7: 0, s2: 0, s3: 0, s4: 0, s5: 0, s6: 0, s7: 0, s8: 0,
            s9: 0, s10: 0, s11: 0, t3: 0, t4: 0, t5: 0, t6: 0,
        }
    }
}

impl Regs {
    /// First system call argument (`a0`).
    pub fn arg0(&self) -> (r: usize)
        ensures
            r == self.a0,
    {
        self.a0
    }

    /// Second system call argument (`a1`).
    pub fn arg1(&self) -> (r: usize)
        ensures
            r == self.a1,
    {
        self.a1
    }

    /// Third system call argument (`a2`).
    pub fn arg2(&self) -> (r: usize)
        ensures
            r == self.a2,
    {
        self.a2
    }

    /// Sets the system call return value (`a0`).
    pub fn set_ret(&mut self, val: usize)
        ensures
            *final(self) == (Regs { a0: val, ..*old(self) }),
    {
        self.a0 = val;
    }
}

/// Registers saved across a kernel context switch: return address, stack pointer, the
/// callee-saved registers, the page table (`satp`), and the address of the trap frame of the
/// process being switched to (0 when there is none).
#[derive(Copy, Clone)]
pub struct Context {
    pub ra: usize,
    pub sp: usize,
    pub s0: usize,
    pub s1: usize,
    pub s2: usize,
    pub s3: usize,
    pub s4: usize,
    pub s5: usize,
    pub s6: usize,
    pub s7: usize,
    pub s8: usize,
    pub s9: usize,
    pub s10: usize,
    pub s11: usize,
    pub satp: u64,
    pub proc: usize,
}

/// A context whose registers are all zero, except `ra` and `sp`.
pub open spec fn context_with(sp: usize, ra: usize) -> Context {
    Context {
        ra, sp, s0: 0, s1: 0, s2: 0, s3: 0, s4: 0, s5: 0, s6: 0, s7: 0, s8: 0, s9: 0, s10: 0,
        s11: 0, satp: 0, proc: 0,
    }
}

impl Context {
    /// A context whose registers are all zero.
    pub fn zero() -> (r: Context)
        ensures
            r == context_with(0, 0),
    {
        Context {
            ra: 0,
            sp: 0,
            s0: 0,
            s1: 0,
            s2: 0,
            s3: 0,
            s4: 0,
            s5: 0,
            s6: 0,
            s7: 0,
            s8: 0,
            s9: 0,
            s10: 0,
            s11: 0,
            satp: 0,
            proc: 0,
        }
    }

    /// Switches the context to the page table `pt`, whose root table is at physical address
    /// `root_pa`.
    pub fn set_pt(&mut self, pt: &Pagetable, root_pa: u64)
        ensures
            *final(self) == (Context { satp: set_bits_u64(root_pa / 4096, 63, 60, crate::arch::vm::SV39), ..*old(self) }),
    {
        self.satp = pt.satp(root_pa);
    }

    /// A context that starts at `ra` with stack `sp`; the other registers are zero.
    pub fn new(sp: usize, ra: usize) -> (r: Context)
        ensures
            r == context_with(sp, ra),
    {
        Context {
            ra,
            sp,
            s0: 0,
            s1: 0,
            s2: 0,
            s3: 0,
            s4: 0,
            s5: 0,
            s6: 0,
            s7: 0,
            s8: 0,
            s9: 0,
            s10: 0,
            s11: 0,
            satp: 0,
            proc: 0,
        }
    }
}

} // verus!
