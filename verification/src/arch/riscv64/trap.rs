use vstd::prelude::*;
use crate::arch::riscv64::csr::{cause, sstatus};
use crate::arch::riscv64::regs::{Regs, regs_zero};
use crate::bit::{Bit, set_bit_u64};

pub mod irq;

verus! {

/// Registers of a process saved when it traps, with the kernel's thread pointer, stack pointer
/// and global pointer for the way back in.
#[derive(Copy, Clone)]
pub struct Trapframe {
    pub ktp: u64,
    pub ksp: u64,
    pub kgp: u64,
    pub epc: usize,
    pub regs: Regs,
}

/// A trap frame that is all zero.
pub open spec fn trapframe_zero() -> Trapframe {
    Trapframe { ktp: 0, ksp: 0, kgp: 0, epc: 0, regs: regs_zero() }
}

impl Default for Trapframe {
    fn default() -> (r: Trapframe)
        ensures
            r == trapframe_zero(),
    {
        Trapframe { ktp: 0, ksp: 0, kgp: 0, epc: 0, regs: Regs::default() }
    }
}

/// What a trap in kernel mode calls for.
#[derive(Copy, Clone, PartialEq, Eq, Structural)]
pub enum KernelTrap {
    /// A timer interrupt, to be handled.
    Timer,
    /// Anything else, which the kernel does not handle.
    Unhandled,
}

/// Classifies a trap in kernel mode by its cause.
pub fn kerneltrap(scause: u64) -> (r: KernelTrap)
    ensures
        r == (if scause == cause::STI { KernelTrap::Timer } else { KernelTrap::Unhandled }),
{
    if scause == cause::STI {
        KernelTrap::Timer
    } else {
        KernelTrap::Unhandled
    }
}

/// What a trap in user mode calls for.
#[derive(Copy, Clone, PartialEq, Eq, Structural)]
pub enum UserTrap {
    /// A system call with the given number.
    Syscall(usize),
    /// A timer interrupt.
    Timer,
}

/// Whether the kernel handles a trap from user mode with cause `scause`: a system call or a
/// supervisor timer interrupt. Any other trap stops the machine.
pub open spec fn user_handles(scause: u64) -> bool {
    scause == cause::ECALL_U || scause == cause::STI
}

/// Classifies a trap in user mode by its cause. For a system call, the process resumes after the
/// `ecall` instruction at `sepc`, and the call number comes from `a7`.
pub fn usertrap(tf: &mut Trapframe, scause: u64, sepc: usize) -> (r: UserTrap)
    requires
        user_handles(scause),
        scause == cause::ECALL_U ==> sepc + 4 <= usize::MAX,
    ensures
        scause == cause::ECALL_U ==> r == UserTrap::Syscall(old(tf).regs.a7)
            && *final(tf) == (Trapframe { epc: (sepc + 4) as usize, ..*old(tf) }),
        scause == cause::STI ==> r == UserTrap::Timer && *final(tf) == *old(tf),
{
    if scause == cause::ECALL_U {
        let sysno = tf.regs.a7;
        tf.epc = sepc + 4;
        UserTrap::Syscall(sysno)
    } else {
        UserTrap::Timer
    }
}

/// `sstatus` for returning to user mode: previous privilege user, interrupts enabled after the
/// return.
pub fn usertrapret_sstatus(sstatus: u64) -> (r: u64)
    ensures
        r == set_bit_u64(set_bit_u64(sstatus, sstatus::SPP, false), sstatus::SPIE, true),
{
    sstatus.set_bit(sstatus::SPP, false).set_bit(sstatus::SPIE, true)
}

} // verus!
