//! Traps taken by the monitor (machine mode).
use vstd::prelude::*;
use crate::arch::riscv64::csr::{cause, mie, mip};
use crate::arch::riscv64::fwi::Func;
use crate::arch::riscv64::monitor::debug::{self, brkpt, TriggerWrite};
use crate::arch::riscv64::regs::Regs;
use crate::bit::{Bit, set_bit_u64};

verus! {

/// A firmware call from the kernel, as the monitor carries it out.
#[derive(Copy, Clone, PartialEq, Eq, Structural)]
pub enum FwiCall {
    /// Wake the secondary cores.
    WakeCores,
    /// Arm the timer for the given time.
    SetTimer(u64),
    /// Place the given watchpoint.
    SetWatchpoint(TriggerWrite),
    /// An unknown function.
    Unknown,
}

/// Decodes a firmware call from the registers of the calling hart, and sets its result in `a0`:
/// 0 for a known function, `usize::MAX` for an unknown one.
pub fn fwi_handler(regs: &mut Regs) -> (r: FwiCall)
    ensures
        r == match old(regs).a7 {
            0 => FwiCall::WakeCores,
            1 => FwiCall::SetTimer(old(regs).a0 as u64),
            2 => FwiCall::SetWatchpoint(TriggerWrite {
                tselect: 0,
                tdata1: (brkpt::LOAD | brkpt::STORE | brkpt::SUPER) | brkpt::MATCH6,
                tdata2: Some(old(regs).a0 as u64),
            }),
            _ => FwiCall::Unknown,
        },
        *final(regs) == (Regs { a0: if r == FwiCall::Unknown { usize::MAX } else { 0 }, ..*old(regs) }),
{
    let call = match Func::from_value(regs.a7) {
        Some(Func::WakeCores) => FwiCall::WakeCores,
        Some(Func::SetTimer) => FwiCall::SetTimer(regs.a0 as u64),
        Some(Func::SetWatchpoint) => {
            FwiCall::SetWatchpoint(debug::place(0, regs.a0 as u64, brkpt::LOAD | brkpt::STORE | brkpt::SUPER))
        },
        None => {
            regs.a0 = usize::MAX;
            return FwiCall::Unknown;
        },
    };
    regs.a0 = 0;
    call
}

/// `mip` and `mie` after arming the timer: no supervisor timer interrupt pending, machine timer
/// interrupts enabled.
pub fn set_timer(mip_val: u64, mie_val: u64) -> (r: (u64, u64))
    ensures
        r == (set_bit_u64(mip_val, mip::STIP, false), set_bit_u64(mie_val, mie::MTIE, true)),
{
    (mip_val.set_bit(mip::STIP, false), mie_val.set_bit(mie::MTIE, true))
}

/// What a trap into the monitor calls for.
#[derive(Copy, Clone, PartialEq, Eq, Structural)]
pub enum MonitorTrap {
    /// A firmware call, already decoded; the monitor resumes at `mepc`, past the `ecall`.
    Fwi { call: FwiCall, mepc: u64 },
    /// A machine timer interrupt, passed on to the supervisor with these `mie` and `mip`.
    TimerToSupervisor { mie: u64, mip: u64 },
}

/// Whether the monitor handles a trap with cause `mcause`: an `ecall` from supervisor mode or a
/// machine timer interrupt. Any other trap (a breakpoint among them) stops the machine.
pub open spec fn monitor_handles(mcause: u64) -> bool {
    mcause == cause::ECALL_S || mcause == cause::MTI
}

/// Handles a trap into the monitor with cause `mcause`, given the registers of the hart, the
/// trap's `mepc` and the current `mie` and `mip`: a firmware call is decoded (its result set in
/// `a0`) and the monitor resumes after the 4-byte `ecall`; a machine timer interrupt is passed on
/// to the supervisor.
pub fn monitortrap(regs: &mut Regs, mcause: u64, mepc: u64, mie_val: u64, mip_val: u64) -> (r: MonitorTrap)
    requires
        monitor_handles(mcause),
        mcause == cause::ECALL_S ==> mepc + 4 <= u64::MAX,
    ensures
        mcause == cause::ECALL_S ==> ({
            r matches MonitorTrap::Fwi { call, mepc: m } && m == mepc + 4 && call == match old(regs).a7 {
                0 => FwiCall::WakeCores,
                1 => FwiCall::SetTimer(old(regs).a0 as u64),
                2 => FwiCall::SetWatchpoint(TriggerWrite {
                    tselect: 0,
                    tdata1: (brkpt::LOAD | brkpt::STORE | brkpt::SUPER) | brkpt::MATCH6,
                    tdata2: Some(old(regs).a0 as u64),
                }),
                _ => FwiCall::Unknown,
            } && *final(regs) == (Regs { a0: if call == FwiCall::Unknown { usize::MAX } else { 0 }, ..*old(regs) })
        }),
        mcause == cause::MTI ==> r == (MonitorTrap::TimerToSupervisor {
            mie: set_bit_u64(mie_val, mie::MTIE, false),
            mip: set_bit_u64(mip_val, mip::STIP, true),
        }) && *final(regs) == *old(regs),
{
    if mcause == cause::ECALL_S {
        MonitorTrap::Fwi { call: fwi_handler(regs), mepc: mepc + 4 }
    } else {
        MonitorTrap::TimerToSupervisor { mie: mie_val.set_bit(mie::MTIE, false), mip: mip_val.set_bit(mip::STIP, true) }
    }
}

} // verus!
