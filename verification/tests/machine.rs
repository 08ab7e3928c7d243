use rustiplix::arch::csr::{cause, sstatus};
use rustiplix::arch::monitor::trap::{monitortrap, FwiCall, MonitorTrap};
use rustiplix::arch::regs::Regs;
use rustiplix::arch::trap::{usertrap, Trapframe, UserTrap};
use rustiplix::syscall::{set_result, SysAction};
use rustiplix::arch::trap::irq;
use rustiplix::arch::vm::Pte;
use rustiplix::builtin::backtrace::{Unwind, MAX_BACKTRACE_ADRESSES};
use rustiplix::builtin::mem::{memcpy, memset};
use rustiplix::cpu::{cpu, Booted, Cpu};
use rustiplix::dev::uart::dwapb;
use rustiplix::kalloc::Page;
use rustiplix::primary::PrimaryCell;
use rustiplix::sys::HIGHMEM_BASE;
use rustiplix::timer::{delay_us, us_since};

#[test]
fn interrupts_on_off() {
    let s = irq::on(0);
    assert!(irq::enabled(s));
    assert_eq!(s, 1 << sstatus::SIE);
    let s = irq::off(s | 0x100);
    assert!(!irq::enabled(s));
    assert_eq!(s, 0x100);
}

#[test]
fn cpu_guard_restores_interrupts() {
    let c = Cpu::init(1, false, 0x8000_0000);
    assert_eq!(c.stack, 0x8000_2000);
    let (g, s) = cpu(c, 1 << sstatus::SIE);
    assert!(!irq::enabled(s));
    assert!(irq::enabled(g.release(s)));
    let (g, s) = cpu(c, 0);
    assert!(!irq::enabled(g.release(s)));
}

#[test]
fn boot_flag_is_set_once() {
    let mut b = Booted::new();
    assert!(!b.booted_all());
    b.set_booted_all();
    assert!(b.booted_all());
}

#[test]
fn primary_cell_reads_what_was_written() {
    let mut c = PrimaryCell::new(3u32);
    *c.get_mut(false) = 9;
    assert_eq!(*c.get(), 9);
}

#[test]
fn timer_arithmetic() {
    assert_eq!(us_since(0, 7_160_000), 1_000_000);
    let d = delay_us(1000, 500);
    assert!(!d.done(500 + 7159));
    assert!(d.done(500 + 7160));
}

#[test]
fn byte_routines() {
    let mut v = [1u8, 2, 3, 4];
    memset(&mut v, 7);
    assert_eq!(v, [7; 4]);
    let mut d = [0u8; 3];
    memcpy(&mut d, &[9, 8, 7]);
    assert_eq!(d, [9, 8, 7]);
    let p = Page::zeroed(0x8000_0000);
    assert_eq!(p.data.len(), 4096);
    assert!(p.data.iter().all(|&b| b == 0));
}

#[test]
fn line_status_bits() {
    assert!(dwapb::thr_empty(1 << 5));
    assert!(!dwapb::thr_empty(1));
    assert!(!dwapb::rx_empty(1));
    assert!(dwapb::rx_empty(1 << 5));
}

/// Runs the unwinder over frame records given as (frame pointer, return
/// address, caller's frame pointer).
fn walk(fp: u64, suppress: i32, records: &[(u64, u64, u64)]) -> [Option<usize>; 10] {
    let mut u = Unwind::new(fp, suppress);
    while let Some(fp) = u.next_frame() {
        let (_, ra, next) = *records.iter().find(|r| r.0 == fp).unwrap();
        u.step(ra, next);
    }
    u.result
}

#[test]
fn unwinder_follows_frames() {
    let f1 = HIGHMEM_BASE + 0x1000;
    let f2 = HIGHMEM_BASE + 0x2000;
    let f3 = HIGHMEM_BASE + 0x3000;
    let recs = [(f1, 0xa1, f2), (f2, 0xa2, f3), (f3, 0xa3, 0)];
    let r = walk(f1, 0, &recs);
    assert_eq!(&r[..4], &[Some(0xa1), Some(0xa2), Some(0xa3), None]);
    let r = walk(f1, 1, &recs);
    assert_eq!(&r[..3], &[Some(0xa2), Some(0xa3), None]);
}

#[test]
fn unwinder_stops_at_repeats_zero_and_capacity() {
    let f1 = HIGHMEM_BASE + 0x1000;
    let f2 = HIGHMEM_BASE + 0x2000;
    // A repeated return address ends the walk.
    let r = walk(f1, 0, &[(f1, 0xa1, f2), (f2, 0xa1, f1)]);
    assert_eq!(&r[..2], &[Some(0xa1), None]);
    // A zero return address ends it.
    let r = walk(f1, 0, &[(f1, 0, f2)]);
    assert_eq!(r[0], None);
    // A frame pointer below the kernel's addresses is not followed.
    let r = walk(0x1000, 0, &[]);
    assert_eq!(r[0], None);
    // A loop of distinct addresses stops once the result is full.
    let r = walk(f1, 0, &[(f1, 0xa1, f2), (f2, 0xa2, f1)]);
    assert_eq!(r.len(), MAX_BACKTRACE_ADRESSES);
    assert!(r.iter().all(|a| a.is_some()));
    assert_eq!(r[9], Some(0xa2));
}

#[test]
fn zero_entry_is_invalid() {
    assert!(!Pte::zero().is_valid());
}

#[test]
fn unwinder_negative_suppress_records_nothing() {
    let f1 = HIGHMEM_BASE + 0x1000;
    let f2 = HIGHMEM_BASE + 0x2000;
    let r = walk(f1, -1, &[(f1, 0xa1, f2), (f2, 0xa2, 0)]);
    assert!(r.iter().all(|a| a.is_none()));
}

#[test]
fn monitor_ecall_resumes_past_it() {
    let mut regs = Regs::default();
    regs.a7 = 1;
    regs.a0 = 500;
    let r = monitortrap(&mut regs, cause::ECALL_S, 0x8000_1000, 0, 0);
    assert!(r == MonitorTrap::Fwi { call: FwiCall::SetTimer(500), mepc: 0x8000_1004 });
    assert_eq!(regs.a0, 0);
    let mut regs = Regs::default();
    regs.a7 = 42;
    let r = monitortrap(&mut regs, cause::ECALL_S, 0x100, 0, 0);
    assert!(r == MonitorTrap::Fwi { call: FwiCall::Unknown, mepc: 0x104 });
    assert_eq!(regs.a0, usize::MAX);
}

#[test]
fn monitor_timer_goes_to_supervisor() {
    let mut regs = Regs::default();
    regs.a0 = 7;
    let r = monitortrap(&mut regs, cause::MTI, 0x100, 1 << 7, 0);
    assert!(r == MonitorTrap::TimerToSupervisor { mie: 0, mip: 1 << 5 });
    assert_eq!(regs.a0, 7);
}

#[test]
fn user_ecall_steps_past_it_and_result_lands_in_a0() {
    let mut tf = Trapframe::default();
    tf.regs.a7 = 1;
    let r = usertrap(&mut tf, cause::ECALL_U, 0x2000);
    assert!(r == UserTrap::Syscall(1));
    assert_eq!(tf.epc, 0x2004);
    set_result(&mut tf, SysAction::Return(-38));
    assert_eq!(tf.regs.a0, (-38isize) as usize);
    set_result(&mut tf, SysAction::Write { addr: 0x10, sz: 5 });
    assert_eq!(tf.regs.a0, 5);
    set_result(&mut tf, SysAction::Block);
    assert_eq!(tf.regs.a0, 5);
    let r = usertrap(&mut tf, cause::STI, 0x3000);
    assert!(r == UserTrap::Timer);
    assert_eq!(tf.epc, 0x2004);
}
