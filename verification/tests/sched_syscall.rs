use rustiplix::proc::{Proc, ProcState, MAX_VA, STACK_VA, CANARY, KSTACK_SIZE};
use rustiplix::arch::vm::PtLevel;
use rustiplix::vm::{perm, PtIter};
use rustiplix::schedule::{reschedule, runnable_proc, Kernel, Queue, QueueIter, QueueType, Resched};
use rustiplix::syscall::{can_fork, err, num, sys_write, syscall, SysAction};

fn put(b: &mut [u8], off: usize, v: &[u8]) {
    b[off..off + v.len()].copy_from_slice(v);
}

fn tiny_elf() -> Vec<u8> {
    let mut b = vec![0u8; 124];
    put(&mut b, 0, &[0x7f, b'E', b'L', b'F']);
    put(&mut b, 24, &0x10000u64.to_le_bytes());
    put(&mut b, 32, &64u64.to_le_bytes());
    put(&mut b, 56, &1u16.to_le_bytes());
    put(&mut b, 64, &1u32.to_le_bytes());
    put(&mut b, 64 + 8, &120u64.to_le_bytes());
    put(&mut b, 64 + 16, &0x10000u64.to_le_bytes());
    put(&mut b, 64 + 32, &4u64.to_le_bytes());
    put(&mut b, 64 + 40, &4u64.to_le_bytes());
    put(&mut b, 120, &[0x13, 0, 0, 0]);
    b
}

fn frames(n: u64, base: u64) -> Vec<u64> {
    (0..n).map(|i| base + 0x1000 * i).collect()
}

fn new_proc(pid: u32, base: u64) -> Proc {
    let mut f = frames(12, base);
    Proc::new_from_elf(&tiny_elf(), pid, 0x9000, 0x1234, &mut f).unwrap()
}

#[test]
fn queue_is_first_in_first_out() {
    let mut q = Queue::new(QueueType::Run);
    q.push_front(1);
    q.push_front(2);
    q.push_front(3);
    assert_eq!(q.len(), 3);
    assert!(q.contains(2));
    assert!(!q.contains(4));
    assert_eq!(q.pop_back(), Some(1));
    assert_eq!(q.pop_back(), Some(2));
    assert_eq!(q.pop_back(), Some(3));
    assert_eq!(q.pop_back(), None);
    assert!(q.qtype() == QueueType::Run);
}

#[test]
fn queue_remove_keeps_order() {
    let mut q = Queue::new(QueueType::Wait);
    for pid in [1, 2, 3, 4] {
        q.push_front(pid);
    }
    q.remove(3);
    let mut it = QueueIter::new(&q);
    let mut seen = vec![];
    while let Some(pid) = it.next() {
        seen.push(pid);
    }
    assert_eq!(seen, vec![4, 2, 1]);
}

#[test]
fn pids_count_up_from_one() {
    let mut k = Kernel::new();
    assert_eq!(k.alloc_pid(), 1);
    assert_eq!(k.alloc_pid(), 2);
    assert_eq!(k.alloc_pid(), 3);
}

#[test]
fn new_process_starts_at_entry_with_user_stack() {
    let p = new_proc(7, 0x8010_0000);
    assert_eq!(p.data.pid, 7);
    assert!(p.data.state == ProcState::Runnable);
    assert_eq!(p.trapframe.epc, 0x10000);
    assert_eq!(p.trapframe.regs.sp as u64, STACK_VA + 4096 - 16);
    assert!(p.check_stack());
    assert_eq!(p.canary, CANARY);
    assert_eq!(p.kstackp(), KSTACK_SIZE - 16);
    let pages = p.user_pages();
    assert_eq!(pages.len(), 2);
}

#[test]
fn scheduler_round_robin() {
    let mut k = Kernel::new();
    let a = new_proc(1, 0x8010_0000);
    let b = new_proc(2, 0x8020_0000);
    assert!(reschedule(&mut k, a).0 == Resched::Requeued);
    assert!(reschedule(&mut k, b).0 == Resched::Requeued);
    let first = runnable_proc(&mut k).unwrap();
    assert_eq!(first.data.pid, 1);
    assert!(reschedule(&mut k, first).0 == Resched::Requeued);
    let second = runnable_proc(&mut k).unwrap();
    assert_eq!(second.data.pid, 2);
}

#[test]
fn exited_process_without_queue_is_freed() {
    let mut k = Kernel::new();
    let mut p = new_proc(1, 0x8010_0000);
    p.data.state = ProcState::Exited;
    let (what, back) = reschedule(&mut k, p);
    assert!(what == Resched::Freed);
    assert!(back.is_some());
    assert!(runnable_proc(&mut k).is_none());
}

#[test]
fn write_checks_its_arguments() {
    let p = new_proc(1, 0x8010_0000);
    assert!(sys_write(&p, 1, 0x1000, 5) == SysAction::Write { addr: 0x1000, sz: 5 });
    assert!(sys_write(&p, 1, 0x1000, 0) == SysAction::Return(0));
    assert!(sys_write(&p, 1, MAX_VA as usize, 5) == SysAction::Return(err::FAULT));
    assert!(sys_write(&p, 1, usize::MAX - 1, 5) == SysAction::Return(err::FAULT));
    assert!(sys_write(&p, 2, 0x1000, 5) == SysAction::Return(err::BADF));
}

#[test]
fn simple_calls_through_dispatch() {
    let mut k = Kernel::new();
    let mut p = new_proc(5, 0x8010_0000);
    let mut f: Vec<u64> = vec![];
    let r = syscall(&mut k, &mut p, num::SYS_GETPID, 0, 0, 0, 0, &mut f);
    assert!(r.0 == SysAction::Return(5));
    let r = syscall(&mut k, &mut p, num::SYS_SBRK, 0, 0, 0, 0, &mut f);
    assert!(r.0 == SysAction::Return(-1));
    let r = syscall(&mut k, &mut p, 99, 0, 0, 0, 0, &mut f);
    assert!(r.0 == SysAction::Return(err::NOSYS));
    p.trapframe.regs.a0 = 1;
    p.trapframe.regs.a1 = 0x2000;
    p.trapframe.regs.a2 = 3;
    let r = syscall(&mut k, &mut p, num::SYS_WRITE, 0, 0, 0, 0, &mut f);
    assert!(r.0 == SysAction::Write { addr: 0x2000, sz: 3 });
}

#[test]
fn wait_without_children_fails() {
    let mut k = Kernel::new();
    let mut p = new_proc(5, 0x8010_0000);
    let mut f: Vec<u64> = vec![];
    let r = syscall(&mut k, &mut p, num::SYS_WAIT, 0, 0, 0, 0, &mut f);
    assert!(r.0 == SysAction::Return(err::CHILD));
}

#[test]
fn fork_exit_wait() {
    let mut k = Kernel::new();
    let pid = k.alloc_pid();
    let mut parent = new_proc(pid, 0x8010_0000);
    let mut f = frames(20, 0x8100_0000);
    let r = syscall(&mut k, &mut parent, num::SYS_FORK, 0, 0, 0x9000, 0x1234, &mut f);
    assert!(r.0 == SysAction::Return(2));
    assert_eq!(parent.data.nchild, 1);
    // The child is on the run queue; run it and let it exit.
    let mut child = runnable_proc(&mut k).unwrap();
    assert_eq!(child.data.pid, 2);
    assert_eq!(child.data.parent, Some(1));
    assert_eq!(child.trapframe.regs.a0, 0);
    let r = syscall(&mut k, &mut child, num::SYS_EXIT, 0, 0, 0, 0, &mut f);
    assert!(r.0 == SysAction::Exit);
    assert!(reschedule(&mut k, child).0 == Resched::Parked);
    // The parent reaps it.
    let (act, zombie) = syscall(&mut k, &mut parent, num::SYS_WAIT, 0, 0, 0, 0, &mut f);
    assert!(act == SysAction::Return(2));
    assert_eq!(zombie.unwrap().data.pid, 2);
    assert_eq!(parent.data.nchild, 0);
}

#[test]
fn sleep_blocks_until_enough_time_passed() {
    let mut k = Kernel::new();
    let mut p = new_proc(1, 0x8010_0000);
    let mut f: Vec<u64> = vec![];
    p.trapframe.regs.a0 = 1000;
    // 7_160_000 ticks per second: 7160 ticks make 1000 us.
    let r = syscall(&mut k, &mut p, num::SYS_USLEEP, 7159, 0, 0, 0, &mut f);
    assert!(r.0 == SysAction::Block);
    assert!(p.data.state == ProcState::Blocked);
    let mut q = Kernel::new();
    let mut p2 = new_proc(2, 0x8020_0000);
    p2.trapframe.regs.a0 = 1000;
    let r = syscall(&mut q, &mut p2, num::SYS_USLEEP, 7160, 0, 0, 0, &mut f);
    assert!(r.0 == SysAction::Return(0));
}

#[test]
fn new_process_maps_segment_and_stack() {
    let p = new_proc(3, 0x8010_0000);
    let pt = &p.data.pt;
    let (loc, lvl) = pt.lookup(STACK_VA, PtLevel::Normal).unwrap();
    assert!(lvl == PtLevel::Normal);
    let pte = pt.pte_at(loc);
    assert_eq!(pte.perm(), perm::URW);
    let stack = pt.page(pte.pa()).unwrap();
    assert!(stack.data.iter().all(|&x| x == 0));
    let (loc, _) = pt.lookup(0x10000, PtLevel::Normal).unwrap();
    let pte = pt.pte_at(loc);
    assert_eq!(pte.perm(), perm::URWX);
    assert_eq!(&pt.page(pte.pa()).unwrap().data[0..4], &[0x13, 0, 0, 0]);
}

#[test]
fn forked_child_maps_copies_at_the_same_addresses() {
    let parent = new_proc(1, 0x8010_0000);
    let mut f = frames(20, 0x8100_0000);
    let child = Proc::new_from_parent(&parent, 2, 0x9000, 0x1234, &mut f).unwrap();
    for va in [0x10000u64, STACK_VA] {
        let (ploc, _) = parent.data.pt.lookup(va, PtLevel::Normal).unwrap();
        let (cloc, clvl) = child.data.pt.lookup(va, PtLevel::Normal).unwrap();
        assert!(clvl == PtLevel::Normal);
        let ppte = parent.data.pt.pte_at(ploc);
        let cpte = child.data.pt.pte_at(cloc);
        assert_eq!(cpte.perm(), ppte.perm());
        assert_ne!(cpte.pa(), ppte.pa());
        assert_eq!(child.data.pt.page(cpte.pa()).unwrap().data, parent.data.pt.page(ppte.pa()).unwrap().data);
    }
}

#[test]
fn irq_ready_checks_the_ticks_queue() {
    let mut k = Kernel::new();
    assert!(k.irq_ready());
    let mut p = new_proc(1, 0x8010_0000);
    p.block(&mut k.ticks);
    // The blocked process is not in the table yet.
    assert!(!k.irq_ready());
    k.procs.push(p);
    assert!(k.irq_ready());
    let q = new_proc(1, 0x8020_0000);
    k.procs.push(q);
    // Two processes share PID 1.
    assert!(!k.irq_ready());
}

#[test]
fn loaded_and_forked_processes_can_fork() {
    let parent = new_proc(1, 0x8010_0000);
    assert!(can_fork(&parent));
    let mut f = frames(20, 0x8100_0000);
    let child = Proc::new_from_parent(&parent, 2, 0x9000, 0x1234, &mut f).unwrap();
    assert!(can_fork(&child));
}

/// The addresses and permissions a scan of `p`'s table finds, in order.
fn mappings(p: &Proc) -> Vec<(u64, u8)> {
    let mut out = Vec::new();
    let mut it = PtIter::new(&p.data.pt);
    while let Some(m) = it.next() {
        out.push((m.va(), m.perm()));
    }
    out
}

#[test]
fn forked_child_has_exactly_the_parents_mappings() {
    let parent = new_proc(1, 0x8010_0000);
    let mut f = frames(20, 0x8100_0000);
    let child = Proc::new_from_parent(&parent, 2, 0x9000, 0x1234, &mut f).unwrap();
    let pm = mappings(&parent);
    assert_eq!(pm, vec![(0x10000, perm::URWX), (STACK_VA, perm::URW)]);
    assert_eq!(mappings(&child), pm);
    let mut pt = child.data.pt;
    let freed = pt.free();
    let mut sorted = freed.clone();
    sorted.sort();
    sorted.dedup();
    assert_eq!(sorted.len(), freed.len());
}
