//! System calls. Each handler decides on the calling process and the kernel's queues; what
//! needs the machine (copying user memory to the console, switching away from a process) is
//! left to the caller, as the returned action says.
use vstd::prelude::*;
use crate::arch::vm::{frame_ok, pa_of, perm_of, maps_to, PtLevel};
use crate::arch::trap::Trapframe;
use crate::arch::regs::Regs;
use crate::proc::{Proc, ProcState, MAX_VA};
use crate::schedule::{Kernel, QueueType, QueueIter, find_proc, woken, proc_index};
use crate::timer;
use crate::board::machine;
use crate::vm::{yields, mapping_entry, scan_from, copyable, next_from, step, PtIter};

pub mod err;
pub mod num;

verus! {

/// What the caller of a system call handler does next.
#[derive(Copy, Clone, PartialEq, Eq, Structural)]
pub enum SysAction {
    /// Return this value to the process.
    Return(isize),
    /// Write the `sz` bytes at user address `addr` to the console, then return `sz`.
    Write { addr: usize, sz: usize },
    /// The process has exited and is on the exit queue: switch away from it for good.
    Exit,
    /// The process has blocked on a queue: switch away from it, and issue the same call again
    /// when it runs next.
    Block,
}

/// Hands a system call's result back to the process: its `a0` becomes the returned value (for a
/// write, the number of bytes written, once they are out). A process that exited or blocked
/// gets nothing yet.
pub fn set_result(tf: &mut Trapframe, act: SysAction)
    ensures
        *final(tf) == match act {
            SysAction::Return(v) => Trapframe { regs: Regs { a0: v as usize, ..old(tf).regs }, ..*old(tf) },
            SysAction::Write { addr, sz } => Trapframe { regs: Regs { a0: sz, ..old(tf).regs }, ..*old(tf) },
            _ => *old(tf),
        },
{
    match act {
        SysAction::Return(v) => {
            tf.regs.a0 = v as usize;
        },
        SysAction::Write { addr, sz } => {
            tf.regs.a0 = sz;
        },
        _ => {},
    }
}

/// The PID of the process.
pub fn sys_getpid(p: &Proc) -> (r: u32)
    ensures
        r == p.data.pid,
{
    p.data.pid
}

/// What `write` answers: nothing to do for an empty buffer, `EFAULT` for a
/// buffer that wraps around or starts outside user space, `EBADF` for any
/// descriptor but standard output, and otherwise the buffer to print.
pub open spec fn write_action(fd: i32, addr: usize, sz: usize) -> SysAction {
    if sz == 0 {
        SysAction::Return(0)
    } else if addr + sz > usize::MAX || addr >= MAX_VA {
        SysAction::Return(err::FAULT)
    } else if fd != 1 {
        SysAction::Return(err::BADF)
    } else {
        SysAction::Write { addr, sz }
    }
}

/// What `write` answers, by its inputs: nothing to do for 0 bytes; `FAULT` exactly when the
/// buffer wraps around or starts at or above `MAX_VA`, the end of user space (so a buffer on
/// the user stack, just below `MAX_VA`, is accepted); then `BADF` for any descriptor but 1; and
/// otherwise the bytes at `addr` are written and `sz` returned.
pub proof fn lemma_write_action(fd: i32, addr: usize, sz: usize)
    ensures
        sz == 0 ==> write_action(fd, addr, sz) == SysAction::Return(0),
        sz > 0 && (addr + sz > usize::MAX || addr >= MAX_VA) ==> write_action(fd, addr, sz) == SysAction::Return(err::FAULT),
        sz > 0 && addr + sz <= usize::MAX && addr < MAX_VA && fd != 1 ==> write_action(fd, addr, sz) == SysAction::Return(err::BADF),
        sz > 0 && addr + sz <= usize::MAX && addr < MAX_VA && fd == 1 ==> write_action(fd, addr, sz) == (SysAction::Write { addr, sz }),
{
}

/// Validates a write of `sz` bytes at `addr` to the file descriptor `fd`: nothing to write for
/// 0 bytes, `FAULT` when the buffer wraps around or starts at or above `MAX_VA`, `BADF` unless
/// `fd` is standard output (1); otherwise the write goes ahead and returns `sz`.
pub fn sys_write(_p: &Proc, fd: i32, addr: usize, sz: usize) -> (r: SysAction)
    ensures
        r == write_action(fd, addr, sz),
        sz == 0 ==> r == SysAction::Return(0),
        sz > 0 && (addr + sz > usize::MAX || addr >= MAX_VA) ==> r == SysAction::Return(err::FAULT),
        sz > 0 && addr + sz <= usize::MAX && addr < MAX_VA && fd != 1 ==> r == SysAction::Return(err::BADF),
        sz > 0 && addr + sz <= usize::MAX && addr < MAX_VA && fd == 1 ==> r == (SysAction::Write { addr, sz }),
{
    proof {
        lemma_write_action(fd, addr, sz);
    }
    if sz == 0 {
        return SysAction::Return(0);
    }
    let overflow = addr.wrapping_add(sz);
    if overflow < addr || (addr as u64) >= MAX_VA {
        return SysAction::Return(err::FAULT);
    }
    if fd != 1 {
        return SysAction::Return(err::BADF);
    }
    SysAction::Write { addr, sz }
}

/// `sbrk` is not supported.
pub fn sys_sbrk(_p: &Proc) -> (r: isize)
    ensures
        r == -1,
{
    -1
}

/// Whether the parent process can be forked: each user mapping a scan finds is a leaf on a page
/// it owns (`can_fork` tests it).
pub open spec fn forkable(p: &Proc) -> bool {
    &&& p.wf()
    &&& copyable(p.data.pt)
}

/// Tests whether `p` can be forked (see `forkable`), by a scan of its mappings.
pub fn can_fork(p: &Proc) -> (r: bool)
    requires
        p.wf(),
    ensures
        r == forkable(p),
{
    let ghost ppt = p.data.pt;
    let ghost vas = scan_from(ppt, 0);
    let mut it = PtIter::new(&p.data.pt);
    let ghost mut k: int = 0;
    let mut next = it.next();
    proof {
        crate::vm::lemma_scan_next(ppt, 0);
    }
    while next.is_some()
        invariant
            ppt == p.data.pt,
            ppt.wf(),
            it.table() == ppt,
            it.pos() <= MAX_VA + 0x4000_0000,
            vas == scan_from(ppt, 0),
            0 <= k <= vas.len(),
            next is None ==> k == vas.len(),
            next matches Some(m) ==> k < vas.len() && m.vaddr() == vas[k] && m.entry() == mapping_entry(ppt, vas[k]),
            next is Some ==> scan_from(ppt, it.pos()) == vas.subrange(k + 1, vas.len() as int),
            forall|j: int| 0 <= j < k ==> perm_of(#[trigger] mapping_entry(ppt, vas[j])@) & 7 != 0
                && ppt.owns_page(pa_of(mapping_entry(ppt, vas[j])@)),
        decreases vas.len() - k,
    {
        let m = next.unwrap();
        if m.perm() & 7 == 0 {
            return false;
        }
        if p.data.pt.page(m.pa()).is_none() {
            return false;
        }
        proof {
            k = k + 1;
        }
        let ghost pos0 = it.pos();
        proof {
            crate::vm::lemma_scan_next(ppt, it.pos());
        }
        next = it.next();
        proof {
            if next is Some {
                let s0 = scan_from(ppt, pos0);
                assert(s0 == vas.subrange(k, vas.len() as int));
                let v = next.unwrap().vaddr();
                assert(next_from(ppt, pos0) == Some(v));
                assert(it.pos() == step(ppt, v));
                assert(scan_from(ppt, step(ppt, v) as u64) == s0.subrange(1, s0.len() as int));
                assert(scan_from(ppt, it.pos()) =~= vas.subrange(k + 1, vas.len() as int));
            } else {
                assert(scan_from(ppt, pos0) == vas.subrange(k, vas.len() as int));
            }
        }
    }
    true
}

/// What a fork leaves behind: `k0`, `p0` and the frames `f0` before, `k1` and `p1` after, and
/// the result `r` that `p` sees.
pub open spec fn fork_done(k0: Kernel, p0: Proc, f0: Seq<u64>, k1: Kernel, p1: Proc, r: isize) -> bool {
    &&& (k1.wf())
    &&& (k1.exit == k0.exit && k1.wait == k0.wait && k1.ticks == k0.ticks)
    &&& (r == err::NOMEM ==> k1.run@ == k0.run@ && k1.procs@ == k0.procs@
            && p1.data.nchild == p0.data.nchild)
    &&& (r != err::NOMEM ==> ({
            let child = k1.procs@.last();
            &&& r == k0.next_pid as isize
            &&& k1.run@ == seq![k0.next_pid] + k0.run@
            &&& k1.procs@.drop_last() == k0.procs@
            &&& k1.procs@.len() == k0.procs@.len() + 1
            &&& child.data.pid == k0.next_pid
            &&& child.data.parent == Some(p0.data.pid)
            &&& child.trapframe == (crate::arch::trap::Trapframe {
                regs: crate::arch::regs::Regs { a0: 0, ..p0.trapframe.regs },
                ..p0.trapframe
            })
            &&& p1.data.nchild == p0.data.nchild + 1
            &&& child.wf()
            &&& child.data.state == ProcState::Runnable
            &&& child.data.wq is None
            &&& child.data.nchild == 0
            &&& child.data.pt.pages().len() == scan_from(p0.data.pt, 0).len()
            &&& forall|j: int| 0 <= j < scan_from(p0.data.pt, 0).len() ==> #[trigger] child.data.pt.pages()[j].data@
                == p0.data.pt.page_data(pa_of(mapping_entry(p0.data.pt, scan_from(p0.data.pt, 0)[j])@))
            &&& scan_from(child.data.pt, 0) == scan_from(p0.data.pt, 0)
            &&& copyable(child.data.pt)
            &&& forall|j: int| 0 <= j < scan_from(p0.data.pt, 0).len()
                ==> (child.data.pt.walk_spec(#[trigger] scan_from(p0.data.pt, 0)[j], PtLevel::Normal) matches Some((l, lv))
                    && lv == PtLevel::Normal && maps_to(child.data.pt.entry(l), child.data.pt.pages()[j].pa,
                        perm_of(mapping_entry(p0.data.pt, scan_from(p0.data.pt, 0)[j])@)))
        }))
    &&& (f0.len() >= 1 + 3 * scan_from(p0.data.pt, 0).len() ==> r != err::NOMEM)
    &&& (p1.data.pid == p0.data.pid)
    &&& (p1.data.state == p0.data.state)
    &&& (p1.data.wq == p0.data.wq)
    &&& (p1.data.parent == p0.data.parent)
    &&& (p1.wf())
}

/// Creates a child of `p` that is a copy of it (see `Proc::new_from_parent`), with the next
/// PID, and puts it on the front of the run queue. The child sees 0 returned; `p` gets the
/// child's PID, or `NOMEM` when the child cannot be created.
pub fn sys_fork(k: &mut Kernel, p: &mut Proc, kstack_sp: usize, forkret: usize, frames: &mut Vec<u64>) -> (r: isize)
    requires
        old(k).wf(),
        forkable(old(p)),
        old(p).data.nchild < usize::MAX,
        old(k).run@.len() < usize::MAX,
        old(k).next_pid <= isize::MAX,
        forall|i: int| 0 <= i < old(frames)@.len() ==> frame_ok(#[trigger] old(frames)@[i]),
        old(frames)@.no_duplicates(),
    ensures
        fork_done(*old(k), *old(p), old(frames)@, *final(k), *final(p), r),
{
    let pid = k.alloc_pid();
    let mut child = match Proc::new_from_parent(p, pid, kstack_sp, forkret, frames) {
        None => {
            return err::NOMEM;
        },
        Some(c) => c,
    };
    child.trapframe.regs.set_ret(0);
    p.data.nchild += 1;
    let cpid = child.data.pid;
    k.procs.push(child);
    k.run.push_front(cpid);
    proof {
        assert(k.procs@.drop_last() =~= old(k).procs@);
    }
    cpid as isize
}

/// What an exit leaves behind: `k0` and `p0` before, `k1` and `p1` after, and the action `r`.
pub open spec fn exit_done(k0: Kernel, p0: Proc, k1: Kernel, p1: Proc, r: SysAction) -> bool {
    &&& (r == SysAction::Exit)
    &&& (k1.wf())
    &&& (p1.data.state == ProcState::Exited)
    &&& (p1.data.wq == Some(QueueType::Exit))
    &&& (p1.data.pid == p0.data.pid)
    &&& (k1.exit@ == seq![p0.data.pid] + k0.exit@)
    &&& (k1.ticks == k0.ticks)
    &&& (k1.procs@.len() == k0.procs@.len())
    &&& (({
            let woke = match p0.data.parent {
                Some(ppid) => match proc_index(k0.procs@, ppid) {
                    Some(i) => k0.procs@[i].data.state == ProcState::Blocked
                        && k0.procs@[i].data.wq == Some(QueueType::Wait)
                        && k0.wait@.contains(ppid),
                    None => false,
                },
                None => false,
            };
            &&& woke ==> ({
                let ppid = p0.data.parent.unwrap();
                let i = proc_index(k0.procs@, ppid).unwrap();
                &&& k1.wait@ == k0.wait@.remove_value(ppid)
                &&& k1.run@ == seq![ppid] + k0.run@
                &&& woken(k0.procs@[i], k1.procs@[i])
                &&& forall|j: int| 0 <= j < k0.procs@.len() && j != i ==> k1.procs@[j] == k0.procs@[j]
            })
            &&& !woke ==> k1.wait == k0.wait && k1.run == k0.run && k1.procs == k0.procs
        }))
}

/// Exits `p`: marks it exited, wakes its parent if the parent waits for a child (blocked on the
/// wait queue), and puts `p` on the front of the exit queue.
pub fn sys_exit(k: &mut Kernel, p: &mut Proc) -> (r: SysAction)
    requires
        old(k).wf(),
        old(k).exit@.len() < usize::MAX,
        old(k).run@.len() < usize::MAX,
    ensures
        exit_done(*old(k), *old(p), *final(k), *final(p), r),
{
    p.data.state = ProcState::Exited;
    if let Some(ppid) = p.data.parent {
        match find_proc(&k.procs, ppid) {
            Some(i) => {
                proof {
                    lemma_find_is_index(old(k).procs@, ppid, i as int);
                }
                if k.procs[i].data.state == ProcState::Blocked && k.procs[i].data.wq == Some(QueueType::Wait)
                    && k.wait.contains(ppid) {
                    let ghost pre = k.procs@;
                    let mut parent = k.procs.remove(i);
                    k.wait.wake(&mut parent, &mut k.run);
                    k.procs.insert(i, parent);
                    proof {
                        assert forall|j: int| 0 <= j < old(k).procs@.len() && j != i implies k.procs@[j] == old(k).procs@[j] by {
                            assert(k.procs@ == pre.remove(i as int).insert(i as int, parent));
                        }
                    }
                }
            },
            None => {
                proof {
                    assert(proc_index(old(k).procs@, ppid) is None);
                }
            },
        }
    }
    p.exit(&mut k.exit);
    SysAction::Exit
}

/// `find_proc`'s answer is `proc_index`.
proof fn lemma_find_is_index(procs: Seq<Proc>, pid: u32, i: int)
    requires
        0 <= i < procs.len(),
        procs[i].data.pid == pid,
        forall|j: int| 0 <= j < i ==> (#[trigger] procs[j]).data.pid != pid,
    ensures
        proc_index(procs, pid) == Some(i),
{
    let c = choose|c: int| 0 <= c < procs.len() && (#[trigger] procs[c]).data.pid == pid
        && forall|j: int| 0 <= j < c ==> (#[trigger] procs[j]).data.pid != pid;
    if c < i {
    }
    if c > i {
        assert(procs[i].data.pid == pid);
    }
}

/// Sleeps `us` microseconds from the timer value `start`, given the timer value `now`: done
/// (returning 0) once that much time has passed; otherwise `p` blocks on the ticks queue, which
/// the timer interrupt wakes.
pub fn sys_usleep(k: &mut Kernel, p: &mut Proc, us: u64, start: u64, now: u64) -> (r: SysAction)
    requires
        old(k).wf(),
        now >= start,
        (now - start) * 1_000_000 <= u64::MAX,
        old(k).ticks@.len() < usize::MAX,
    ensures
        final(k).wf(),
        final(k).run == old(k).run && final(k).exit == old(k).exit && final(k).wait == old(k).wait,
        final(k).procs == old(k).procs,
        final(p).data.pid == old(p).data.pid,
        ((now - start) * 1_000_000) as u64 / machine::MTIME_FREQ >= us ==> r == SysAction::Return(0)
            && final(k).ticks == old(k).ticks && final(p).data.state == old(p).data.state && final(p).data.wq == old(p).data.wq,
        ((now - start) * 1_000_000) as u64 / machine::MTIME_FREQ < us ==> r == SysAction::Block
            && final(k).ticks@ == seq![old(p).data.pid] + old(k).ticks@
            && final(p).data.state == ProcState::Blocked && final(p).data.wq == Some(QueueType::Ticks),
{
    if timer::us_since(start, now) >= us {
        return SysAction::Return(0);
    }
    p.block(&mut k.ticks);
    SysAction::Block
}

/// No process among the first `j` on the exit queue of `k` is a child of `ppid`.
pub open spec fn no_child_before(k: Kernel, ppid: u32, j: int) -> bool {
    forall|q: int| 0 <= q < j ==> match proc_index(k.procs@, #[trigger] k.exit@[q]) {
        Some(i) => k.procs@[i].data.parent != Some(ppid),
        None => true,
    }
}

/// What a wait leaves behind: `k0` and `p0` before, `k1` and `p1` after, and the result `r`.
pub open spec fn wait_done(k0: Kernel, p0: Proc, k1: Kernel, p1: Proc, r: (SysAction, Option<Proc>)) -> bool {
    &&& k1.wf()
    &&& k1.run == k0.run && k1.ticks == k0.ticks
    &&& p1.data.pid == p0.data.pid
    &&& p0.data.nchild == 0 ==> r.0 == SysAction::Return(err::CHILD) && r.1 is None && k1 == k0 && p1 == p0
    &&& r.1 matches Some(z) ==> ({
        &&& z.data.parent == Some(p0.data.pid)
        &&& k0.exit@.contains(z.data.pid)
        &&& r.0 == SysAction::Return(z.data.pid as isize)
        &&& k1.exit@ == k0.exit@.remove_value(z.data.pid)
        &&& p1.data.nchild == p0.data.nchild - 1
        &&& k1.wait == k0.wait
        &&& k1.procs@.len() == k0.procs@.len() - 1
        &&& exists|j: int| #![trigger no_child_before(k0, p0.data.pid, j)] 0 <= j < k0.exit@.len()
            && k0.exit@[j] == z.data.pid && no_child_before(k0, p0.data.pid, j)
    })
    &&& p0.data.nchild != 0 && r.1 is None ==> r.0 == SysAction::Block
        && k1.wait@ == seq![p0.data.pid] + k0.wait@
        && k1.exit == k0.exit && k1.procs == k0.procs
        && p1.data.state == ProcState::Blocked && p1.data.wq == Some(QueueType::Wait)
        && forall|q: int| 0 <= q < k0.exit@.len() ==> match proc_index(k0.procs@, #[trigger] k0.exit@[q]) {
            Some(i) => k0.procs@[i].data.parent != Some(p0.data.pid),
            None => true,
        }
}

/// Waits for a child of `p` to exit: `CHILD` when `p` has no children; otherwise the first
/// exited child on the exit queue (front first) is taken off the queue and out of the process
/// table, `p` has one child less, and its PID is returned with the child (to be freed); when no
/// child has exited yet, `p` blocks on the wait queue.
#[verifier::rlimit(50)]
#[verifier::spinoff_prover]
pub fn sys_wait(k: &mut Kernel, p: &mut Proc) -> (r: (SysAction, Option<Proc>))
    requires
        old(k).wf(),
        old(k).wait@.len() < usize::MAX,
    ensures
        wait_done(*old(k), *old(p), *final(k), *final(p), r),
{
    if p.data.nchild == 0 {
        return (SysAction::Return(err::CHILD), None);
    }
    let mut it = QueueIter::new(&k.exit);
    let ghost mut seen: int = 0;
    let mut found: Option<usize> = None;
    loop
        invariant_except_break
            found is None,
            0 <= seen <= k.exit@.len(),
            it.rest() == k.exit@.subrange(seen, k.exit@.len() as int),
        invariant
            k == old(k),
            k.wf(),
            0 <= seen,
            p.data == old(p).data,
            p.data.nchild != 0,
            it.wf(),
            forall|q: int| 0 <= q < seen ==> match proc_index(k.procs@, #[trigger] k.exit@[q]) {
                Some(i) => k.procs@[i].data.parent != Some(p.data.pid),
                None => true,
            },
        ensures
            found matches Some(i) ==> i < k.procs@.len() && k.procs@[i as int].data.parent == Some(p.data.pid)
                && k.exit@.contains(k.procs@[i as int].data.pid)
                && seen < k.exit@.len() && k.exit@[seen] == k.procs@[i as int].data.pid,
            found is None ==> seen == k.exit@.len(),
        decreases k.exit@.len() - seen,
    {
        let zpid = match it.next() {
            None => {
                break;
            },
            Some(z) => z,
        };
        proof {
            assert(zpid == k.exit@[seen]);
        }
        match find_proc(&k.procs, zpid) {
            Some(i) => {
                proof {
                    lemma_find_is_index(k.procs@, zpid, i as int);
                }
                if k.procs[i].data.parent == Some(p.data.pid) {
                    proof {
                        assert(k.exit@.contains(zpid)) by {
                            assert(k.exit@[seen] == zpid);
                        }
                    }
                    found = Some(i);
                    break;
                }
            },
            None => {
                proof {
                    assert(proc_index(k.procs@, zpid) is None);
                }
            },
        }
        proof {
            assert(it.rest() =~= k.exit@.subrange(seen + 1, k.exit@.len() as int));
            seen = seen + 1;
        }
    }
    if let Some(i) = found {
        let ghost j = seen;
        proof {
            assert(0 <= j < old(k).exit@.len());
            assert(old(k).exit@[j] == old(k).procs@[i as int].data.pid);
            assert(no_child_before(*old(k), old(p).data.pid, j));
        }
        let zpid = k.procs[i].data.pid;
        k.exit.remove(zpid);
        let zombie = k.procs.remove(i);
        p.data.nchild = p.data.nchild - 1;
        proof {
            assert(zombie == old(k).procs@[i as int]);
            assert(0 <= j < old(k).exit@.len() && old(k).exit@[j] == zombie.data.pid
                && no_child_before(*old(k), old(p).data.pid, j));
        }
        return (SysAction::Return(zombie.data.pid as isize), Some(zombie));
    }
    p.block(&mut k.wait);
    (SysAction::Block, None)
}

/// Handles system call `sysno` of the process `p` (arguments in `a0`, `a1`, `a2`). `now` is the
/// current timer value and `start` the timer value when the call was first issued (for
/// `usleep`); `kstack_sp`, `forkret` and `frames` serve `fork` (see `sys_fork`). Returns the
/// action to take, and a child that `wait` reaped, to be freed.
pub fn syscall(k: &mut Kernel, p: &mut Proc, sysno: usize, now: u64, start: u64, kstack_sp: usize, forkret: usize, frames: &mut Vec<u64>) -> (r: (SysAction, Option<Proc>))
    requires
        old(k).wf(),
        sysno == num::SYS_FORK ==> forkable(old(p)) && old(p).data.nchild < usize::MAX
            && old(k).run@.len() < usize::MAX && old(k).next_pid <= isize::MAX
            && (forall|i: int| 0 <= i < old(frames)@.len() ==> frame_ok(#[trigger] old(frames)@[i]))
            && old(frames)@.no_duplicates(),
        sysno == num::SYS_EXIT ==> old(k).exit@.len() < usize::MAX && old(k).run@.len() < usize::MAX,
        sysno == num::SYS_USLEEP ==> now >= start && (now - start) * 1_000_000 <= u64::MAX
            && old(k).ticks@.len() < usize::MAX,
        sysno == num::SYS_WAIT ==> old(k).wait@.len() < usize::MAX,
    ensures
        final(k).wf(),
        final(p).data.pid == old(p).data.pid,
        sysno == num::SYS_GETPID ==> r == (SysAction::Return(old(p).data.pid as isize), None::<Proc>) && *final(k) == *old(k)
            && *final(p) == *old(p),
        sysno == num::SYS_WRITE ==> r.1 is None && *final(k) == *old(k) && *final(p) == *old(p) && r.0 == write_action(
            old(p).trapframe.regs.a0 as i32,
            old(p).trapframe.regs.a1,
            old(p).trapframe.regs.a2,
        ),
        sysno == num::SYS_SBRK ==> r == (SysAction::Return(-1isize), None::<Proc>) && *final(k) == *old(k)
            && *final(p) == *old(p),
        sysno == num::SYS_EXIT ==> r.1 is None && exit_done(*old(k), *old(p), *final(k), *final(p), r.0),
        sysno == num::SYS_FORK ==> r.1 is None && (r.0 matches SysAction::Return(v)
            && fork_done(*old(k), *old(p), old(frames)@, *final(k), *final(p), v)),
        sysno == num::SYS_USLEEP ==> r.1 is None && (if ((now - start) * 1_000_000) as u64 / machine::MTIME_FREQ >= old(p).trapframe.regs.a0 as u64 {
            r.0 == SysAction::Return(0)
        } else {
            r.0 == SysAction::Block && final(k).ticks@ == seq![old(p).data.pid] + old(k).ticks@
        }),
        sysno == num::SYS_WAIT ==> wait_done(*old(k), *old(p), *final(k), *final(p), r),
        sysno > num::SYS_USLEEP ==> r == (SysAction::Return(err::NOSYS), None::<Proc>) && *final(k) == *old(k)
            && *final(p) == *old(p),
{
    if sysno == num::SYS_GETPID {
        (SysAction::Return(sys_getpid(p) as isize), None)
    } else if sysno == num::SYS_WRITE {
        let fd = p.trapframe.regs.arg0() as i32;
        (sys_write(p, fd, p.trapframe.regs.arg1(), p.trapframe.regs.arg2()), None)
    } else if sysno == num::SYS_SBRK {
        (SysAction::Return(sys_sbrk(p)), None)
    } else if sysno == num::SYS_EXIT {
        (sys_exit(k, p), None)
    } else if sysno == num::SYS_FORK {
        (SysAction::Return(sys_fork(k, p, kstack_sp, forkret, frames)), None)
    } else if sysno == num::SYS_USLEEP {
        let us = p.trapframe.regs.arg0() as u64;
        (sys_usleep(k, p, us, start, now), None)
    } else if sysno == num::SYS_WAIT {
        sys_wait(k, p)
    } else {
        (SysAction::Return(err::NOSYS), None)
    }
}

} // verus!
