//! Run and wait queues of processes, identified by PID.
use vstd::prelude::*;
use crate::proc::{Proc, ProcState};

verus! {

/// Which queue a queue is.
#[derive(Copy, Clone, PartialEq, Eq, Structural)]
pub enum QueueType {
    /// Runnable processes.
    Run,
    /// Exited processes.
    Exit,
    /// Processes waiting for a child.
    Wait,
    /// Processes waiting for the next timer interrupt.
    Ticks,
}

/// A queue of processes: processes enter at the front and leave at the back.
pub struct Queue {
    procs: Vec<u32>,
    size: usize,
    pub id: QueueType,
}

impl Queue {
    /// The PIDs in the queue, front first.
    pub closed spec fn view(&self) -> Seq<u32> {
        self.procs@
    }

    /// Which queue this is.
    pub closed spec fn kind(&self) -> QueueType {
        self.id
    }

    /// Well-formedness: the size is the number of processes.
    pub closed spec fn wf(&self) -> bool {
        self.size == self.procs@.len()
    }

    /// An empty queue.
    pub fn new(id: QueueType) -> (r: Queue)
        ensures
            r.wf(),
            r@ == Seq::<u32>::empty(),
            r.kind() == id,
    {
        Queue { procs: Vec::new(), size: 0, id }
    }

    /// Which queue this is.
    pub fn qtype(&self) -> (r: QueueType)
        ensures
            r == self.kind(),
    {
        self.id
    }

    /// Number of processes in the queue.
    pub fn len(&self) -> (r: usize)
        requires
            self.wf(),
        ensures
            r == self@.len(),
    {
        self.size
    }

    /// Pushes the process `pid` onto the front of the queue.
    pub fn push_front(&mut self, pid: u32)
        requires
            old(self).wf(),
            old(self)@.len() < usize::MAX,
        ensures
            final(self).wf(),
            final(self)@ == seq![pid] + old(self)@,
            final(self).kind() == old(self).kind(),
    {
        self.procs.insert(0, pid);
        self.size += 1;
        assert(self@ =~= seq![pid] + old(self)@);
    }

    /// Whether the process `pid` is in the queue.
    pub fn contains(&self, pid: u32) -> (r: bool)
        ensures
            r == self@.contains(pid),
    {
        let mut i: usize = 0;
        while i < self.procs.len()
            invariant
                i <= self@.len(),
                forall|j: int| 0 <= j < i ==> self@[j] != pid,
            decreases self@.len() - i,
        {
            if self.procs[i] == pid {
                assert(self@[i as int] == pid);
                return true;
            }
            i += 1;
        }
        false
    }

    /// Removes the process `pid`, which must be in the queue, from it.
    pub fn remove(&mut self, pid: u32)
        requires
            old(self).wf(),
            old(self)@.contains(pid),
        ensures
            final(self).wf(),
            final(self)@ == old(self)@.remove_value(pid),
            final(self).kind() == old(self).kind(),
    {
        let mut i: usize = 0;
        while i < self.procs.len()
            invariant
                i <= self@.len(),
                self@ == old(self)@,
                self.kind() == old(self).kind(),
                self.wf(),
                old(self)@.contains(pid),
                forall|j: int| 0 <= j < i ==> self@[j] != pid,
            decreases self@.len() - i,
        {
            if self.procs[i] == pid {
                proof {
                    self@.index_of_first_ensures(pid);
                    let k = self@.index_of_first(pid).unwrap();
                    if k < i {
                        assert(self@[k] != pid);
                    }
                    if k > i {
                        assert(self@[i as int] == pid);
                    }
                    assert(k == i);
                }
                self.procs.remove(i);
                self.size -= 1;
                return;
            }
            i += 1;
        }
        assert(false);
    }

    /// Removes the process at the back of the queue and returns it, or `None` when the queue is
    /// empty.
    pub fn pop_back(&mut self) -> (r: Option<u32>)
        requires
            old(self).wf(),
        ensures
            final(self).wf(),
            final(self).kind() == old(self).kind(),
            old(self)@.len() == 0 ==> r is None && final(self)@ == old(self)@,
            old(self)@.len() > 0 ==> r == Some(old(self)@.last()) && final(self)@ == old(self)@.drop_last(),
    {
        if self.size == 0 {
            return None;
        }
        let b = self.procs.pop();
        self.size -= 1;
        b
    }
}

/// A queue hands processes out in the order they came: a process pushed onto
/// the front leaves the back after every process that was already queued,
/// and right away when the queue was empty.
pub proof fn lemma_queue_order(q: Seq<u32>, pid: u32)
    ensures
        (seq![pid] + q).len() == q.len() + 1,
        q.len() == 0 ==> (seq![pid] + q).last() == pid && (seq![pid] + q).drop_last() == q,
        q.len() > 0 ==> (seq![pid] + q).last() == q.last() && (seq![pid] + q).drop_last() == seq![pid]
            + q.drop_last(),
{
    assert((seq![pid] + q).drop_last() =~= if q.len() == 0 { q } else { seq![pid] + q.drop_last() });
}

/// Iterator over the PIDs of a queue, front first.
pub struct QueueIter {
    pids: Vec<u32>,
    cur: usize,
}

impl QueueIter {
    /// The PIDs still to come.
    pub closed spec fn rest(&self) -> Seq<u32> {
        self.pids@.subrange(self.cur as int, self.pids@.len() as int)
    }

    /// Well-formedness: the position lies within the PIDs.
    pub closed spec fn wf(&self) -> bool {
        self.cur <= self.pids@.len()
    }

    /// An iterator over the PIDs of `q`.
    pub fn new(q: &Queue) -> (r: QueueIter)
        ensures
            r.wf(),
            r.rest() == q@,
    {
        let pids = q.procs.clone();
        assert(pids@.subrange(0, pids@.len() as int) == pids@);
        QueueIter { pids, cur: 0 }
    }

    /// The next PID, or `None` at the end.
    pub fn next(&mut self) -> (r: Option<u32>)
        requires
            old(self).wf(),
        ensures
            final(self).wf(),
            old(self).rest().len() == 0 ==> r is None && final(self).rest() == old(self).rest(),
            old(self).rest().len() > 0 ==> r == Some(old(self).rest()[0]) && final(self).rest() == old(self).rest().drop_first(),
    {
        if self.cur >= self.pids.len() {
            return None;
        }
        let ret = self.pids[self.cur];
        self.cur += 1;
        assert(self.rest() =~= old(self).rest().drop_first());
        Some(ret)
    }
}

/// The processes that are not running, with the queues that refer to them by PID.
pub struct Kernel {
    pub procs: Vec<Proc>,
    pub run: Queue,
    pub exit: Queue,
    pub wait: Queue,
    pub ticks: Queue,
    pub next_pid: u32,
}

/// Index in `procs` of the first process with PID `pid`, if any.
pub open spec fn proc_index(procs: Seq<Proc>, pid: u32) -> Option<int> {
    if exists|i: int| 0 <= i < procs.len() && (#[trigger] procs[i]).data.pid == pid {
        Some(choose|i: int| 0 <= i < procs.len() && (#[trigger] procs[i]).data.pid == pid
            && forall|j: int| 0 <= j < i ==> (#[trigger] procs[j]).data.pid != pid)
    } else {
        None
    }
}

/// Index in `procs` of the first process with PID `pid`, if any.
pub fn find_proc(procs: &Vec<Proc>, pid: u32) -> (r: Option<usize>)
    ensures
        r matches Some(i) ==> i < procs@.len() && procs@[i as int].data.pid == pid
            && forall|j: int| 0 <= j < i ==> (#[trigger] procs@[j]).data.pid != pid,
        r is None ==> forall|j: int| 0 <= j < procs@.len() ==> (#[trigger] procs@[j]).data.pid != pid,
{
    let mut i: usize = 0;
    while i < procs.len()
        invariant
            i <= procs@.len(),
            forall|j: int| 0 <= j < i ==> (#[trigger] procs@[j]).data.pid != pid,
        decreases procs@.len() - i,
    {
        if procs[i].data.pid == pid {
            return Some(i);
        }
        i += 1;
    }
    None
}

impl Kernel {
    /// Well-formedness of the queues.
    pub open spec fn wf(&self) -> bool {
        &&& self.run.wf() && self.run.kind() == QueueType::Run
        &&& self.exit.wf() && self.exit.kind() == QueueType::Exit
        &&& self.wait.wf() && self.wait.kind() == QueueType::Wait
        &&& self.ticks.wf() && self.ticks.kind() == QueueType::Ticks
    }

    /// No processes, empty queues, and the next PID 1.
    pub fn new() -> (r: Kernel)
        ensures
            r.wf(),
            r.procs@.len() == 0,
            r.run@.len() == 0 && r.exit@.len() == 0 && r.wait@.len() == 0 && r.ticks@.len() == 0,
            r.next_pid == 1,
    {
        Kernel {
            procs: Vec::new(),
            run: Queue::new(QueueType::Run),
            exit: Queue::new(QueueType::Exit),
            wait: Queue::new(QueueType::Wait),
            ticks: Queue::new(QueueType::Ticks),
            next_pid: 1,
        }
    }

    /// Whether the timer interrupt handlers can run on this kernel: no PID is on the ticks
    /// queue twice, no two processes share a PID, and every PID on the ticks queue names a
    /// blocked process of the table.
    pub fn irq_ready(&self) -> (r: bool)
        ensures
            r == (self.ticks@.no_duplicates()
                && (forall|i: int, j: int| 0 <= i < j < self.procs@.len() ==> (#[trigger] self.procs@[i]).data.pid
                    != (#[trigger] self.procs@[j]).data.pid)
                && all_blocked(self.ticks@, self.procs@)),
    {
        let n = self.procs.len();
        let mut i: usize = 0;
        while i < n
            invariant
                n == self.procs@.len(),
                i <= n,
                forall|a: int, b: int| 0 <= a < b < n && a < i ==> (#[trigger] self.procs@[a]).data.pid
                    != (#[trigger] self.procs@[b]).data.pid,
            decreases n - i,
        {
            let mut j: usize = i + 1;
            while j < n
                invariant
                    n == self.procs@.len(),
                    i < n,
                    i + 1 <= j <= n,
                    forall|a: int, b: int| 0 <= a < b < n && a < i ==> (#[trigger] self.procs@[a]).data.pid
                        != (#[trigger] self.procs@[b]).data.pid,
                    forall|b: int| i < b < j ==> self.procs@[i as int].data.pid != (#[trigger] self.procs@[b]).data.pid,
                decreases n - j,
            {
                if self.procs[i].data.pid == self.procs[j].data.pid {
                    return false;
                }
                j += 1;
            }
            i += 1;
        }
        let t = &self.ticks.procs;
        let m = t.len();
        let mut a: usize = 0;
        while a < m
            invariant
                n == self.procs@.len(),
                m == self.ticks@.len(),
                t@ == self.ticks@,
                a <= m,
                forall|x: int, y: int| 0 <= x < y < m && x < a ==> self.ticks@[x] != self.ticks@[y],
                forall|x: int| 0 <= x < a ==> #[trigger] blocked_in(self.ticks@[x], self.procs@),
                forall|x: int, y: int| 0 <= x < y < n ==> (#[trigger] self.procs@[x]).data.pid != (#[trigger] self.procs@[y]).data.pid,
            decreases m - a,
        {
            let mut b: usize = a + 1;
            while b < m
                invariant
                    m == self.ticks@.len(),
                    t@ == self.ticks@,
                    a < m,
                    a + 1 <= b <= m,
                    forall|x: int, y: int| 0 <= x < y < m && x < a ==> self.ticks@[x] != self.ticks@[y],
                    forall|y: int| a < y < b ==> self.ticks@[a as int] != self.ticks@[y],
                decreases m - b,
            {
                if t[a] == t[b] {
                    proof {
                        assert(self.ticks@[a as int] == self.ticks@[b as int]);
                        assert(!self.ticks@.no_duplicates());
                    }
                    return false;
                }
                b += 1;
            }
            match find_proc(&self.procs, t[a]) {
                None => {
                    proof {
                        assert(!blocked_in(self.ticks@[a as int], self.procs@));
                        assert(!all_blocked(self.ticks@, self.procs@));
                    }
                    return false;
                },
                Some(k) => {
                    if self.procs[k].data.state != ProcState::Blocked {
                        proof {
                            if blocked_in(self.ticks@[a as int], self.procs@) {
                                let w = choose|w: int| 0 <= w < self.procs@.len() && (#[trigger] self.procs@[w]).data.pid
                                    == self.ticks@[a as int] && self.procs@[w].data.state == ProcState::Blocked;
                                assert(w != k as int);
                                if w < k as int {
                                    assert(self.procs@[w].data.pid != self.procs@[k as int].data.pid);
                                } else {
                                    assert(self.procs@[k as int].data.pid != self.procs@[w].data.pid);
                                }
                            }
                            assert(!all_blocked(self.ticks@, self.procs@));
                        }
                        return false;
                    }
                },
            }
            a += 1;
        }
        proof {
            assert(self.ticks@.no_duplicates()) by {
                assert forall|x: int, y: int| 0 <= x < m && 0 <= y < m && x != y implies self.ticks@[x] != self.ticks@[y] by {
                    if x > y {
                        assert(self.ticks@[y] != self.ticks@[x]);
                    }
                }
            }
        }
        true
    }

    /// Takes the next PID (wrapping around after `u32::MAX`).
    pub fn alloc_pid(&mut self) -> (r: u32)
        ensures
            r == old(self).next_pid,
            final(self).next_pid == (if old(self).next_pid == u32::MAX { 0 } else { (old(self).next_pid + 1) as u32 }),
            final(self).procs == old(self).procs,
            final(self).run == old(self).run,
            final(self).exit == old(self).exit,
            final(self).wait == old(self).wait,
            final(self).ticks == old(self).ticks,
    {
        let pid = self.next_pid;
        self.next_pid = self.next_pid.wrapping_add(1);
        pid
    }
}

/// What the scheduler does with a process that has switched back to it.
#[derive(Copy, Clone, PartialEq, Eq, Structural)]
pub enum Resched {
    /// Runnable: back on the run queue.
    Requeued,
    /// Waiting on a queue: kept.
    Parked,
    /// Neither runnable nor on any queue: to be freed.
    Freed,
}

/// Takes a process that has stopped running back from the scheduler: a runnable one goes back
/// on the front of the run queue, one that waits on a queue is kept, and any other is given
/// back to be freed.
pub fn reschedule(k: &mut Kernel, p: Proc) -> (r: (Resched, Option<Proc>))
    requires
        old(k).wf(),
        old(k).run@.len() < usize::MAX,
    ensures
        final(k).wf(),
        final(k).exit == old(k).exit && final(k).wait == old(k).wait && final(k).ticks == old(k).ticks,
        final(k).next_pid == old(k).next_pid,
        p.data.state == ProcState::Runnable ==> r.0 == Resched::Requeued && r.1 is None
            && final(k).run@ == seq![p.data.pid] + old(k).run@ && final(k).procs@ == old(k).procs@.push(p),
        p.data.state != ProcState::Runnable && p.data.wq is Some ==> r.0 == Resched::Parked && r.1 is None
            && final(k).run == old(k).run && final(k).procs@ == old(k).procs@.push(p),
        p.data.state != ProcState::Runnable && p.data.wq is None ==> r.0 == Resched::Freed && r.1 == Some(p)
            && final(k).run == old(k).run && final(k).procs == old(k).procs,
{
    if p.data.state == ProcState::Runnable {
        let pid = p.data.pid;
        k.procs.push(p);
        k.run.push_front(pid);
        (Resched::Requeued, None)
    } else if p.data.wq.is_none() {
        (Resched::Freed, Some(p))
    } else {
        k.procs.push(p);
        (Resched::Parked, None)
    }
}

/// The next process to run: the one at the back of the run queue, taken out of the process
/// table. `None` when the run queue is empty or its back names no process in the table.
pub fn runnable_proc(k: &mut Kernel) -> (r: Option<Proc>)
    requires
        old(k).wf(),
    ensures
        final(k).wf(),
        final(k).exit == old(k).exit && final(k).wait == old(k).wait && final(k).ticks == old(k).ticks,
        final(k).next_pid == old(k).next_pid,
        old(k).run@.len() == 0 ==> r is None && final(k).run@ == old(k).run@ && final(k).procs == old(k).procs,
        old(k).run@.len() > 0 ==> final(k).run@ == old(k).run@.drop_last(),
        old(k).run@.len() > 0 ==> match proc_index(old(k).procs@, old(k).run@.last()) {
            Some(i) => r == Some(old(k).procs@[i]) && final(k).procs@ == old(k).procs@.remove(i),
            None => r is None && final(k).procs@ == old(k).procs@,
        },
{
    let pid = match k.run.pop_back() {
        None => {
            return None;
        },
        Some(pid) => pid,
    };
    match find_proc(&k.procs, pid) {
        None => {
            assert(proc_index(old(k).procs@, pid) is None);
            None
        },
        Some(i) => {
            proof {
                assert(proc_index(old(k).procs@, pid) == Some(i as int)) by {
                    let c = choose|c: int| 0 <= c < old(k).procs@.len() && (#[trigger] old(k).procs@[c]).data.pid == pid
                        && forall|j: int| 0 <= j < c ==> (#[trigger] old(k).procs@[j]).data.pid != pid;
                    if c < i {
                    }
                    if c > i {
                        assert(old(k).procs@[i as int].data.pid == pid);
                    }
                }
            }
            Some(k.procs.remove(i))
        },
    }
}

/// Every PID in `q` names a blocked process of `procs`.
pub open spec fn all_blocked(q: Seq<u32>, procs: Seq<Proc>) -> bool {
    forall|k: int| 0 <= k < q.len() ==> #[trigger] blocked_in(q[k], procs)
}

/// `pid` names a blocked process of `procs`.
pub open spec fn blocked_in(pid: u32, procs: Seq<Proc>) -> bool {
    exists|i: int| 0 <= i < procs.len() && (#[trigger] procs[i]).data.pid == pid && procs[i].data.state == ProcState::Blocked
}

/// `b` is `a` woken up: runnable and on no wait queue, otherwise the same.
pub open spec fn woken(a: Proc, b: Proc) -> bool {
    &&& b.data.state == ProcState::Runnable
    &&& b.data.wq is None
    &&& b.data.pid == a.data.pid
    &&& b.data.pt == a.data.pt
    &&& b.data.pt_pa == a.data.pt_pa
    &&& b.data.nchild == a.data.nchild
    &&& b.data.parent == a.data.parent
    &&& b.data.context == a.data.context
    &&& b.trapframe == a.trapframe
    &&& b.canary == a.canary
}

impl Queue {
    /// Wakes the blocked process `p`, which must be on this queue: takes it off, makes it
    /// runnable and on no wait queue, and pushes it onto the front of the run queue `run`.
    pub fn wake(&mut self, p: &mut Proc, run: &mut Queue)
        requires
            old(self).wf(),
            old(run).wf(),
            old(self)@.contains(old(p).data.pid),
            old(p).data.state == ProcState::Blocked,
            old(run)@.len() < usize::MAX,
        ensures
            final(self).wf(),
            final(run).wf(),
            final(self).kind() == old(self).kind(),
            final(run).kind() == old(run).kind(),
            final(self)@ == old(self)@.remove_value(old(p).data.pid),
            woken(*old(p), *final(p)),
            final(run)@ == seq![old(p).data.pid] + old(run)@,
    {
        self.remove(p.data.pid);
        p.data.state = ProcState::Runnable;
        p.data.wq = None;
        run.push_front(p.data.pid);
    }

    /// Wakes every process on this queue, front first (see `wake`); they are taken from the
    /// process table `procs`, and end up on the front of `run` in reverse order.
    pub fn wake_all(&mut self, procs: &mut Vec<Proc>, run: &mut Queue)
        requires
            old(self).wf(),
            old(run).wf(),
            old(self)@.no_duplicates(),
            old(run)@.len() + old(self)@.len() < usize::MAX,
            forall|i: int, j: int| 0 <= i < j < old(procs)@.len() ==> (#[trigger] old(procs)@[i]).data.pid != (#[trigger] old(procs)@[j]).data.pid,
            all_blocked(old(self)@, old(procs)@),
        ensures
            final(self).wf(),
            final(run).wf(),
            final(self).kind() == old(self).kind(),
            final(run).kind() == old(run).kind(),
            final(self)@.len() == 0,
            final(run)@ == old(self)@.reverse() + old(run)@,
            final(procs)@.len() == old(procs)@.len(),
            forall|i: int| 0 <= i < old(procs)@.len() ==> if old(self)@.contains(#[trigger] old(procs)@[i].data.pid) {
                woken(old(procs)@[i], final(procs)@[i])
            } else {
                final(procs)@[i] == old(procs)@[i]
            },
    {
        let ghost q0 = self@;
        let ghost mut done: Seq<u32> = Seq::empty();
        while self.len() > 0
            invariant
                self.wf(),
                run.wf(),
                self.kind() == old(self).kind(),
                run.kind() == old(run).kind(),
                q0 == old(self)@,
                q0.no_duplicates(),
                done + self@ == q0,
                run@ == done.reverse() + old(run)@,
                run@.len() + self@.len() < usize::MAX,
                procs@.len() == old(procs)@.len(),
                forall|i: int| 0 <= i < procs@.len() ==> (#[trigger] procs@[i]).data.pid == old(procs)@[i].data.pid,
                forall|i: int, j: int| 0 <= i < j < old(procs)@.len() ==> (#[trigger] old(procs)@[i]).data.pid != (#[trigger] old(procs)@[j]).data.pid,
                all_blocked(old(self)@, old(procs)@),
                forall|i: int| 0 <= i < old(procs)@.len() ==> if done.contains(#[trigger] old(procs)@[i].data.pid) {
                    woken(old(procs)@[i], procs@[i])
                } else {
                    procs@[i] == old(procs)@[i]
                },
            decreases self@.len(),
        {
            let pid = self.procs[0];
            let ghost qi = done.len() as int;
            assert(q0[qi] == pid);
            let i = match find_proc(procs, pid) {
                Some(i) => i,
                None => {
                    proof {
                        assert(blocked_in(q0[qi], old(procs)@));
                        let w = choose|w: int| 0 <= w < old(procs)@.len()
                            && (#[trigger] old(procs)@[w]).data.pid == q0[qi] && old(procs)@[w].data.state == ProcState::Blocked;
                        assert(procs@[w].data.pid == pid);
                    }
                    assert(false);
                    return;
                },
            };
            proof {
                assert(blocked_in(q0[qi], old(procs)@));
                let w = choose|w: int| 0 <= w < old(procs)@.len()
                    && (#[trigger] old(procs)@[w]).data.pid == q0[qi] && old(procs)@[w].data.state == ProcState::Blocked;
                if w != i as int {
                    assert(old(procs)@[w].data.pid == old(procs)@[i as int].data.pid);
                }
                assert(!done.contains(pid)) by {
                    if done.contains(pid) {
                        let d = choose|d: int| 0 <= d < done.len() && done[d] == pid;
                        assert(q0[d] == q0[qi]);
                    }
                }
                assert(procs@[i as int] == old(procs)@[i as int]);
            }
            let ghost pre = procs@;
            let mut p = procs.remove(i);
            let ghost sq = self@;
            self.wake(&mut p, run);
            procs.insert(i, p);
            proof {
                assert(procs@ == pre.remove(i as int).insert(i as int, p));
                assert forall|j: int| 0 <= j < procs@.len() && j != i implies procs@[j] == pre[j] by {}
                assert(procs@[i as int] == p);
                assert(sq.index_of_first(pid) == Some(0int)) by {
                    sq.index_of_first_ensures(pid);
                }
                assert(self@ =~= sq.drop_first());
                let nd = done.push(pid);
                assert(nd + self@ =~= q0);
                assert(nd.reverse() =~= seq![pid] + done.reverse());
                assert(run@ =~= nd.reverse() + old(run)@);
                assert forall|j: int| 0 <= j < old(procs)@.len() implies if nd.contains(#[trigger] old(procs)@[j].data.pid) {
                    woken(old(procs)@[j], procs@[j])
                } else {
                    procs@[j] == old(procs)@[j]
                } by {
                    let x = old(procs)@[j].data.pid;
                    assert(done.contains(x) ==> nd.contains(x)) by {
                        if done.contains(x) {
                            let d = choose|d: int| 0 <= d < done.len() && done[d] == x;
                            assert(nd[d] == x);
                        }
                    }
                    if j != i as int {
                        assert(x != pid);
                        assert(nd.contains(x) ==> done.contains(x)) by {
                            if nd.contains(x) {
                                let d = choose|d: int| 0 <= d < nd.len() && nd[d] == x;
                                assert(d < done.len());
                                assert(done[d] == nd[d]);
                            }
                        }
                        assert(procs@[j] == pre[j]);
                    } else {
                        assert(nd[nd.len() - 1] == pid);
                        assert(nd.contains(pid));
                        assert(pre[i as int] == old(procs)@[i as int]);
                    }
                }
                done = nd;
            }
        }
        proof {
            assert(done =~= q0);
        }
    }
}

} // verus!
