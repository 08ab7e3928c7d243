//! Interrupt handling.
use vstd::prelude::*;
use crate::arch::timer;
use crate::board::machine;
use crate::proc::Proc;
use crate::schedule::{Kernel, woken, all_blocked};

verus! {

/// An interrupt request.
#[derive(Copy, Clone, PartialEq, Eq, Structural)]
pub enum Irq {
    Timer,
}

/// Handles an interrupt in kernel mode at timer value `now`: a timer interrupt wakes every
/// process on the ticks queue (see `Queue::wake_all`) and returns the time of the next timer
/// interrupt, one time slice later.
pub fn irq_handler_kern(k: &mut Kernel, irq: Irq, now: u64) -> (r: u64)
    requires
        old(k).wf(),
        old(k).ticks@.no_duplicates(),
        old(k).run@.len() + old(k).ticks@.len() < usize::MAX,
        forall|i: int, j: int| 0 <= i < j < old(k).procs@.len() ==> (#[trigger] old(k).procs@[i]).data.pid != (#[trigger] old(k).procs@[j]).data.pid,
        all_blocked(old(k).ticks@, old(k).procs@),
        now + machine::MTIME_FREQ / 1_000_000 * timer::TIME_SLICE_US <= u64::MAX,
    ensures
        final(k).wf(),
        r == now + machine::MTIME_FREQ / 1_000_000 * timer::TIME_SLICE_US,
        final(k).ticks@.len() == 0,
        final(k).run@ == old(k).ticks@.reverse() + old(k).run@,
        final(k).exit == old(k).exit && final(k).wait == old(k).wait,
        final(k).procs@.len() == old(k).procs@.len(),
        forall|i: int| 0 <= i < old(k).procs@.len() ==> if old(k).ticks@.contains(#[trigger] old(k).procs@[i].data.pid) {
            woken(old(k).procs@[i], final(k).procs@[i])
        } else {
            final(k).procs@[i] == old(k).procs@[i]
        },
{
    match irq {
        Irq::Timer => {
            k.ticks.wake_all(&mut k.procs, &mut k.run);
            timer::intr(now, timer::TIME_SLICE_US)
        },
    }
}

/// Handles an interrupt taken from user mode by the process `p`, at timer value `now`: as in
/// kernel mode, and for a timer interrupt `p` then yields (the second result).
pub fn irq_handler_user(k: &mut Kernel, p: &mut Proc, irq: Irq, now: u64) -> (r: (u64, bool))
    requires
        old(k).wf(),
        old(k).ticks@.no_duplicates(),
        old(k).run@.len() + old(k).ticks@.len() < usize::MAX,
        forall|i: int, j: int| 0 <= i < j < old(k).procs@.len() ==> (#[trigger] old(k).procs@[i]).data.pid != (#[trigger] old(k).procs@[j]).data.pid,
        all_blocked(old(k).ticks@, old(k).procs@),
        now + machine::MTIME_FREQ / 1_000_000 * timer::TIME_SLICE_US <= u64::MAX,
    ensures
        final(k).wf(),
        r.0 == now + machine::MTIME_FREQ / 1_000_000 * timer::TIME_SLICE_US,
        r.1 == (irq == Irq::Timer),
        final(k).ticks@.len() == 0,
        final(k).run@ == old(k).ticks@.reverse() + old(k).run@,
        *final(p) == *old(p),
{
    let next = irq_handler_kern(k, irq, now);
    (next, irq == Irq::Timer)
}

} // verus!
