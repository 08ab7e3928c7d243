//! Processes.
use vstd::prelude::*;
use crate::arch::regs::{Context, context_with};
use crate::arch::trap::{Trapframe, trapframe_zero};
use crate::arch::vm::{Pagetable, PteLoc, PtLevel, kernel_procmap, frame_ok, lemma_zero_entry, pa_of, perm_of, maps_to, same_slot,
    lemma_mapped_valid, lemma_walk_has_loc, kernel_map_only, lemma_map_step,
    user_leaves_4k, lemma_user_walk_4k, vpn_of};
use crate::elf::{self, in_bounds, header_of, MAGIC, segs_ok, plan_upto};
use crate::kalloc::Page;
use crate::schedule::{Queue, QueueType};
use crate::vm::{perm, PageMap, PtIter, yields, scan_from, mapping_entry, next_from, step, copyable};
use crate::bit::set_bits_u64;

verus! {

/// Virtual address of the user stack.
pub const STACK_VA: u64 = 0x7fff_0000;

/// Size of a user stack.
pub const STACK_SIZE: u64 = 4096;

/// Maximum virtual address that a user process can access.
pub const MAX_VA: u64 = 0x7fff_1000;

/// Stack canary.
pub const CANARY: u64 = 0xfeedface_deadbeef;

/// Size of a kernel stack.
pub const KSTACK_SIZE: usize = 3008;

/// Scheduling state of a process.
#[derive(Copy, Clone, PartialEq, Eq, Structural)]
pub enum ProcState {
    Runnable,
    Blocked,
    Exited,
}

/// Process metadata.
pub struct ProcData {
    pub pid: u32,
    pub pt: Pagetable,
    /// Physical address of the root of `pt`.
    pub pt_pa: u64,
    pub nchild: usize,
    /// PID of the parent, if any.
    pub parent: Option<u32>,
    /// The wait queue the process is on, if any.
    pub wq: Option<QueueType>,
    /// Context for kernel context switches.
    pub context: Context,
    pub state: ProcState,
}

/// A kernel stack.
pub struct KStack {
    pub bytes: [u8; 3008],
}

/// A process: its trap frame, its metadata, a stack canary and its kernel stack.
pub struct Proc {
    /// Registers and program counter saved when the process traps.
    pub trapframe: Trapframe,
    pub data: ProcData,
    pub canary: u64,
    pub kstack: KStack,
}

impl Proc {
    /// Well-formedness: the page table is well formed and has no dangling pointers, and the
    /// stack canary is intact.
    pub open spec fn wf(&self) -> bool {
        &&& self.data.pt.wf()
        &&& self.data.pt.closed()
        &&& self.canary == CANARY
    }

    /// A new process `pid` with a page table that maps only the kernel, and a kernel context
    /// that starts at `forkret` on the kernel stack `kstack_sp`. The root of the page table
    /// takes the last frame of `frames`; `None` when `frames` is empty.
    fn new_empty(pid: u32, kstack_sp: usize, forkret: usize, frames: &mut Vec<u64>) -> (r: Option<Proc>)
        ensures
            old(frames)@.len() == 0 ==> r is None && final(frames)@ == old(frames)@,
            old(frames)@.len() > 0 ==> r is Some && final(frames)@ == old(frames)@.drop_last(),
            r matches Some(p) ==> ({
                &&& p.wf()
                &&& p.data.pid == pid
                &&& p.data.pt_pa == old(frames)@.last()
                &&& p.data.pt.tree()
                &&& kernel_map_only(p.data.pt)
                &&& user_leaves_4k(p.data.pt)
                &&& p.data.pt.subtables().len() == 0
                &&& p.data.pt.pages().len() == 0
                &&& p.data.nchild == 0
                &&& p.data.parent is None
                &&& p.data.wq is None
                &&& p.data.state == ProcState::Runnable
                &&& p.data.context == (Context { satp: set_bits_u64(p.data.pt_pa / 4096, 63, 60, crate::arch::vm::SV39), ..context_with(kstack_sp, forkret) })
                &&& p.trapframe == trapframe_zero()
            }),
    {
        let root = match frames.pop() {
            None => {
                return None;
            },
            Some(f) => f,
        };
        let mut pt = Pagetable::new();
        kernel_procmap(&mut pt);
        let context = Context::new(kstack_sp, forkret);
        let mut proc = Proc {
            trapframe: Trapframe::default(),
            data: ProcData {
                pid,
                pt,
                pt_pa: root,
                nchild: 0,
                parent: None,
                wq: None,
                context,
                state: ProcState::Runnable,
            },
            canary: CANARY,
            kstack: KStack { bytes: [0u8; 3008] },
        };
        proc.data.context.set_pt(&proc.data.pt, root);
        Some(proc)
    }


    /// A new process `pid` running the ELF executable `bin`: its segments loaded (see
    /// `elf::load64`), a zeroed user stack page mapped at `STACK_VA`, readable and writable from
    /// user mode, and a trap frame that enters the executable at its entry point with the stack
    /// pointer 16 bytes below the top of the stack. The kernel context starts at `forkret` on
    /// the kernel stack `kstack_sp`. Frames for the page table, the pages and the stack come
    /// from the end of `frames`; `None` when the executable cannot be loaded or `frames` runs
    /// out. Every user mapping it makes is one a fork can copy (see `copyable`).
    pub fn new_from_elf(bin: &[u8], pid: u32, kstack_sp: usize, forkret: usize, frames: &mut Vec<u64>) -> (r: Option<Proc>)
        requires
            in_bounds(bin@),
            forall|i: int| 0 <= i < old(frames)@.len() ==> frame_ok(#[trigger] old(frames)@[i]),
            old(frames)@.no_duplicates(),
        ensures
            r is Some ==> header_of(bin@).magic == MAGIC && segs_ok(bin@, header_of(bin@).phnum as int),
            (header_of(bin@).magic == MAGIC && segs_ok(bin@, header_of(bin@).phnum as int)
                && old(frames)@.len() >= 4 + 3 * plan_upto(bin@, header_of(bin@).phnum as int).len()) ==> r is Some,
            r matches Some(p) ==> ({
                let plan = plan_upto(bin@, header_of(bin@).phnum as int);
                &&& p.wf()
                &&& p.data.pid == pid
                &&& p.data.parent is None
                &&& p.data.state == ProcState::Runnable
                &&& p.data.wq is None
                &&& p.data.nchild == 0
                &&& p.trapframe == (Trapframe {
                    epc: header_of(bin@).entry as usize,
                    regs: crate::arch::regs::Regs { sp: (STACK_VA + 4096 - 16) as usize, ..trapframe_zero().regs },
                    ..trapframe_zero()
                })
                &&& p.data.pt.pages().len() == plan.len() + 1
                &&& forall|k: int| 0 <= k < plan.len() ==> #[trigger] p.data.pt.pages()[k].data@ == plan[k].data
                &&& p.data.pt.pages()[plan.len() as int].data@ == Seq::new(4096, |j: int| 0u8)
                &&& user_leaves_4k(p.data.pt)
                &&& copyable(p.data.pt)
                &&& p.data.pt.walk_spec(STACK_VA, PtLevel::Normal) matches Some((l, lv)) && lv == PtLevel::Normal
                    && maps_to(p.data.pt.entry(l), p.data.pt.pages()[plan.len() as int].pa, perm::URW)
                &&& forall|k: int| 0 <= k < plan.len() && vpn_of(2, plan[k].va) < 256
                    ==> (p.data.pt.walk_spec(#[trigger] plan[k].va, PtLevel::Normal) matches Some((_, lv)) && lv == PtLevel::Normal)
                &&& forall|k: int| 0 <= k < plan.len() ==> (#[trigger] p.data.pt.walk_spec(plan[k].va, PtLevel::Normal)) is Some
                &&& forall|k: int| 0 <= k < plan.len() && !same_slot(plan[k].va, STACK_VA)
                    && (forall|k2: int| k < k2 < plan.len() ==> !same_slot(#[trigger] plan[k2].va, plan[k].va))
                    ==> (p.data.pt.walk_spec(#[trigger] plan[k].va, PtLevel::Normal) matches Some((l, lv)) && (lv == PtLevel::Normal
                        ==> maps_to(p.data.pt.entry(l), p.data.pt.pages()[k].pa, perm::URWX)))
            }),
    {
        let mut p = match Self::new_empty(pid, kstack_sp, forkret, frames) {
            None => {
                return None;
            },
            Some(p) => p,
        };
        proof {
            assert(p.data.pt.fresh_frames(frames@)) by {
                assert forall|i: int| 0 <= i < frames@.len() implies frame_ok(#[trigger] frames@[i]) by {
                    assert(frames@[i] == old(frames)@[i]);
                }
                assert forall|i: int, j: int| 0 <= i < frames@.len() && 0 <= j < frames@.len() && i != j
                    implies frames@[i] != frames@[j] by {
                    assert(frames@[i] == old(frames)@[i]);
                    assert(frames@[j] == old(frames)@[j]);
                }
            }
            assert forall|va1: u64| #[trigger] yields(p.data.pt, va1) implies perm_of(mapping_entry(p.data.pt, va1)@) & 7 != 0
                && p.data.pt.owns_page(pa_of(mapping_entry(p.data.pt, va1)@)) by {
                crate::arch::vm::lemma_kernel_map_no_4k(p.data.pt, va1);
            }
        }
        let (entry, _brk) = match elf::load64(&mut p.data.pt, bin, frames) {
            None => {
                return None;
            },
            Some(x) => x,
        };
        let ustack_pa = match frames.pop() {
            None => {
                return None;
            },
            Some(f) => f,
        };
        let ghost loaded = p.data.pt.pages();
        let ustack = Page::zeroed(ustack_pa);
        proof {
            lemma_zero_entry();
            assert(!frames@.contains(ustack_pa)) by {
                if frames@.contains(ustack_pa) {
                    let j = choose|j: int| 0 <= j < frames@.len() && frames@[j] == ustack_pa;
                    assert(frames@[j] == old(frames)@[j]);
                }
            }
        }
        let ghost opt = p.data.pt;
        if p.data.pt.mappg(STACK_VA, ustack, perm::URW, frames).is_none() {
            return None;
        }
        proof {
            let n = p.data.pt;
            let plan = plan_upto(bin@, header_of(bin@).phnum as int);
            let loc = choose|loc: PteLoc| {
                &&& n.has_loc(loc)
                &&& maps_to(#[trigger] n.entry(loc), ustack_pa, perm::URW)
                &&& perm::URW & 7 != 0 ==> (n.walk_spec(STACK_VA, PtLevel::Normal) matches Some((l, _)) && l == loc)
                &&& forall|l: PteLoc| #![trigger opt.entry(l)] opt.has_loc(l) && (crate::bit::bit_u64(opt.entry(l), 0)
                    || crate::arch::vm::leaf_of(opt.entry(l))) && l != loc ==> n.entry(l) == opt.entry(l)
                &&& opt.closed() && opt.tree() && perm::URW & 7 != 0
                    ==> forall|va1: u64| #[trigger] opt.walk_spec(va1, PtLevel::Normal) is Some
                        ==> n.walk_spec(va1, PtLevel::Normal) == opt.walk_spec(va1, PtLevel::Normal)
                &&& opt.closed() && opt.tree()
                    ==> forall|va1: u64| #[trigger] opt.walk_spec(va1, PtLevel::Normal) == Some((loc, PtLevel::Normal))
                        ==> same_slot(va1, STACK_VA)
            };
            assert(n.pages()[plan.len() as int].pa == ustack_pa);
            assert(frame_ok(ustack_pa));
            assert forall|j: int| 0 <= j < opt.pages().len() implies #[trigger] n.pages()[j] == opt.pages()[j] by {}
            crate::vm::lemma_map_owned(opt, n, STACK_VA, ustack_pa, perm::URW, loc);
            crate::vm::lemma_owned_copyable(n);
            assert forall|k: int| 0 <= k < plan.len() implies (#[trigger] n.walk_spec(plan[k].va, PtLevel::Normal)) is Some by {
                assert(opt.walk_spec(plan[k].va, PtLevel::Normal) is Some);
            }
            assert forall|k: int| 0 <= k < plan.len() && !same_slot(plan[k].va, STACK_VA)
                && (forall|k2: int| k < k2 < plan.len() ==> !same_slot(#[trigger] plan[k2].va, plan[k].va))
                implies (n.walk_spec(#[trigger] plan[k].va, PtLevel::Normal) matches Some((l, lv)) && (lv == PtLevel::Normal
                    ==> maps_to(n.entry(l), n.pages()[k].pa, perm::URWX))) by {
                assert(opt.walk_spec(plan[k].va, PtLevel::Normal) is Some);
                let (l, lv) = opt.walk_spec(plan[k].va, PtLevel::Normal).unwrap();
                assert(n.walk_spec(plan[k].va, PtLevel::Normal) == Some((l, lv)));
                lemma_walk_has_loc(opt, None, PtLevel::Giga, plan[k].va, PtLevel::Normal);
                if lv == PtLevel::Normal {
                    assert(0 + k == k);
                    assert(maps_to(opt.entry(l), opt.pages()[k].pa, perm::URWX));
                    lemma_mapped_valid(opt.entry(l), opt.pages()[k].pa, perm::URWX);
                    if l == loc {
                        assert(same_slot(plan[k].va, STACK_VA));
                        assert(false);
                    }
                    assert(n.entry(l) == opt.entry(l));
                    assert(n.pages()[k] == opt.pages()[k]);
                }
            }
        }
        p.trapframe = Trapframe::default();
        p.trapframe.regs.sp = (STACK_VA + 4096 - 16) as usize;
        p.trapframe.epc = entry as usize;
        assert(p.data.pt.pages()[p.data.pt.pages().len() - 1].data@ =~= Seq::new(4096, |j: int| 0u8));
        proof {
            let plan = plan_upto(bin@, header_of(bin@).phnum as int);
            assert(p.wf());
            assert(p.data.pt.pages().len() == plan.len() + 1);
            assert forall|k: int| 0 <= k < plan.len() implies #[trigger] p.data.pt.pages()[k].data@ == plan[k].data by {
                assert(p.data.pt.pages()[k] == loaded[k]);
                assert(loaded[0 + k].data@ == plan[k].data);
            }
            crate::vm::lemma_low_vpn(STACK_VA);
            lemma_user_walk_4k(p.data.pt, STACK_VA);
            assert forall|k: int| 0 <= k < plan.len() && vpn_of(2, plan[k].va) < 256
                implies (p.data.pt.walk_spec(#[trigger] plan[k].va, PtLevel::Normal) matches Some((_, lv)) && lv == PtLevel::Normal) by {
                lemma_user_walk_4k(p.data.pt, plan[k].va);
            }
        }
        Some(p)
    }


    /// A new process `pid`, a copy of `parent`: every 4 KiB user mapping of the parent (in
    /// address order, see `scan_from`) gets a new page with the same bytes, mapped at the same
    /// address with the same permissions, and the child has no other user mapping (a scan of
    /// its table finds the same addresses), each one a fork can copy again; the trap frame is
    /// the parent's. The kernel context
    /// starts at `forkret` on the kernel stack `kstack_sp`. Frames come from the end of
    /// `frames`; `None` when `frames` runs out.
    pub fn new_from_parent(parent: &Proc, pid: u32, kstack_sp: usize, forkret: usize, frames: &mut Vec<u64>) -> (r: Option<Proc>)
        requires
            parent.wf(),
            forall|i: int| 0 <= i < old(frames)@.len() ==> frame_ok(#[trigger] old(frames)@[i]),
            old(frames)@.no_duplicates(),
            copyable(parent.data.pt),
        ensures
            old(frames)@.len() >= 1 + 3 * scan_from(parent.data.pt, 0).len() ==> r is Some,
            r matches Some(p) ==> ({
                let vas = scan_from(parent.data.pt, 0);
                &&& p.wf()
                &&& p.data.pid == pid
                &&& p.data.parent == Some(parent.data.pid)
                &&& p.data.state == ProcState::Runnable
                &&& p.data.wq is None
                &&& p.data.nchild == 0
                &&& p.trapframe == parent.trapframe
                &&& p.data.pt.pages().len() == vas.len()
                &&& forall|k: int| 0 <= k < vas.len() ==> #[trigger] p.data.pt.pages()[k].data@
                    == parent.data.pt.page_data(pa_of(mapping_entry(parent.data.pt, vas[k])@))
                &&& forall|k: int| 0 <= k < vas.len() ==> (#[trigger] p.data.pt.walk_spec(vas[k], PtLevel::Normal)) is Some
                &&& user_leaves_4k(p.data.pt)
                &&& scan_from(p.data.pt, 0) == vas
                &&& copyable(p.data.pt)
                &&& forall|k: int| 0 <= k < vas.len()
                    ==> (p.data.pt.walk_spec(#[trigger] vas[k], PtLevel::Normal) matches Some((l, lv)) && lv == PtLevel::Normal
                        && maps_to(p.data.pt.entry(l), p.data.pt.pages()[k].pa, perm_of(mapping_entry(parent.data.pt, vas[k])@)))
            }),
    {
        let mut p = match Self::new_empty(pid, kstack_sp, forkret, frames) {
            None => {
                return None;
            },
            Some(p) => p,
        };
        proof {
            assert(p.data.pt.fresh_frames(frames@)) by {
                assert forall|i: int| 0 <= i < frames@.len() implies frame_ok(#[trigger] frames@[i]) by {
                    assert(frames@[i] == old(frames)@[i]);
                }
                assert forall|i: int, j: int| 0 <= i < frames@.len() && 0 <= j < frames@.len() && i != j
                    implies frames@[i] != frames@[j] by {
                    assert(frames@[i] == old(frames)@[i]);
                    assert(frames@[j] == old(frames)@[j]);
                }
            }
        }
        let ghost ppt = parent.data.pt;
        let ghost vas = scan_from(ppt, 0);
        let ghost enough = old(frames)@.len() >= 1 + 3 * vas.len();
        let mut it = PtIter::new(&parent.data.pt);
        let ghost mut k: int = 0;
        let ghost perms = Seq::new(vas.len(), |j: int| perm_of(mapping_entry(ppt, vas[j])@));
        let ghost mut locs: Seq<PteLoc> = Seq::empty();
        let ghost mut lvls: Seq<PtLevel> = Seq::empty();
        let mut next = it.next();
        proof {
            crate::vm::lemma_scan_next(ppt, 0);
            assert forall|va1: u64| #[trigger] yields(p.data.pt, va1) implies exists|j: int| 0 <= j < k && same_slot(va1, vas[j]) by {
                crate::arch::vm::lemma_kernel_map_no_4k(p.data.pt, va1);
            }
        }
        while next.is_some()
            invariant
                ppt == parent.data.pt,
                perms == Seq::new(vas.len(), |j: int| perm_of(mapping_entry(ppt, vas[j])@)),
                forall|va1: u64| #[trigger] yields(p.data.pt, va1) ==> exists|j: int| 0 <= j < k && same_slot(va1, vas[j]),
                forall|j: int| 0 <= j < k ==> frame_ok(#[trigger] p.data.pt.pages()[j].pa),
                p.data.pt.tree(),
                user_leaves_4k(p.data.pt),
                locs.len() == k,
                lvls.len() == k,
                forall|j: int| 0 <= j < locs.len() ==> p.data.pt.has_loc(#[trigger] locs[j]),
                forall|j: int| 0 <= j < locs.len() ==> #[trigger] p.data.pt.walk_spec(vas[j], PtLevel::Normal)
                    == Some((locs[j], lvls[j])),
                forall|j: int| 0 <= j < locs.len() && lvls[j] == PtLevel::Normal && (forall|j2: int| j < j2 < locs.len()
                    ==> !same_slot(#[trigger] vas[j2], vas[j]))
                    ==> maps_to(#[trigger] p.data.pt.entry(locs[j]), p.data.pt.pages()[j].pa, perms[j]),
                ppt.wf(),
                it.table() == ppt,
                it.pos() <= MAX_VA + 0x4000_0000,
                vas == scan_from(ppt, 0),
                0 <= k <= vas.len(),
                next is None ==> k == vas.len(),
                next matches Some(m) ==> k < vas.len() && m.vaddr() == vas[k] && m.entry() == mapping_entry(ppt, vas[k])
                    && yields(ppt, vas[k]),
                next is Some ==> scan_from(ppt, it.pos()) == vas.subrange(k + 1, vas.len() as int),
                p.wf(),
                p.data.pid == pid,
                p.data.parent is None,
                p.data.state == ProcState::Runnable,
                p.data.wq is None,
                p.data.nchild == 0,
                p.data.pt.fresh_frames(frames@),
                frames@.len() <= old(frames)@.len(),
                frames@ == old(frames)@.subrange(0, frames@.len() as int),
                p.data.pt.pages().len() == k,
                forall|j: int| 0 <= j < k ==> #[trigger] p.data.pt.pages()[j].data@
                    == ppt.page_data(pa_of(mapping_entry(ppt, vas[j])@)),
                enough == (old(frames)@.len() >= 1 + 3 * vas.len()),
                enough ==> frames@.len() >= 3 * (vas.len() - k),
                copyable(ppt),
            decreases vas.len() - k,
        {
            let m = next.unwrap();
            let ghost f0 = frames@;
            let pa = match frames.pop() {
                None => {
                    return None;
                },
                Some(f) => f,
            };
            let src = parent.data.pt.page(m.pa());
            let src = match src {
                Some(s) => s,
                None => {
                    return None;
                },
            };
            let mut data: Vec<u8> = Vec::new();
            let mut c: usize = 0;
            while c < 4096
                invariant
                    c <= 4096,
                    src.data@.len() == 4096,
                    data@ == src.data@.subrange(0, c as int),
                decreases 4096 - c,
            {
                data.push(src.data[c]);
                c += 1;
            }
            assert(data@ == src.data@);
            proof {
                assert(!frames@.contains(pa)) by {
                    if frames@.contains(pa) {
                        let j = choose|j: int| 0 <= j < frames@.len() && frames@[j] == pa;
                        assert(f0[j] == f0[frames@.len() as int]);
                    }
                }
            }
            let ghost mid = frames@;
            let ghost before = p.data.pt.pages();
            let ghost opt = p.data.pt;
            let mp = m.perm();
            assert(mp & 7 != 0 ==> mp != 0) by (bit_vector);
            let res = p.data.pt.mappg(m.va(), Page { pa, data }, mp, frames);
            assert(frames@ =~= old(frames)@.subrange(0, frames@.len() as int)) by {
                assert forall|j: int| 0 <= j < frames@.len() implies frames@[j] == old(frames)@[j] by {
                    assert(frames@[j] == mid[j]);
                    assert(mid[j] == f0[j]);
                }
            }
            if res.is_none() {
                return None;
            }
            proof {
                assert forall|j: int| 0 <= j < k + 1 implies #[trigger] p.data.pt.pages()[j].data@
                    == ppt.page_data(pa_of(mapping_entry(ppt, vas[j])@)) by {
                    if j < k {
                        assert(p.data.pt.pages()[j] == before[j]);
                    }
                }
                let n = p.data.pt;
                let va = vas[k];
                let loc = choose|loc: PteLoc| {
                    &&& n.has_loc(loc)
                    &&& maps_to(#[trigger] n.entry(loc), pa, mp)
                    &&& mp & 7 != 0 ==> (n.walk_spec(va, PtLevel::Normal) matches Some((l, _)) && l == loc)
                    &&& forall|l: PteLoc| #![trigger opt.entry(l)] opt.has_loc(l) && (crate::bit::bit_u64(opt.entry(l), 0)
                        || crate::arch::vm::leaf_of(opt.entry(l))) && l != loc ==> n.entry(l) == opt.entry(l)
                    &&& opt.closed() && opt.tree() && mp & 7 != 0
                        ==> forall|va1: u64| #[trigger] opt.walk_spec(va1, PtLevel::Normal) is Some
                            ==> n.walk_spec(va1, PtLevel::Normal) == opt.walk_spec(va1, PtLevel::Normal)
                    &&& opt.closed() && opt.tree()
                        ==> forall|va1: u64| #[trigger] opt.walk_spec(va1, PtLevel::Normal) == Some((loc, PtLevel::Normal))
                            ==> same_slot(va1, va)
                };
                let lvl = n.walk_spec(va, PtLevel::Normal).unwrap().1;
                assert(n.pages()[k].pa == pa);
                assert(perms[k] == mp);
                assert forall|j: int| 0 <= j < opt.pages().len() implies #[trigger] n.pages()[j] == opt.pages()[j] by {}
                lemma_map_step(opt, n, vas, perms, locs, lvls, 0, loc, lvl);
                assert forall|va1: u64| #[trigger] yields(n, va1) implies exists|j: int| 0 <= j < k + 1 && same_slot(va1, vas[j]) by {
                    if same_slot(va1, va) {
                        assert(0 <= k < k + 1 && same_slot(va1, vas[k]));
                    } else {
                        assert(yields(opt, va1));
                        let j = choose|j: int| 0 <= j < k && same_slot(va1, vas[j]);
                        assert(0 <= j < k + 1 && same_slot(va1, vas[j]));
                    }
                }
                locs = locs.push(loc);
                lvls = lvls.push(lvl);
                k = k + 1;
            }
            let ghost pos0 = it.pos();
            proof {
                crate::vm::lemma_scan_next(ppt, it.pos());
            }
            next = it.next();
            proof {
                if next is Some {
                    let s0 = scan_from(ppt, pos0);
                    assert(s0 == vas.subrange(k, vas.len() as int));
                    let v = next.unwrap().vaddr();
                    assert(next_from(ppt, pos0) == Some(v));
                    assert(it.pos() == step(ppt, v));
                    assert(scan_from(ppt, step(ppt, v) as u64) == s0.subrange(1, s0.len() as int));
                    assert(scan_from(ppt, it.pos()) =~= vas.subrange(k + 1, vas.len() as int));
                }
                assert(next is Some ==> scan_from(ppt, it.pos()) == vas.subrange(k + 1, vas.len() as int));
            }
        }
        proof {
            crate::vm::lemma_scan_sorted(ppt, 0);
            assert forall|j: int, j2: int| 0 <= j < j2 < locs.len() implies !same_slot(#[trigger] vas[j2], #[trigger] vas[j]) by {
                assert(vas[j] + 4096 <= vas[j2]);
                crate::vm::lemma_apart_not_same_slot(vas[j], vas[j2]);
            }
            assert forall|j: int| 0 <= j < vas.len() implies (#[trigger] p.data.pt.walk_spec(vas[j], PtLevel::Normal)) matches Some((_, lv))
                && lv == PtLevel::Normal by {
                crate::vm::lemma_low_vpn(vas[j]);
                lemma_user_walk_4k(p.data.pt, vas[j]);
            }
            assert forall|j: int| 0 <= j < vas.len() implies scan_from(p.data.pt, 0).contains(#[trigger] vas[j]) by {
                crate::vm::lemma_low_vpn(vas[j]);
                lemma_user_walk_4k(p.data.pt, vas[j]);
                let (l, lv) = p.data.pt.walk_spec(vas[j], PtLevel::Normal).unwrap();
                assert(maps_to(p.data.pt.entry(l), p.data.pt.pages()[j].pa, perms[j]));
                lemma_mapped_valid(p.data.pt.entry(l), p.data.pt.pages()[j].pa, perms[j]);
                assert(vas[j] % 4096 == 0);
                crate::vm::lemma_scan_complete(p.data.pt, vas[j]);
            }
        }
        proof {
            let cs = scan_from(p.data.pt, 0);
            crate::vm::lemma_scan_yields(p.data.pt, 0);
            crate::vm::lemma_scan_sorted(p.data.pt, 0);
            assert forall|va1: u64| #![trigger cs.contains(va1)] #![trigger vas.contains(va1)]
                cs.contains(va1) <==> vas.contains(va1) by {
                if cs.contains(va1) {
                    let i = choose|i: int| 0 <= i < cs.len() && cs[i] == va1;
                    assert(yields(p.data.pt, cs[i]));
                    let j = choose|j: int| 0 <= j < k && same_slot(va1, vas[j]);
                    let b = vas[j];
                    assert(va1 % 4096 == 0 && va1 < MAX_VA);
                    assert(b % 4096 == 0 && b < MAX_VA);
                    if va1 != b {
                        assert(va1 + 4096 <= b || b + 4096 <= va1) by (bit_vector)
                            requires
                                va1 % 4096 == 0,
                                b % 4096 == 0,
                                va1 != b,
                                va1 < 0x7fff_1000,
                                b < 0x7fff_1000,
                        ;
                        if va1 + 4096 <= b {
                            crate::vm::lemma_apart_not_same_slot(va1, b);
                        } else {
                            crate::vm::lemma_apart_not_same_slot(b, va1);
                        }
                    }
                    assert(vas.contains(va1));
                }
                if vas.contains(va1) {
                    let j = choose|j: int| 0 <= j < vas.len() && vas[j] == va1;
                    assert(cs.contains(vas[j]));
                }
            }
            assert forall|i: int, j: int| 0 <= i < j < cs.len() implies #[trigger] cs[i] < #[trigger] cs[j] by {
                assert(cs[i] + 4096 <= cs[j]);
            }
            assert forall|i: int, j: int| 0 <= i < j < vas.len() implies #[trigger] vas[i] < #[trigger] vas[j] by {
                assert(vas[i] + 4096 <= vas[j]);
            }
            crate::vm::lemma_sorted_same_elems(cs, vas);
            assert forall|i: int| 0 <= i < cs.len() implies perm_of(#[trigger] mapping_entry(p.data.pt, cs[i])@) & 7 != 0
                && p.data.pt.owns_page(pa_of(mapping_entry(p.data.pt, cs[i])@)) by {
                let (l, lv) = p.data.pt.walk_spec(vas[i], PtLevel::Normal).unwrap();
                crate::arch::vm::lemma_walk_has_loc(p.data.pt, None, PtLevel::Giga, vas[i], PtLevel::Normal);
                p.data.pt.lemma_entry_pte(l);
                assert(maps_to(p.data.pt.entry(l), p.data.pt.pages()[i].pa, perms[i]));
                assert(perm_of(mapping_entry(ppt, vas[i])@) & 7 != 0);
                crate::arch::vm::lemma_perm_low_bits(perms[i]);
                assert(frame_ok(p.data.pt.pages()[i].pa));
            }
        }
        p.data.parent = Some(parent.data.pid);
        p.trapframe = parent.trapframe;
        Some(p)
    }

    /// The physical pages mapped 4 KiB at a time into the user part of the
    /// address space, in increasing virtual address order: the pages that
    /// tearing the process down gives back.
    pub fn user_pages(&self) -> (r: Vec<u64>)
        requires
            self.data.pt.wf(),
        ensures
            r@.len() == scan_from(self.data.pt, 0).len(),
            forall|k: int| 0 <= k < r@.len() ==> #[trigger] r@[k] == pa_of(
                mapping_entry(self.data.pt, scan_from(self.data.pt, 0)[k])@,
            ),
    {
        let ghost ppt = self.data.pt;
        let ghost vas = scan_from(ppt, 0);
        let mut out: Vec<u64> = Vec::new();
        let mut it = PtIter::new(&self.data.pt);
        let ghost mut k: int = 0;
        let mut next = it.next();
        proof {
            crate::vm::lemma_scan_next(ppt, 0);
        }
        while next.is_some()
            invariant
                ppt == self.data.pt,
                ppt.wf(),
                it.table() == ppt,
                it.pos() <= MAX_VA + 0x4000_0000,
                vas == scan_from(ppt, 0),
                0 <= k <= vas.len(),
                out@.len() == k,
                next is None ==> k == vas.len(),
                next matches Some(m) ==> k < vas.len() && m.vaddr() == vas[k] && m.entry() == mapping_entry(ppt, vas[k]),
                next is Some ==> scan_from(ppt, it.pos()) == vas.subrange(k + 1, vas.len() as int),
                forall|j: int| 0 <= j < k ==> #[trigger] out@[j] == pa_of(mapping_entry(ppt, vas[j])@),
            decreases vas.len() - k,
        {
            let m = next.unwrap();
            out.push(m.pa());
            proof {
                k = k + 1;
            }
            let ghost pos0 = it.pos();
            proof {
                crate::vm::lemma_scan_next(ppt, it.pos());
            }
            next = it.next();
            proof {
                if next is Some {
                    let s0 = scan_from(ppt, pos0);
                    assert(s0 == vas.subrange(k, vas.len() as int));
                    let v = next.unwrap().vaddr();
                    assert(next_from(ppt, pos0) == Some(v));
                    assert(it.pos() == step(ppt, v));
                    assert(scan_from(ppt, step(ppt, v) as u64) == s0.subrange(1, s0.len() as int));
                    assert(scan_from(ppt, it.pos()) =~= vas.subrange(k + 1, vas.len() as int));
                } else {
                    assert(scan_from(ppt, pos0) == vas.subrange(k, vas.len() as int));
                }
            }
        }
        out
    }

    /// Offset within the kernel stack of its top: 16 bytes below its end.
    pub fn kstackp(&self) -> (r: usize)
        ensures
            r == KSTACK_SIZE - 16,
    {
        self.kstack.bytes.len() - 16
    }

    /// Verifies that the kernel stack canary is intact.
    pub fn check_stack(&self) -> (r: bool)
        ensures
            r == (self.canary == CANARY),
    {
        self.canary == CANARY
    }

    /// Puts this process on the given wait queue, blocked.
    pub fn block(&mut self, queue: &mut Queue)
        requires
            old(queue).wf(),
            old(queue)@.len() < usize::MAX,
        ensures
            final(self).data.state == ProcState::Blocked,
            final(self).data.wq == Some(old(queue).kind()),
            final(queue).wf(),
            final(queue)@ == seq![old(self).data.pid] + old(queue)@,
            final(queue).kind() == old(queue).kind(),
            final(self).data.pid == old(self).data.pid,
            final(self).wf() == old(self).wf(),
    {
        self.wait(queue, ProcState::Blocked);
    }

    /// Puts this process on the given exit queue, exited.
    pub fn exit(&mut self, queue: &mut Queue)
        requires
            old(queue).wf(),
            old(queue)@.len() < usize::MAX,
        ensures
            final(self).data.state == ProcState::Exited,
            final(self).data.wq == Some(old(queue).kind()),
            final(queue).wf(),
            final(queue)@ == seq![old(self).data.pid] + old(queue)@,
            final(queue).kind() == old(queue).kind(),
            final(self).data.pid == old(self).data.pid,
            final(self).wf() == old(self).wf(),
    {
        self.wait(queue, ProcState::Exited);
    }

    /// Gives this process the state `state` and registers it on `queue`. It is up to the caller
    /// to then stop running it.
    fn wait(&mut self, queue: &mut Queue, state: ProcState)
        requires
            old(queue).wf(),
            old(queue)@.len() < usize::MAX,
        ensures
            final(self).data.state == state,
            final(self).data.wq == Some(old(queue).kind()),
            final(queue).wf(),
            final(queue)@ == seq![old(self).data.pid] + old(queue)@,
            final(queue).kind() == old(queue).kind(),
            final(self).data.pid == old(self).data.pid,
            final(self).wf() == old(self).wf(),
    {
        self.data.state = state;
        self.data.wq = Some(queue.qtype());
        queue.push_front(self.data.pid);
    }

    /// Marks this process as not on any wait queue.
    pub fn unblock(&mut self)
        ensures
            *final(self) == (Proc { data: ProcData { wq: None, ..old(self).data }, ..*old(self) }),
            final(self).data.wq is None,
            final(self).data.state == old(self).data.state,
            final(self).data.pid == old(self).data.pid,
            final(self).wf() == old(self).wf(),
    {
        self.data.wq = None;
    }
}

} // verus!
