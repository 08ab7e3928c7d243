//! Setting up machine mode and the first page table.
use vstd::prelude::*;
use crate::arch::riscv64::csr::{sie, sstatus, Priv};
use crate::arch::riscv64::vm::{Pagetable, PteLoc, maps_to, lemma_high_vpn, lemma_zero_entry, SV39};
use crate::bit::{Bit, set_bits_u64};
use crate::board::virt::machine;
use crate::vm::{monitor::pa2ka, perm};

verus! {

/// Exceptions delegated to supervisor mode.
pub const MEDELEG: u64 = 0x00f0b501;

/// Interrupts delegated to supervisor mode.
pub const MIDELEG: u64 = 0x00001666;

/// PMP configuration 0: a top-of-range region with read, write and exec.
pub const PMPCFG0: u64 = 0b0001111;

/// PMP address 0: the top of the region that supervisor mode may access.
pub const PMPADDR0: u64 = 0xffff_ffff_ffff;

/// Counters that supervisor mode may read (`mcounteren`): cycle, time, instret.
pub const MCOUNTEREN: u64 = 0b111;

/// `mstatus` with the previous privilege (MPP, bits 12..11) set to supervisor, so that `mret`
/// enters supervisor mode.
pub fn enter_smode(mstatus: u64) -> (r: u64)
    ensures
        r == set_bits_u64(mstatus, 12, 11, 1),
{
    mstatus.set_bits(12, 11, Priv::S.value())
}

/// Values of the supervisor registers that start the kernel.
#[derive(Copy, Clone, PartialEq, Eq, Structural)]
pub struct KernelStart {
    /// `satp`: Sv39 paging with the initial page table.
    pub satp: u64,
    /// `sie`: supervisor timer and software interrupts enabled.
    pub sie: u64,
    /// `sstatus`: with supervisor access to user memory.
    pub sstatus: u64,
}

/// Prepares a core to run the kernel. The primary core first maps every GiB of the board's
/// memory ranges in the initial page table `pt` (whose root is at `root_pa`), at its physical
/// address and at its kernel address (the same, in the monitor), readable, writable and
/// executable. Returns the `satp`, `sie` and `sstatus` values that start the kernel.
pub fn init_kernel(primary: bool, pt: &mut Pagetable, root_pa: u64, sstatus_val: u64) -> (r: KernelStart)
    requires
        old(pt).wf(),
    ensures
        final(pt).wf(),
        final(pt).subtables() == old(pt).subtables(),
        final(pt).pages() == old(pt).pages(),
        old(pt).closed() ==> final(pt).closed(),
        !primary ==> *final(pt) == *old(pt),
        primary ==> forall|i: int| 0 <= i < 4 ==> maps_to(#[trigger] final(pt).entry(PteLoc { table: None, index: i as usize }),
            (i * 0x4000_0000) as u64, perm::RWX),
        primary ==> forall|l: PteLoc| old(pt).has_loc(l) && !(l.table is None && l.index < 4)
            ==> #[trigger] final(pt).entry(l) == old(pt).entry(l),
        r.satp == set_bits_u64(root_pa / 4096, 63, 60, SV39),
        r.sie == (1u64 << 5u64) | (1u64 << 1u64),
        r.sstatus == sstatus_val | (1u64 << 18u64),
{
    if primary {
        let ranges = machine::mem_ranges();
        let g = crate::sys::gb(1);
        let mut r: usize = 0;
        while r < 2
            invariant
                pt.wf(),
                pt.subtables() == old(pt).subtables(),
                pt.pages() == old(pt).pages(),
                old(pt).closed() ==> pt.closed(),
                r <= 2,
                g == 0x4000_0000,
                ranges[0].start == 0 && ranges[0].size == 0x8000_0000,
                ranges[1].start == 0x8000_0000 && ranges[1].size == 0x8000_0000,
                forall|i: int| 0 <= i < 2 * r ==> maps_to(#[trigger] pt.entry(PteLoc { table: None, index: i as usize }),
                    (i * 0x4000_0000) as u64, perm::RWX),
                forall|l: PteLoc| old(pt).has_loc(l) && !(l.table is None && l.index < 4)
                    ==> #[trigger] pt.entry(l) == old(pt).entry(l),
            decreases 2 - r,
        {
            let mem = ranges[r];
            let mut pa = mem.start;
            while pa < mem.start + mem.size
                invariant
                    pt.wf(),
                    pt.subtables() == old(pt).subtables(),
                    pt.pages() == old(pt).pages(),
                    old(pt).closed() ==> pt.closed(),
                    r < 2,
                    g == 0x4000_0000,
                    mem == ranges[r as int],
                    ranges[0].start == 0 && ranges[0].size == 0x8000_0000,
                    ranges[1].start == 0x8000_0000 && ranges[1].size == 0x8000_0000,
                    mem.start <= pa <= mem.start + mem.size,
                    pa % 0x4000_0000 == 0,
                    forall|i: int| 0 <= i < pa / 0x4000_0000 ==> maps_to(#[trigger] pt.entry(PteLoc { table: None, index: i as usize }),
                        (i * 0x4000_0000) as u64, perm::RWX),
                    forall|l: PteLoc| old(pt).has_loc(l) && !(l.table is None && l.index < 4)
                        ==> #[trigger] pt.entry(l) == old(pt).entry(l),
                decreases mem.start + mem.size - pa,
            {
                let ghost i = pa / 0x4000_0000;
                proof {
                    lemma_high_vpn(i as u64);
                    lemma_zero_entry();
                }
                pt.map_giga(pa, pa, perm::RWX);
                pt.map_giga(pa2ka(pa), pa, perm::RWX);
                pa = pa + g;
            }
            r = r + 1;
        }
    }
    let satp = pt.satp(root_pa);
    let sie_val: u64 = (1u64 << sie::STIE) | (1u64 << sie::SSIE);
    let sstatus_new: u64 = sstatus_val | (1u64 << sstatus::SUM);
    KernelStart { satp, sie: sie_val, sstatus: sstatus_new }
}

} // verus!
