//! Terminology:
//! * hka: high canonical address, at or above `HIGHMEM_BASE`.
//! * ka: kernel address, an hka in the kernel, a pa in the monitor (see `monitor`).
//! * pa: physical address.
use vstd::prelude::*;
use crate::sys::HIGHMEM_BASE;
use crate::kalloc::Page;
use crate::arch::vm::{Pagetable, PtLevel, Pte, PteLoc, level_size, pa_of, perm_of};
use crate::bit::bit_u64;
use crate::proc::MAX_VA;

pub mod monitor;
pub mod perm;

verus! {

/// Whether `va` is a high kernel address.
pub fn ishka(va: u64) -> (r: bool)
    ensures
        r == (va >= HIGHMEM_BASE),
{
    va >= HIGHMEM_BASE
}

/// Converts a high kernel address to a physical address.
pub fn hka2pa(ka: u64) -> (r: u64)
    requires
        ka >= HIGHMEM_BASE,
    ensures
        r == ka - HIGHMEM_BASE,
{
    ka - HIGHMEM_BASE
}

/// Converts a kernel address to a physical address.
pub fn ka2pa(ka: u64) -> (r: u64)
    requires
        ka >= HIGHMEM_BASE,
    ensures
        r == ka - HIGHMEM_BASE,
{
    ka - HIGHMEM_BASE
}

/// Converts a physical address to a kernel address.
pub fn pa2ka(pa: u64) -> (r: u64)
    requires
        pa + HIGHMEM_BASE <= u64::MAX,
    ensures
        r == pa + HIGHMEM_BASE,
{
    pa + HIGHMEM_BASE
}

/// Converts a physical address to a high kernel address.
pub fn pa2hka(pa: u64) -> (r: u64)
    requires
        pa + HIGHMEM_BASE <= u64::MAX,
    ensures
        r == pa + HIGHMEM_BASE,
        r >= HIGHMEM_BASE,
{
    pa + HIGHMEM_BASE
}

/// Something that can map pages at virtual addresses.
pub trait PageMap {
    /// Whether a page at frame `pa` can be mapped, with `frames` the frames available for
    /// structures that the mapping needs.
    spec fn can_map(&self, pa: u64, frames: Seq<u64>) -> bool;

    /// Maps the page `pg` at `va` with permissions `perm`, and takes ownership of it. Returns
    /// `None` when the mapping fails; the page is then dropped.
    #[must_use]
    fn mappg(&mut self, va: u64, pg: Page, perm: u8, frames: &mut Vec<u64>) -> Option<()>
        requires
            old(self).can_map(pg.pa, old(frames)@),
            pg.data@.len() == 4096,
            perm != 0,
    ;
}


/// Whether the walk for `va` in `pt` ends at a valid entry of the lowest level, that is, `va`
/// lies in a page mapped with a 4 KiB leaf.
pub open spec fn yields(pt: Pagetable, va: u64) -> bool {
    match pt.walk_spec(va, PtLevel::Normal) {
        Some((loc, lvl)) => lvl == PtLevel::Normal && bit_u64(pt.entry(loc), 0),
        None => false,
    }
}

/// The address after `va` where a scan of `pt` looks next: past the region of the entry the
/// walk for `va` ends at, or one page further when the walk fails.
pub open spec fn step(pt: Pagetable, va: u64) -> int {
    match pt.walk_spec(va, PtLevel::Normal) {
        Some((_, lvl)) => va + level_size(lvl),
        None => va + 4096,
    }
}

/// The first address, scanning `pt` from `va` in steps of `step`, below `MAX_VA` that lies in a
/// 4 KiB page, if any.
pub open spec fn next_from(pt: Pagetable, va: u64) -> Option<u64>
    decreases (if va < MAX_VA { MAX_VA - va } else { 0 }) as nat,
{
    if va >= MAX_VA {
        None
    } else if yields(pt, va) {
        Some(va)
    } else if step(pt, va) <= u64::MAX {
        proof {
            lemma_step_advances(pt, va);
        }
        next_from(pt, step(pt, va) as u64)
    } else {
        None
    }
}

/// A scan step moves forward by at least a page.
pub proof fn lemma_step_advances(pt: Pagetable, va: u64)
    ensures
        step(pt, va) >= va + 4096,
{
    match pt.walk_spec(va, PtLevel::Normal) {
        Some((_, lvl)) => {
            assert(level_size(lvl) >= 4096);
        },
        None => {},
    }
}


/// The address `next_from` finds lies at or after `va`, below `MAX_VA`.
pub proof fn lemma_next_from_bounds(pt: Pagetable, va: u64)
    ensures
        next_from(pt, va) matches Some(v) ==> va <= v < MAX_VA,
    decreases (if va < MAX_VA { MAX_VA - va } else { 0 }) as nat,
{
    if va >= MAX_VA {
    } else if yields(pt, va) {
    } else if step(pt, va) <= u64::MAX {
        lemma_step_advances(pt, va);
        lemma_next_from_bounds(pt, step(pt, va) as u64);
    }
}


/// The first address a scan yields heads the sequence of all it yields.
pub proof fn lemma_scan_next(pt: Pagetable, va: u64)
    requires
        va <= MAX_VA + 0x4000_0000,
    ensures
        next_from(pt, va) is None <==> scan_from(pt, va).len() == 0,
        next_from(pt, va) matches Some(v) ==> ({
            &&& scan_from(pt, va).len() > 0
            &&& scan_from(pt, va)[0] == v
            &&& step(pt, v) <= u64::MAX
            &&& scan_from(pt, step(pt, v) as u64) == scan_from(pt, va).subrange(1, scan_from(pt, va).len() as int)
            &&& yields(pt, v)
        }),
{
    lemma_next_from_bounds(pt, va);
    match next_from(pt, va) {
        Some(v) => {
            lemma_step_advances(pt, v);
            lemma_next_yields(pt, va);
            assert(step(pt, v) <= v + 0x4000_0000) by {
                match pt.walk_spec(v, PtLevel::Normal) {
                    Some((_, lvl)) => {},
                    None => {},
                }
            }
            let s = scan_from(pt, va);
            assert(s == seq![v] + scan_from(pt, step(pt, v) as u64));
            assert(s.subrange(1, s.len() as int) =~= scan_from(pt, step(pt, v) as u64));
        },
        None => {},
    }
}

/// What `next_from` finds is yielded.
pub proof fn lemma_next_yields(pt: Pagetable, va: u64)
    ensures
        next_from(pt, va) matches Some(v) ==> yields(pt, v),
    decreases (if va < MAX_VA { MAX_VA - va } else { 0 }) as nat,
{
    if va >= MAX_VA {
    } else if yields(pt, va) {
    } else if step(pt, va) <= u64::MAX {
        lemma_step_advances(pt, va);
        lemma_next_yields(pt, step(pt, va) as u64);
    }
}

/// Whether every 4 KiB mapping a scan of `pt` yields can be copied into another table: its
/// permissions hold a read, write or execute bit, and its page is one `pt` owns.
pub open spec fn copyable(pt: Pagetable) -> bool {
    forall|k: int| 0 <= k < scan_from(pt, 0).len()
        ==> perm_of(#[trigger] mapping_entry(pt, scan_from(pt, 0)[k])@) & 7 != 0
            && pt.owns_page(pa_of(mapping_entry(pt, scan_from(pt, 0)[k])@))
}

/// Every valid 4 KiB mapping of `pt` can be copied: its permissions hold a read, write or
/// execute bit, and its page is one `pt` owns.
pub open spec fn maps_owned(pt: Pagetable) -> bool {
    forall|va: u64| #[trigger] yields(pt, va) ==> perm_of(mapping_entry(pt, va)@) & 7 != 0
        && pt.owns_page(pa_of(mapping_entry(pt, va)@))
}

/// A table whose every valid 4 KiB mapping can be copied passes the scan's test.
pub proof fn lemma_owned_copyable(pt: Pagetable)
    requires
        maps_owned(pt),
    ensures
        copyable(pt),
{
    lemma_scan_yields(pt, 0);
    assert forall|k: int| 0 <= k < scan_from(pt, 0).len() implies perm_of(#[trigger] mapping_entry(pt, scan_from(pt, 0)[k])@) & 7 != 0
        && pt.owns_page(pa_of(mapping_entry(pt, scan_from(pt, 0)[k])@)) by {
        assert(yields(pt, scan_from(pt, 0)[k]));
    }
}

/// Mapping a page `pa` at `va` with read, write or execute permissions, where the only new
/// valid 4 KiB mappings are those of the slot of `va`, keeps every valid 4 KiB mapping on an
/// owned page.
pub proof fn lemma_map_owned(opt: Pagetable, n: Pagetable, va: u64, pa: u64, perm: u8, loc: PteLoc)
    requires
        opt.wf(),
        n.wf(),
        maps_owned(opt),
        perm & 7 != 0,
        crate::arch::vm::frame_ok(pa),
        n.pages().len() == opt.pages().len() + 1,
        n.pages()[opt.pages().len() as int].pa == pa,
        forall|j: int| 0 <= j < opt.pages().len() ==> #[trigger] n.pages()[j] == opt.pages()[j],
        crate::arch::vm::maps_to(n.entry(loc), pa, perm),
        n.walk_spec(va, PtLevel::Normal) matches Some((l, _)) && l == loc,
        forall|va1: u64| #[trigger] n.walk_spec(va1, PtLevel::Normal) matches Some((l1, lv1))
            ==> (lv1 == PtLevel::Normal && bit_u64(n.entry(l1), 0) ==> crate::arch::vm::same_slot(va1, va)
                || (opt.walk_spec(va1, PtLevel::Normal) == n.walk_spec(va1, PtLevel::Normal)
                && opt.entry(l1) == n.entry(l1))),
    ensures
        maps_owned(n),
{
    assert forall|va1: u64| #[trigger] yields(n, va1) implies perm_of(mapping_entry(n, va1)@) & 7 != 0
        && n.owns_page(pa_of(mapping_entry(n, va1)@)) by {
        let (l1, lv1) = n.walk_spec(va1, PtLevel::Normal).unwrap();
        crate::arch::vm::lemma_walk_has_loc(n, None, PtLevel::Giga, va1, PtLevel::Normal);
        n.lemma_entry_pte(l1);
        if crate::arch::vm::same_slot(va1, va) {
            crate::arch::vm::lemma_walk_same_slot(n, None, PtLevel::Giga, va1, va);
            assert(l1 == loc);
            crate::arch::vm::lemma_perm_low_bits(perm);
            assert(n.pages()[opt.pages().len() as int].pa == pa);
        } else {
            assert(yields(opt, va1));
            crate::arch::vm::lemma_walk_has_loc(opt, None, PtLevel::Giga, va1, PtLevel::Normal);
            opt.lemma_entry_pte(l1);
            let p = pa_of(mapping_entry(opt, va1)@);
            let k = choose|k: int| 0 <= k < opt.pages().len() && #[trigger] opt.pages()[k].pa == p;
            assert(n.pages()[k].pa == p);
        }
    }
}

/// All the addresses a scan of `pt` from `va` yields, in order (see `next_from`).
pub open spec fn scan_from(pt: Pagetable, va: u64) -> Seq<u64>
    decreases (if va < MAX_VA { MAX_VA - va } else { 0 }) as nat,
{
    match next_from(pt, va) {
        Some(v) => {
            proof {
                lemma_next_from_bounds(pt, va);
                lemma_step_advances(pt, v);
            }
            if step(pt, v) <= u64::MAX {
                seq![v] + scan_from(pt, step(pt, v) as u64)
            } else {
                seq![v]
            }
        },
        None => Seq::empty(),
    }
}

/// From a page-aligned address, scanning steps and finds page-aligned addresses.
proof fn lemma_next_from_aligned(pt: Pagetable, va: u64)
    requires
        va % 4096 == 0,
    ensures
        step(pt, va) % 4096 == 0,
        next_from(pt, va) matches Some(v) ==> v % 4096 == 0,
    decreases (if va < MAX_VA { MAX_VA - va } else { 0 }) as nat,
{
    match pt.walk_spec(va, PtLevel::Normal) {
        Some((_, lvl)) => {
            assert(level_size(lvl) % 4096 == 0);
        },
        None => {},
    }
    if va >= MAX_VA {
    } else if yields(pt, va) {
    } else if step(pt, va) <= u64::MAX {
        lemma_step_advances(pt, va);
        lemma_next_from_aligned(pt, step(pt, va) as u64);
    }
}

/// Two strictly increasing sequences with the same elements are equal.
pub proof fn lemma_sorted_same_elems(a: Seq<u64>, b: Seq<u64>)
    requires
        forall|i: int, j: int| 0 <= i < j < a.len() ==> #[trigger] a[i] < #[trigger] a[j],
        forall|i: int, j: int| 0 <= i < j < b.len() ==> #[trigger] b[i] < #[trigger] b[j],
        forall|x: u64| #[trigger] a.contains(x) <==> b.contains(x),
    ensures
        a == b,
    decreases a.len(),
{
    if a.len() == 0 {
        if b.len() > 0 {
            assert(b.contains(b[0]));
            assert(a.contains(b[0]));
        }
        assert(a =~= b);
    } else {
        assert(a.contains(a[0]));
        assert(b.contains(a[0]));
        let jb = choose|j: int| 0 <= j < b.len() && b[j] == a[0];
        assert(a.contains(b[0]));
        let ia = choose|i: int| 0 <= i < a.len() && a[i] == b[0];
        if ia > 0 {
            assert(a[0] < a[ia]);
        }
        if jb > 0 {
            assert(b[0] < b[jb]);
        }
        assert(a[0] == b[0]);
        let a1 = a.drop_first();
        let b1 = b.drop_first();
        assert forall|x: u64| #[trigger] a1.contains(x) <==> b1.contains(x) by {
            if a1.contains(x) {
                let i = choose|i: int| 0 <= i < a1.len() && a1[i] == x;
                assert(a[i + 1] == x);
                assert(a[0] < a[i + 1]);
                assert(a.contains(x));
                assert(b.contains(x));
                let j = choose|j: int| 0 <= j < b.len() && b[j] == x;
                assert(j != 0);
                assert(b1[j - 1] == x);
            }
            if b1.contains(x) {
                let j = choose|j: int| 0 <= j < b1.len() && b1[j] == x;
                assert(b[j + 1] == x);
                assert(b[0] < b[j + 1]);
                assert(b.contains(x));
                assert(a.contains(x));
                let i = choose|i: int| 0 <= i < a.len() && a[i] == x;
                assert(i != 0);
                assert(a1[i - 1] == x);
            }
        }
        assert forall|i: int, j: int| 0 <= i < j < a1.len() implies #[trigger] a1[i] < #[trigger] a1[j] by {
            assert(a[i + 1] < a[j + 1]);
        }
        assert forall|i: int, j: int| 0 <= i < j < b1.len() implies #[trigger] b1[i] < #[trigger] b1[j] by {
            assert(b[i + 1] < b[j + 1]);
        }
        lemma_sorted_same_elems(a1, b1);
        assert(a =~= b) by {
            assert forall|i: int| 0 <= i < a.len() implies a[i] == b[i] by {
                if i > 0 {
                    assert(a[i] == a1[i - 1]);
                    assert(b[i] == b1[i - 1]);
                }
            }
        }
    }
}

/// Every address a scan yields has a walk that ends at a valid 4 KiB entry.
pub proof fn lemma_scan_yields(pt: Pagetable, va: u64)
    ensures
        forall|i: int| 0 <= i < scan_from(pt, va).len() ==> yields(pt, #[trigger] scan_from(pt, va)[i]),
    decreases (if va < MAX_VA { MAX_VA - va } else { 0 }) as nat,
{
    lemma_next_from_bounds(pt, va);
    lemma_next_yields(pt, va);
    match next_from(pt, va) {
        Some(v) => {
            lemma_step_advances(pt, v);
            let s = scan_from(pt, va);
            if step(pt, v) <= u64::MAX {
                let nv = step(pt, v) as u64;
                lemma_scan_yields(pt, nv);
                let t = scan_from(pt, nv);
                assert(s == seq![v] + t);
                assert forall|i: int| 0 <= i < s.len() implies yields(pt, #[trigger] s[i]) by {
                    if i > 0 {
                        assert(s[i] == t[i - 1]);
                    }
                }
            } else {
                assert(s == seq![v]);
            }
        },
        None => {},
    }
}

/// A scan yields addresses below `MAX_VA`, in increasing order, each at least a page past the
/// one before.
pub proof fn lemma_scan_sorted(pt: Pagetable, va: u64)
    ensures
        va % 4096 == 0 ==> forall|i: int| 0 <= i < scan_from(pt, va).len() ==> #[trigger] scan_from(pt, va)[i] % 4096 == 0,
        forall|i: int| 0 <= i < scan_from(pt, va).len() ==> va <= #[trigger] scan_from(pt, va)[i] < MAX_VA,
        forall|i: int, j: int| 0 <= i < j < scan_from(pt, va).len()
            ==> #[trigger] scan_from(pt, va)[i] + 4096 <= #[trigger] scan_from(pt, va)[j],
    decreases (if va < MAX_VA { MAX_VA - va } else { 0 }) as nat,
{
    lemma_next_from_bounds(pt, va);
    if va % 4096 == 0 {
        lemma_next_from_aligned(pt, va);
    }
    match next_from(pt, va) {
        Some(v) => {
            lemma_step_advances(pt, v);
            if va % 4096 == 0 {
                lemma_next_from_aligned(pt, v);
            }
            let s = scan_from(pt, va);
            if step(pt, v) <= u64::MAX {
                let nv = step(pt, v) as u64;
                lemma_scan_sorted(pt, nv);
                let t = scan_from(pt, nv);
                assert(s == seq![v] + t);
                assert forall|i: int| 0 <= i < s.len() implies va <= #[trigger] s[i] < MAX_VA by {
                    if i > 0 {
                        assert(s[i] == t[i - 1]);
                    }
                }
                assert forall|i: int, j: int| 0 <= i < j < s.len() implies #[trigger] s[i] + 4096 <= #[trigger] s[j] by {
                    assert(s[j] == t[j - 1]);
                    if i > 0 {
                        assert(s[i] == t[i - 1]);
                    }
                }
            } else {
                assert(s == seq![v]);
            }
        },
        None => {},
    }
}

/// Whether a scan may start at `u`: an address that a 2 MiB or 1 GiB leaf serves is the first
/// address of that leaf's region.
pub open spec fn scan_start_ok(pt: Pagetable, u: u64) -> bool {
    match pt.walk_spec(u, PtLevel::Normal) {
        Some((_, PtLevel::Mega)) => u % 0x20_0000 == 0,
        Some((_, PtLevel::Giga)) => u % 0x4000_0000 == 0,
        _ => true,
    }
}

/// Addresses in the same 2 MiB (or 1 GiB) region have the same top two (or top) indices.
proof fn lemma_shift_vpn(x: u64, y: u64)
    ensures
        (x >> 21u64) == (y >> 21u64) ==> crate::arch::vm::vpn_of(2, x) == crate::arch::vm::vpn_of(2, y)
            && crate::arch::vm::vpn_of(1, x) == crate::arch::vm::vpn_of(1, y),
        (x >> 30u64) == (y >> 30u64) ==> crate::arch::vm::vpn_of(2, x) == crate::arch::vm::vpn_of(2, y),
{
    assert(crate::arch::vm::vpn_of(2, x) == (((x >> 30u64) & 0x1ffu64) as usize));
    assert(crate::arch::vm::vpn_of(1, x) == (((x >> 21u64) & 0x1ffu64) as usize));
    assert(crate::arch::vm::vpn_of(2, y) == (((y >> 30u64) & 0x1ffu64) as usize));
    assert(crate::arch::vm::vpn_of(1, y) == (((y >> 21u64) & 0x1ffu64) as usize));
    assert((x >> 21u64) == (y >> 21u64) ==> (x >> 30u64) == (y >> 30u64)) by (bit_vector);
}

/// The address a scan steps to from a good start is a good start too.
proof fn lemma_step_start(pt: Pagetable, u: u64)
    requires
        pt.wf(),
        u % 4096 == 0,
        u < MAX_VA,
        scan_start_ok(pt, u),
    ensures
        step(pt, u) <= u64::MAX,
        (step(pt, u) as u64) % 4096 == 0,
        scan_start_ok(pt, step(pt, u) as u64),
{
    let w = step(pt, u) as u64;
    match pt.walk_spec(u, PtLevel::Normal) {
        Some((_, PtLevel::Mega)) => {
            assert(w == u + 0x20_0000);
            assert(w % 0x20_0000 == 0);
            if pt.walk_spec(w, PtLevel::Normal) matches Some((_, PtLevel::Giga)) {
                lemma_shift_vpn(u, w);
                crate::arch::vm::lemma_big_leaf_region(pt, w, u);
                assert((u >> 30u64) != (w >> 30u64));
                assert(u % 0x20_0000 == 0 && w == u + 0x20_0000 && (u >> 30u64) != (w >> 30u64)
                    ==> w % 0x4000_0000 == 0) by (bit_vector);
            }
        },
        Some((_, PtLevel::Giga)) => {
            assert(w == u + 0x4000_0000);
            assert(w % 0x4000_0000 == 0);
            assert(w % 0x20_0000 == 0);
        },
        _ => {
            assert(w == u + 4096);
            if let Some((_, lv)) = pt.walk_spec(w, PtLevel::Normal) {
                lemma_shift_vpn(u, w);
                crate::arch::vm::lemma_big_leaf_region(pt, w, u);
                if lv == PtLevel::Normal {
                } else if lv == PtLevel::Mega {
                    assert((u >> 21u64) != (w >> 21u64));
                    assert(u % 4096 == 0 && w == u + 4096 && (u >> 21u64) != (w >> 21u64) ==> w % 0x20_0000 == 0)
                        by (bit_vector);
                } else {
                    assert((u >> 30u64) != (w >> 30u64));
                    assert(u % 4096 == 0 && w == u + 4096 && (u >> 30u64) != (w >> 30u64) ==> w % 0x4000_0000 == 0)
                        by (bit_vector);
                }
            }
        },
    }
}

/// A scan from a good start at or below a 4 KiB-aligned address that is mapped 4 KiB at a
/// time yields that address.
proof fn lemma_scan_reaches(pt: Pagetable, u: u64, va: u64)
    requires
        pt.wf(),
        u % 4096 == 0,
        va % 4096 == 0,
        u <= va,
        va < MAX_VA,
        yields(pt, va),
        scan_start_ok(pt, u),
    ensures
        scan_from(pt, u).contains(va),
    decreases MAX_VA - u,
{
    lemma_step_start(pt, u);
    lemma_step_advances(pt, u);
    let w = step(pt, u) as u64;
    let s = scan_from(pt, u);
    if yields(pt, u) {
        assert(next_from(pt, u) == Some(u));
        assert(s == seq![u] + scan_from(pt, w));
        if u == va {
            assert(s[0] == va);
            return;
        }
        assert(w == u + 4096);
        assert(u % 4096 == 0 && va % 4096 == 0 && u < va ==> u + 4096 <= va) by (bit_vector);
        lemma_scan_reaches(pt, w, va);
        let i = choose|i: int| 0 <= i < scan_from(pt, w).len() && scan_from(pt, w)[i] == va;
        assert(s[i + 1] == va);
    } else {
        assert(next_from(pt, u) == next_from(pt, w));
        assert(s == scan_from(pt, w));
        assert(u != va);
        match pt.walk_spec(u, PtLevel::Normal) {
            Some((_, PtLevel::Mega)) => {
                lemma_shift_vpn(u, va);
                crate::arch::vm::lemma_big_leaf_region(pt, u, va);
                assert((u >> 21u64) != (va >> 21u64));
                assert(u % 0x20_0000 == 0 && u < va && (u >> 21u64) != (va >> 21u64) ==> u + 0x20_0000 <= va)
                    by (bit_vector);
            },
            Some((_, PtLevel::Giga)) => {
                lemma_shift_vpn(u, va);
                crate::arch::vm::lemma_big_leaf_region(pt, u, va);
                assert((u >> 30u64) != (va >> 30u64));
                assert(u % 0x4000_0000 == 0 && u < va && (u >> 30u64) != (va >> 30u64) ==> u + 0x4000_0000 <= va)
                    by (bit_vector);
            },
            _ => {
                assert(u % 4096 == 0 && va % 4096 == 0 && u < va ==> u + 4096 <= va) by (bit_vector);
            },
        }
        lemma_scan_reaches(pt, w, va);
    }
}

/// The scan misses nothing: every 4 KiB-aligned address below `MAX_VA` whose walk ends at a
/// valid 4 KiB entry is among the addresses a scan of `pt` yields.
pub proof fn lemma_scan_complete(pt: Pagetable, va: u64)
    requires
        pt.wf(),
        va % 4096 == 0,
        va < MAX_VA,
        yields(pt, va),
    ensures
        scan_from(pt, 0).contains(va),
{
    lemma_scan_reaches(pt, 0, va);
}

/// An address below 2 GiB has a top-level index below 256.
pub proof fn lemma_low_vpn(va: u64)
    requires
        va < 0x8000_0000,
    ensures
        crate::arch::vm::vpn_of(2, va) < 256,
{
    assert(crate::arch::vm::vpn_of(2, va) == (((va >> 30u64) & 0x1ffu64) as usize));
    assert((((va >> 30u64) & 0x1ffu64) as usize) < 256) by (bit_vector)
        requires
            va < 0x8000_0000,
    ;
}

/// Two addresses of the lower 512 GiB at least a page apart lie in different slots.
pub proof fn lemma_apart_not_same_slot(a: u64, b: u64)
    requires
        a + 4096 <= b,
        b < 0x80_0000_0000,
    ensures
        !crate::arch::vm::same_slot(a, b),
        !crate::arch::vm::same_slot(b, a),
{
    assert(crate::arch::vm::vpn_of(0, a) == (((a >> 12u64) & 0x1ffu64) as usize));
    assert(crate::arch::vm::vpn_of(1, a) == (((a >> 21u64) & 0x1ffu64) as usize));
    assert(crate::arch::vm::vpn_of(2, a) == (((a >> 30u64) & 0x1ffu64) as usize));
    assert(crate::arch::vm::vpn_of(0, b) == (((b >> 12u64) & 0x1ffu64) as usize));
    assert(crate::arch::vm::vpn_of(1, b) == (((b >> 21u64) & 0x1ffu64) as usize));
    assert(crate::arch::vm::vpn_of(2, b) == (((b >> 30u64) & 0x1ffu64) as usize));
    assert(!((((a >> 12u64) & 0x1ffu64) as usize) == (((b >> 12u64) & 0x1ffu64) as usize)
        && (((a >> 21u64) & 0x1ffu64) as usize) == (((b >> 21u64) & 0x1ffu64) as usize)
        && (((a >> 30u64) & 0x1ffu64) as usize) == (((b >> 30u64) & 0x1ffu64) as usize))) by (bit_vector)
        requires
            a + 4096 <= b,
            b < 0x80_0000_0000,
    ;
}

/// The entry that maps `va` in `pt` (meaningful where `yields(pt, va)`).
pub open spec fn mapping_entry(pt: Pagetable, va: u64) -> Pte {
    pt.entry_pte(pt.walk_spec(va, PtLevel::Normal).unwrap().0)
}

/// A virtual address mapping: a virtual address and the entry that maps it.
pub struct VaMapping {
    pte: Pte,
    va: u64,
}

impl VaMapping {
    /// The entry of the mapping.
    pub closed spec fn entry(&self) -> Pte {
        self.pte
    }

    /// The virtual address of the mapping.
    pub closed spec fn vaddr(&self) -> u64 {
        self.va
    }

    /// The virtual address of the mapping.
    pub fn va(&self) -> (r: u64)
        ensures
            r == self.vaddr(),
    {
        self.va
    }

    /// The physical address the mapping points to.
    pub fn pa(&self) -> (r: u64)
        ensures
            r == pa_of(self.entry()@),
    {
        self.pte.pa()
    }

    /// The permissions of the mapping.
    pub fn perm(&self) -> (r: u8)
        ensures
            r == perm_of(self.entry()@),
    {
        self.pte.perm()
    }

    /// The entry of the mapping.
    pub fn pte(&mut self) -> (r: &mut Pte)
        ensures
            *r == old(self).entry(),
            final(self).vaddr() == old(self).vaddr(),
            final(self).entry() == *final(r),
    {
        &mut self.pte
    }

    /// The kernel address of the page the mapping points to.
    pub fn pg_raw(&mut self) -> (r: u64)
        requires
            pa_of(old(self).entry()@) + crate::sys::HIGHMEM_BASE <= u64::MAX,
        ensures
            r == pa_of(old(self).entry()@) + crate::sys::HIGHMEM_BASE,
            *final(self) == *old(self),
    {
        let pa = self.pte.pa();
        pa2ka(pa)
    }
}

/// Iterator over the 4 KiB user mappings of a page table, in increasing virtual address order
/// below `MAX_VA`.
pub struct PtIter<'a> {
    idx: usize,
    va: u64,
    pte: Option<Pte>,
    pt: &'a Pagetable,
}

impl<'a> PtIter<'a> {
    /// The page table being scanned.
    pub closed spec fn table(&self) -> Pagetable {
        *self.pt
    }

    /// The next address the scan looks at.
    pub closed spec fn pos(&self) -> u64 {
        self.va
    }

    /// An iterator over `pt`, starting at address 0.
    pub fn new(pt: &'a Pagetable) -> (r: PtIter<'a>)
        ensures
            r.table() == *pt,
            r.pos() == 0,
    {
        PtIter { idx: 0, va: 0, pte: None, pt }
    }

    /// Looks at the current address and moves past it. Returns false when the scan is past
    /// `MAX_VA`; otherwise the entry at the current address is kept when it is a valid 4 KiB
    /// mapping.
    fn advance(&mut self) -> (r: bool)
        requires
            old(self).table().wf(),
            old(self).pos() <= MAX_VA + 0x4000_0000,
        ensures
            final(self).table() == old(self).table(),
            r == (old(self).pos() < MAX_VA),
            !r ==> final(self).pos() == old(self).pos(),
            r ==> final(self).pos() == step(old(self).table(), old(self).pos()),
            r ==> (final(self).pte is Some <==> yields(old(self).table(), old(self).pos())),
            r && yields(old(self).table(), old(self).pos()) ==> ({
                let (loc, _) = old(self).table().walk_spec(old(self).pos(), PtLevel::Normal).unwrap();
                final(self).pte == Some(old(self).table().entry_pte(loc))
            }),
            final(self).pos() <= MAX_VA + 0x4000_0000,
    {
        if self.va >= MAX_VA {
            return false;
        }
        match self.pt.lookup(self.va, PtLevel::Normal) {
            Some((loc, lvl)) => {
                let pte = self.pt.pte_at(loc);
                if lvl != PtLevel::Normal || !pte.is_valid() {
                    self.pte = None;
                } else {
                    self.pte = Some(pte);
                }
                self.va = self.va + lvl.size();
            },
            None => {
                self.pte = None;
                self.va = self.va + PtLevel::Normal.size();
            },
        }
        true
    }

    /// The next 4 KiB mapping, or `None` when there is none left below `MAX_VA`.
    pub fn next(&mut self) -> (r: Option<VaMapping>)
        requires
            old(self).table().wf(),
            old(self).pos() <= MAX_VA + 0x4000_0000,
        ensures
            final(self).table() == old(self).table(),
            final(self).pos() <= MAX_VA + 0x4000_0000,
            r is None <==> next_from(old(self).table(), old(self).pos()) is None,
            r matches Some(m) ==> ({
                let (loc, _) = old(self).table().walk_spec(m.vaddr(), PtLevel::Normal).unwrap();
                &&& next_from(old(self).table(), old(self).pos()) == Some(m.vaddr())
                &&& m.entry() == old(self).table().entry_pte(loc)
                &&& final(self).pos() == step(old(self).table(), m.vaddr())
            }),
    {
        let mut va = self.va;
        if !self.advance() {
            return None;
        }
        while self.pte.is_none()
            invariant
                self.table() == old(self).table(),
                self.table().wf(),
                self.pos() <= MAX_VA + 0x4000_0000,
                va < MAX_VA,
                self.pos() == step(self.table(), va),
                self.pte is Some <==> yields(self.table(), va),
                yields(self.table(), va) ==> ({
                    let (loc, _) = self.table().walk_spec(va, PtLevel::Normal).unwrap();
                    self.pte == Some(self.table().entry_pte(loc))
                }),
                next_from(old(self).table(), old(self).pos()) == next_from(self.table(), va),
            decreases MAX_VA + 0x4000_0000 - self.pos(),
        {
            va = self.va;
            if !self.advance() {
                return None;
            }
        }
        let pte = self.pte.unwrap();
        Some(VaMapping { pte, va })
    }
}

/// Translating a physical address to a kernel address and back gives the physical address, and
/// every high kernel address comes from exactly one physical address.
pub proof fn lemma_ka_pa_roundtrip(pa: u64, ka: u64)
    requires
        pa + HIGHMEM_BASE <= u64::MAX,
        ka >= HIGHMEM_BASE,
    ensures
        (pa + HIGHMEM_BASE) - HIGHMEM_BASE == pa,
        (ka - HIGHMEM_BASE) + HIGHMEM_BASE == ka,
{
}

} // verus!
