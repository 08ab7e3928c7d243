use vstd::prelude::*;
use crate::bit::{Bit, bits_u64, set_bits_u64, bit_u64, mask_u64};
use crate::vm::{perm, pa2hka, PageMap};
use crate::sys::HIGHMEM_BASE;
use crate::board::machine;
use crate::kalloc::Page;

verus! {

/// Level of a page-table entry, with the size of the region that a leaf at that level maps.
#[derive(Copy, Clone, PartialEq, Eq, Structural)]
pub enum PtLevel {
    Normal,
    Mega,
    Giga,
}

/// Size in bytes of the region mapped by a leaf at `level`.
pub open spec fn level_size(level: PtLevel) -> u64 {
    match level {
        PtLevel::Normal => 4096,
        PtLevel::Mega => 0x20_0000,
        PtLevel::Giga => 0x4000_0000,
    }
}

/// Index of `level` (0 for `Normal`, 1 for `Mega`, 2 for `Giga`).
pub open spec fn level_index(level: PtLevel) -> usize {
    match level {
        PtLevel::Normal => 0,
        PtLevel::Mega => 1,
        PtLevel::Giga => 2,
    }
}

/// The level below `level` (`Normal` stays `Normal`).
pub open spec fn level_next(level: PtLevel) -> PtLevel {
    match level {
        PtLevel::Normal => PtLevel::Normal,
        PtLevel::Mega => PtLevel::Normal,
        PtLevel::Giga => PtLevel::Mega,
    }
}

impl PtLevel {
    /// Size in bytes of the region mapped by a leaf at this level.
    pub fn size(self) -> (r: u64)
        ensures
            r == level_size(self),
    {
        match self {
            PtLevel::Normal => 4096,
            PtLevel::Mega => 1024 * 1024 * 2,
            PtLevel::Giga => 1024 * 1024 * 1024,
        }
    }

    /// The level below this one (`Normal` stays `Normal`).
    pub fn next(self) -> (r: PtLevel)
        ensures
            r == level_next(self),
    {
        match self {
            PtLevel::Normal => PtLevel::Normal,
            PtLevel::Mega => PtLevel::Normal,
            PtLevel::Giga => PtLevel::Mega,
        }
    }

    /// Index of this level (0 for `Normal`, 1 for `Mega`, 2 for `Giga`).
    pub fn index(self) -> (r: usize)
        ensures
            r == level_index(self),
    {
        match self {
            PtLevel::Normal => 0,
            PtLevel::Mega => 1,
            PtLevel::Giga => 2,
        }
    }
}

/// `satp` mode field for Sv39 paging.
pub const SV39: u64 = 8;

/// Mask of the bits of a PTE that hold permissions (read, write, exec, user, cow).
pub const PERM_BITS: u64 = 0x11e;

/// Mask of the physical-address bits that a PTE can hold (bits 12 through 55).
pub const PA_MASK: u64 = 0x00ff_ffff_ffff_f000;

/// An Sv39 page-table entry.
///
/// Bit layout: valid (0), read (1), write (2), exec (3), user (4), global (5), accessed (6),
/// dirty (7), cow (8), rsw (9), ppn0 (18..10), ppn1 (27..19), ppn2 (53..28).
#[derive(Copy, Clone)]
pub struct Pte {
    data: u64,
}

/// The permission flags (`perm::READ` .. `perm::COW`) recorded in the raw entry `data`.
pub open spec fn perm_of(data: u64) -> u8 {
    ((if bit_u64(data, 1) { 1u8 } else { 0u8 })
        | (if bit_u64(data, 2) { 2u8 } else { 0u8 })
        | (if bit_u64(data, 3) { 4u8 } else { 0u8 })
        | (if bit_u64(data, 4) { 8u8 } else { 0u8 })
        | (if bit_u64(data, 8) { 16u8 } else { 0u8 }))
}

/// The physical address recorded in the raw entry `data`: its ppn field times the page size.
pub open spec fn pa_of(data: u64) -> u64 {
    bits_u64(data, 53, 10) << 12
}

/// Whether the raw entry `data` is a leaf (one of read, write, exec set).
pub open spec fn leaf_of(data: u64) -> bool {
    bits_u64(data, 3, 1) != 0
}

impl Pte {
    /// The raw 64-bit entry.
    pub closed spec fn view(&self) -> u64 {
        self.data
    }

    /// An entry with all bits clear.
    pub closed spec fn zero_spec() -> Pte {
        Pte { data: 0 }
    }

    /// An entry with all bits clear.
    pub fn zero() -> (r: Pte)
        ensures
            r@ == 0,
            r == Pte::zero_spec(),
    {
        Pte { data: 0 }
    }

    /// The raw 64-bit entry.
    pub fn raw(&self) -> (r: u64)
        ensures
            r == self@,
    {
        self.data
    }

    fn valid(&self) -> (r: u64)
        ensures
            r == bits_u64(self@, 0, 0),
    {
        self.data.bits(0, 0)
    }

    fn set_valid(&mut self, val: u64)
        ensures
            final(self)@ == set_bits_u64(old(self)@, 0, 0, val),
    {
        self.data = self.data.set_bits(0, 0, val);
    }

    fn read(&self) -> (r: u64)
        ensures
            r == bits_u64(self@, 1, 1),
    {
        self.data.bits(1, 1)
    }

    fn set_read(&mut self, val: u64)
        ensures
            final(self)@ == set_bits_u64(old(self)@, 1, 1, val),
    {
        self.data = self.data.set_bits(1, 1, val);
    }

    fn write(&self) -> (r: u64)
        ensures
            r == bits_u64(self@, 2, 2),
    {
        self.data.bits(2, 2)
    }

    fn set_write(&mut self, val: u64)
        ensures
            final(self)@ == set_bits_u64(old(self)@, 2, 2, val),
    {
        self.data = self.data.set_bits(2, 2, val);
    }

    fn exec(&self) -> (r: u64)
        ensures
            r == bits_u64(self@, 3, 3),
    {
        self.data.bits(3, 3)
    }

    fn set_exec(&mut self, val: u64)
        ensures
            final(self)@ == set_bits_u64(old(self)@, 3, 3, val),
    {
        self.data = self.data.set_bits(3, 3, val);
    }

    fn user(&self) -> (r: u64)
        ensures
            r == bits_u64(self@, 4, 4),
    {
        self.data.bits(4, 4)
    }

    fn set_user(&mut self, val: u64)
        ensures
            final(self)@ == set_bits_u64(old(self)@, 4, 4, val),
    {
        self.data = self.data.set_bits(4, 4, val);
    }

    fn set_accessed(&mut self, val: u64)
        ensures
            final(self)@ == set_bits_u64(old(self)@, 6, 6, val),
    {
        self.data = self.data.set_bits(6, 6, val);
    }

    fn set_dirty(&mut self, val: u64)
        ensures
            final(self)@ == set_bits_u64(old(self)@, 7, 7, val),
    {
        self.data = self.data.set_bits(7, 7, val);
    }

    fn cow(&self) -> (r: u64)
        ensures
            r == bits_u64(self@, 8, 8),
    {
        self.data.bits(8, 8)
    }

    fn set_cow(&mut self, val: u64)
        ensures
            final(self)@ == set_bits_u64(old(self)@, 8, 8, val),
    {
        self.data = self.data.set_bits(8, 8, val);
    }

    fn ppn0(&self) -> (r: u64)
        ensures
            r == bits_u64(self@, 18, 10),
    {
        self.data.bits(18, 10)
    }

    fn ppn1(&self) -> (r: u64)
        ensures
            r == bits_u64(self@, 27, 19),
    {
        self.data.bits(27, 19)
    }

    fn ppn2(&self) -> (r: u64)
        ensures
            r == bits_u64(self@, 53, 28),
    {
        self.data.bits(53, 28)
    }

    /// Marks the entry valid, accessed and dirty.
    pub fn validate(&mut self)
        ensures
            final(self)@ == old(self)@ | 0xc1,
    {
        self.set_valid(1);
        self.set_accessed(1);
        self.set_dirty(1);
        let ghost d = old(self)@;
        assert(set_bits_u64(set_bits_u64(set_bits_u64(d, 0, 0, 1), 6, 6, 1), 7, 7, 1) == d | 0xc1)
            by (bit_vector);
    }

    /// Whether the entry is valid.
    pub fn is_valid(&self) -> (r: bool)
        ensures
            r == bit_u64(self@, 0),
    {
        let v = self.valid();
        let d = self.data;
        assert((bits_u64(d, 0, 0) != 0) == bit_u64(d, 0)) by (bit_vector);
        v != 0
    }

    /// The physical address that the entry points to.
    pub fn pa(&self) -> (r: u64)
        ensures
            r == pa_of(self@),
    {
        let d = self.data;
        assert(((bits_u64(d, 18, 10) << 12) | (bits_u64(d, 27, 19) << 21) | (bits_u64(d, 53, 28) << 30))
            == bits_u64(d, 53, 10) << 12) by (bit_vector);
        (self.ppn0() << 12) | (self.ppn1() << 21) | (self.ppn2() << 30)
    }

    /// Points the entry at the physical address `pa` (bits 55 through 12 of it).
    pub fn set_pa(&mut self, pa: u64)
        ensures
            final(self)@ == set_bits_u64(old(self)@, 53, 10, bits_u64(pa, 55, 12)),
            pa_of(final(self)@) == pa & PA_MASK,
            final(self)@ & 0x3ff == old(self)@ & 0x3ff,
    {
        let f = pa.bits(55, 12);
        self.data = self.data.set_bits(53, 10, f);
        let ghost d = old(self)@;
        assert(pa_of(set_bits_u64(d, 53, 10, bits_u64(pa, 55, 12))) == pa & 0x00ff_ffff_ffff_f000)
            by (bit_vector);
        assert(set_bits_u64(d, 53, 10, bits_u64(pa, 55, 12)) & 0x3ff == d & 0x3ff) by (bit_vector);
    }

    /// Whether the entry is a leaf (maps memory rather than pointing to a lower table).
    fn leaf(&self) -> (r: bool)
        ensures
            r == leaf_of(self@),
    {
        self.data.bits(3, 1) != 0
    }

    /// Sets the read, write, exec, user and cow bits from the flags in `perm`; the other bits
    /// stay as they are.
    pub fn set_perm(&mut self, perm: u8)
        ensures
            perm_of(final(self)@) == perm & 0x1f,
            final(self)@ & !PERM_BITS == old(self)@ & !PERM_BITS,
            bit_u64(final(self)@, 1) == (perm & perm::READ != 0),
            bit_u64(final(self)@, 2) == (perm & perm::WRITE != 0),
            bit_u64(final(self)@, 3) == (perm & perm::EXEC != 0),
            bit_u64(final(self)@, 4) == (perm & perm::USER != 0),
            bit_u64(final(self)@, 8) == (perm & perm::COW != 0),
    {
        let ghost d = old(self)@;
        let r: u64 = if perm & perm::READ != 0 { 1 } else { 0 };
        let w: u64 = if perm & perm::WRITE != 0 { 1 } else { 0 };
        let x: u64 = if perm & perm::EXEC != 0 { 1 } else { 0 };
        let u: u64 = if perm & perm::USER != 0 { 1 } else { 0 };
        let c: u64 = if perm & perm::COW != 0 { 1 } else { 0 };
        self.set_read(r);
        self.set_write(w);
        self.set_exec(x);
        self.set_user(u);
        self.set_cow(c);
        assert({
            let e = set_bits_u64(set_bits_u64(set_bits_u64(set_bits_u64(set_bits_u64(d, 1, 1, r), 2, 2, w), 3, 3, x), 4, 4, u), 8, 8, c);
            &&& perm_of(e) == perm & 0x1f
            &&& e & !0x11eu64 == d & !0x11eu64
            &&& bit_u64(e, 1) == (perm & 1 != 0)
            &&& bit_u64(e, 2) == (perm & 2 != 0)
            &&& bit_u64(e, 3) == (perm & 4 != 0)
            &&& bit_u64(e, 4) == (perm & 8 != 0)
            &&& bit_u64(e, 8) == (perm & 16 != 0)
        }) by (bit_vector)
            requires
                r == (if perm & 1 != 0 { 1u64 } else { 0u64 }),
                w == (if perm & 2 != 0 { 1u64 } else { 0u64 }),
                x == (if perm & 4 != 0 { 1u64 } else { 0u64 }),
                u == (if perm & 8 != 0 { 1u64 } else { 0u64 }),
                c == (if perm & 16 != 0 { 1u64 } else { 0u64 }),
        ;
    }

    /// The permission flags of the entry.
    pub fn perm(&self) -> (r: u8)
        ensures
            r == perm_of(self@),
    {
        let r: u8 = if self.read() != 0 { perm::READ } else { 0 };
        let w: u8 = if self.write() != 0 { perm::WRITE } else { 0 };
        let x: u8 = if self.exec() != 0 { perm::EXEC } else { 0 };
        let u: u8 = if self.user() != 0 { perm::USER } else { 0 };
        let c: u8 = if self.cow() != 0 { perm::COW } else { 0 };
        let p: u8 = r | w | x | u | c;
        let d = self.data;
        assert(p == perm_of(d)) by (bit_vector)
            requires
                r == (if bits_u64(d, 1, 1) != 0 { 1u8 } else { 0u8 }),
                w == (if bits_u64(d, 2, 2) != 0 { 2u8 } else { 0u8 }),
                x == (if bits_u64(d, 3, 3) != 0 { 4u8 } else { 0u8 }),
                u == (if bits_u64(d, 4, 4) != 0 { 8u8 } else { 0u8 }),
                c == (if bits_u64(d, 8, 8) != 0 { 16u8 } else { 0u8 }),
                p == r | w | x | u | c,
        ;
        p
    }
}


/// Pointing an invalid non-leaf entry at a frame and marking it valid gives a valid non-leaf
/// entry that points to that frame.
proof fn lemma_link_entry(d: u64, e: u64, f: u64)
    requires
        !leaf_of(d),
        e & 0x3ff == d & 0x3ff,
        pa_of(e) == f,
    ensures
        !leaf_of(set_bits_u64(e, 0, 0, 1)),
        bit_u64(set_bits_u64(e, 0, 0, 1), 0),
        pa_of(set_bits_u64(e, 0, 0, 1)) == f,
{
    assert(!leaf_of(set_bits_u64(e, 0, 0, 1)) && bit_u64(set_bits_u64(e, 0, 0, 1), 0)
        && pa_of(set_bits_u64(e, 0, 0, 1)) == pa_of(e)) by (bit_vector)
        requires
            !leaf_of(d),
            e & 0x3ff == d & 0x3ff,
    ;
}



/// Whether the raw entry `e` points to a lower table: valid, and not a leaf.
pub open spec fn is_link(e: u64) -> bool {
    bit_u64(e, 0) && !leaf_of(e)
}

/// The raw entry `e` maps the frame of `pa` with permissions `perm`, and is valid, accessed and
/// dirty.
pub open spec fn maps_to(e: u64, pa: u64, perm: u8) -> bool {
    &&& pa_of(e) == pa & PA_MASK
    &&& perm_of(e) == perm & 0x1f
    &&& e & 0xc1 == 0xc1
}


/// Writing a frame, permissions and the valid, accessed and dirty flags into an entry makes it
/// map that frame with those permissions.
proof fn lemma_mapped_entry(e1: u64, e2: u64, e3: u64, pa: u64, perm: u8)
    requires
        pa_of(e1) == pa & PA_MASK,
        perm_of(e2) == perm & 0x1f,
        e2 & !PERM_BITS == e1 & !PERM_BITS,
        e3 == e2 | 0xc1,
    ensures
        maps_to(e3, pa, perm),
        perm & 7 != 0 ==> leaf_of(e3),
{
    assert(pa_of(e3) == pa_of(e1) && perm_of(e3) == perm_of(e2) && e3 & 0xc1 == 0xc1
        && (perm_of(e3) & 7 != 0 ==> leaf_of(e3))) by (bit_vector)
        requires
            e2 & !0x11eu64 == e1 & !0x11eu64,
            e3 == e2 | 0xc1,
    ;
    assert(perm & 7 != 0 ==> (perm & 0x1f) & 7 != 0) by (bit_vector);
}

/// In a well-formed page table, the owned table with frame `pa` is the one that has it.
proof fn lemma_table_of_unique(pt: Pagetable, pa: u64, k: int)
    requires
        pt.wf(),
        0 <= k < pt.subtables().len(),
        pt.subtables()[k].pa == pa,
    ensures
        pt.table_of(pa) == Some(k as usize),
{
    assert(pt.owns_frame(pa));
    let c = choose|j: int| 0 <= j < pt.subtables().len() && #[trigger] pt.subtables()[j].pa == pa;
    if c != k {
        assert(pt.subtables()[c].pa == pt.subtables()[k].pa);
    }
}

/// Two page tables with the same frames find the same table for every frame.
proof fn lemma_table_of_same_frames(a: Pagetable, b: Pagetable, pa: u64)
    requires
        a.wf(),
        b.wf(),
        a.subtables().len() == b.subtables().len(),
        forall|k: int| 0 <= k < a.subtables().len() ==> #[trigger] a.subtables()[k].pa == b.subtables()[k].pa,
    ensures
        a.table_of(pa) == b.table_of(pa),
{
    if a.owns_frame(pa) {
        let c = choose|j: int| 0 <= j < a.subtables().len() && #[trigger] a.subtables()[j].pa == pa;
        assert(b.subtables()[c].pa == pa);
        lemma_table_of_unique(a, pa, c);
        lemma_table_of_unique(b, pa, c);
    } else {
        if b.owns_frame(pa) {
            let c = choose|j: int| 0 <= j < b.subtables().len() && #[trigger] b.subtables()[j].pa == pa;
            assert(a.subtables()[c].pa == pa);
        }
    }
}

/// Overwriting the entry where a walk ends with a leaf leaves the walk ending at that entry.
/// A walk that starts in a lower table ends in a lower table.
proof fn lemma_walk_from_table(pt: Pagetable, k: usize, level: PtLevel, va: u64, endlevel: PtLevel)
    ensures
        pt.walk_from(Some(k), level, va, endlevel) matches Some((l, _)) ==> l.table is Some,
    decreases level_index(level),
{
    let loc = PteLoc { table: Some(k), index: vpn_of(level_index(level), va) };
    if level == endlevel || level == PtLevel::Normal {
    } else if leaf_of(pt.entry(loc)) {
    } else if !bit_u64(pt.entry(loc), 0) {
    } else {
        match pt.table_of(pa_of(pt.entry(loc))) {
            None => {},
            Some(k2) => {
                lemma_walk_from_table(pt, k2, level_next(level), va, endlevel);
            },
        }
    }
}

proof fn lemma_rewalk_leaf(mid: Pagetable, fin: Pagetable, va: u64, level: PtLevel, loc: PteLoc, lvl: PtLevel)
    requires
        mid.wf(),
        fin.wf(),
        mid.walk_spec(va, level) == Some((loc, lvl)),
        mid.has_loc(loc),
        fin.subtables().len() == mid.subtables().len(),
        forall|k: int| 0 <= k < mid.subtables().len() ==> #[trigger] fin.subtables()[k].pa == mid.subtables()[k].pa,
        leaf_of(fin.entry(loc)) || lvl == level,
        forall|l: PteLoc| mid.has_loc(l) && l != loc ==> #[trigger] fin.entry(l) == mid.entry(l),
    ensures
        leaf_of(fin.entry(loc)) ==> (fin.walk_spec(va, level) matches Some((l, _)) && l == loc),
        mid.tree() ==> fin.walk_spec(va, level) == Some((loc, lvl)),
{
    lemma_vpn_bound(0, va);
    lemma_vpn_bound(1, va);
    lemma_vpn_bound(2, va);
    let r2 = PteLoc { table: None, index: vpn_of(2, va) };
    if level == PtLevel::Giga {
        return;
    }
    let e2 = mid.entry(r2);
    if leaf_of(e2) {
        return;
    }
    if r2 == loc {
        if bit_u64(e2, 0) {
            match mid.table_of(pa_of(e2)) {
                None => {},
                Some(k1) => {
                    lemma_walk_from_table(mid, k1, PtLevel::Mega, va, level);
                },
            }
        }
        return;
    }
    assert(fin.entry(r2) == e2);
    lemma_table_of_same_frames(mid, fin, pa_of(e2));
    let k1 = mid.table_of(pa_of(e2)).unwrap();
    lemma_table_of_pa(mid, pa_of(e2));
    assert(mid.walk_spec(va, level) == mid.walk_from(Some(k1), PtLevel::Mega, va, level));
    assert(fin.walk_spec(va, level) == fin.walk_from(Some(k1), PtLevel::Mega, va, level));
    if level == PtLevel::Mega {
        return;
    }
    let r1 = PteLoc { table: Some(k1), index: vpn_of(1, va) };
    assert(mid.has_loc(r1));
    let e1 = mid.entry(r1);
    if leaf_of(e1) {
        return;
    }
    if r1 == loc {
        if bit_u64(e1, 0) && mid.table_of(pa_of(e1)) is Some {
            let k0 = mid.table_of(pa_of(e1)).unwrap();
            lemma_table_of_pa(mid, pa_of(e1));
            assert(mid.walk_from(Some(k1), PtLevel::Mega, va, level) == mid.walk_from(Some(k0), PtLevel::Normal, va, level));
            assert(k0 == k1);
            assert(mid.tree() ==> pa_of(mid.entry(r2)) != pa_of(mid.entry(r1)));
        }
        return;
    }
    assert(fin.entry(r1) == e1);
    lemma_table_of_same_frames(mid, fin, pa_of(e1));
    let k0 = mid.table_of(pa_of(e1)).unwrap();
    assert(mid.walk_from(Some(k1), PtLevel::Mega, va, level) == mid.walk_from(Some(k0), PtLevel::Normal, va, level));
    assert(fin.walk_from(Some(k1), PtLevel::Mega, va, level) == fin.walk_from(Some(k0), PtLevel::Normal, va, level));
}


/// Two page tables with the same entries and the same frames walk alike.
proof fn lemma_walk_congruent(a: Pagetable, b: Pagetable, table: Option<usize>, level: PtLevel, va: u64, endlevel: PtLevel)
    requires
        forall|l: PteLoc| #[trigger] a.entry(l) == b.entry(l),
        forall|p: u64| #[trigger] a.table_of(p) == b.table_of(p),
    ensures
        a.walk_from(table, level, va, endlevel) == b.walk_from(table, level, va, endlevel),
        a.need_from(table, level, va, endlevel) == b.need_from(table, level, va, endlevel),
    decreases level_index(level),
{
    let loc = PteLoc { table, index: vpn_of(level_index(level), va) };
    if level == endlevel || level == PtLevel::Normal {
    } else if leaf_of(a.entry(loc)) {
    } else if !bit_u64(a.entry(loc), 0) {
    } else {
        match a.table_of(pa_of(a.entry(loc))) {
            None => {},
            Some(k) => {
                lemma_walk_congruent(a, b, Some(k), level_next(level), va, endlevel);
            },
        }
    }
}


/// Growing a well-formed page table by more tables keeps the table found for each frame it
/// had.
proof fn lemma_table_of_prefix(a: Pagetable, b: Pagetable, p: u64)
    requires
        a.wf(),
        b.wf(),
        b.subtables().len() >= a.subtables().len(),
        forall|k: int| 0 <= k < a.subtables().len() ==> #[trigger] b.subtables()[k].pa == a.subtables()[k].pa,
        a.table_of(p) is Some,
    ensures
        b.table_of(p) == a.table_of(p),
{
    lemma_table_of_pa(a, p);
    let k = a.table_of(p).unwrap() as int;
    assert(b.subtables()[k].pa == p);
    lemma_table_of_unique(b, p, k);
}

/// A walk that goes through keeps its course in a page table that has the same entries
/// wherever this one has valid or leaf entries, and more tables.
proof fn lemma_walk_valid_kept(a: Pagetable, b: Pagetable, va: u64)
    requires
        a.wf(),
        b.wf(),
        b.subtables().len() >= a.subtables().len(),
        forall|k: int| 0 <= k < a.subtables().len() ==> #[trigger] b.subtables()[k].pa == a.subtables()[k].pa,
        forall|l: PteLoc| a.has_loc(l) && (bit_u64(a.entry(l), 0) || leaf_of(a.entry(l)))
            ==> #[trigger] b.entry(l) == a.entry(l),
        a.walk_spec(va, PtLevel::Normal) is Some,
    ensures
        b.walk_spec(va, PtLevel::Normal) == a.walk_spec(va, PtLevel::Normal),
{
    lemma_vpn_bound(0, va);
    lemma_vpn_bound(1, va);
    lemma_vpn_bound(2, va);
    let r2 = PteLoc { table: None, index: vpn_of(2, va) };
    let e2 = a.entry(r2);
    assert(b.entry(r2) == e2);
    if leaf_of(e2) {
        return;
    }
    lemma_table_of_prefix(a, b, pa_of(e2));
    let k1 = a.table_of(pa_of(e2)).unwrap();
    lemma_table_of_pa(a, pa_of(e2));
    assert(a.walk_spec(va, PtLevel::Normal) == a.walk_from(Some(k1), PtLevel::Mega, va, PtLevel::Normal));
    assert(b.walk_spec(va, PtLevel::Normal) == b.walk_from(Some(k1), PtLevel::Mega, va, PtLevel::Normal));
    let r1 = PteLoc { table: Some(k1), index: vpn_of(1, va) };
    assert(a.has_loc(r1));
    let e1 = a.entry(r1);
    assert(b.entry(r1) == e1);
    if leaf_of(e1) {
        return;
    }
    lemma_table_of_prefix(a, b, pa_of(e1));
    let k0 = a.table_of(pa_of(e1)).unwrap();
    assert(a.walk_from(Some(k1), PtLevel::Mega, va, PtLevel::Normal) == a.walk_from(Some(k0), PtLevel::Normal, va, PtLevel::Normal));
    assert(b.walk_from(Some(k1), PtLevel::Mega, va, PtLevel::Normal) == b.walk_from(Some(k0), PtLevel::Normal, va, PtLevel::Normal));
}

/// The frame of the table that `table_of` finds.
proof fn lemma_table_of_pa(a: Pagetable, p: u64)
    requires
        a.table_of(p) is Some,
    ensures
        a.subtables()[a.table_of(p).unwrap() as int].pa == p,
        a.table_of(p).unwrap() < a.subtables().len(),
{
    assert(a.tables.len() == a.subtables().len());
    let c = choose|k: int| 0 <= k < a.subtables().len() && #[trigger] a.subtables()[k].pa == p;
    assert(a.subtables()[c].pa == p);
}

/// Whether two addresses fall in the same 4 KiB slot of a page table: the same index at every
/// level.
pub open spec fn same_slot(a: u64, b: u64) -> bool {
    &&& vpn_of(2, a) == vpn_of(2, b)
    &&& vpn_of(1, a) == vpn_of(1, b)
    &&& vpn_of(0, a) == vpn_of(0, b)
}

/// No leaf above the 4 KiB level serves the lower half of the address space: the root entries
/// below 256 are not leaves, and no table that a root entry points to holds a leaf.
pub open spec fn user_leaves_4k(pt: Pagetable) -> bool {
    &&& forall|i: int| 0 <= i < 256 ==> !leaf_of(#[trigger] pt.entry(PteLoc { table: None, index: i as usize }))
    &&& forall|l: PteLoc, i: int|
        #![trigger pt.entry(l), pt.entry(PteLoc { table: None, index: i as usize })]
        pt.has_loc(l) && l.table is Some && 0 <= i < 512 && is_link(pt.entry(PteLoc { table: None, index: i as usize }))
            && pa_of(pt.entry(PteLoc { table: None, index: i as usize })) == pt.subtables()[l.table.unwrap() as int].pa
            ==> !leaf_of(pt.entry(l))
}

/// Addresses in the same 4 KiB slot walk alike.
pub proof fn lemma_walk_same_slot(pt: Pagetable, table: Option<usize>, level: PtLevel, a: u64, b: u64)
    requires
        same_slot(a, b),
    ensures
        pt.walk_from(table, level, a, PtLevel::Normal) == pt.walk_from(table, level, b, PtLevel::Normal),
    decreases level_index(level),
{
    if level != PtLevel::Normal {
        let loc = PteLoc { table, index: vpn_of(level_index(level), a) };
        if !leaf_of(pt.entry(loc)) && bit_u64(pt.entry(loc), 0) {
            match pt.table_of(pa_of(pt.entry(loc))) {
                None => {},
                Some(k) => {
                    lemma_walk_same_slot(pt, Some(k), level_next(level), a, b);
                },
            }
        }
    }
}

/// Whether `l` is the root entry for `va`, or an entry of the lower table that this root entry
/// points to in `pt`.
pub open spec fn root_path(pt: Pagetable, l: PteLoc, va: u64) -> bool {
    let r = PteLoc { table: None, index: vpn_of(2, va) };
    ||| l == r
    ||| (l.table matches Some(k) && is_link(pt.entry(r)) && pa_of(pt.entry(r)) == pt.subtables()[k as int].pa)
}

/// Where a walk down to the 4 KiB level can end: at a leaf in the root, at a leaf in a table
/// that the root entry points to, or in a table that an entry of a lower table points to.
proof fn lemma_walk_shape(pt: Pagetable, va: u64)
    requires
        pt.wf(),
    ensures
        pt.walk_spec(va, PtLevel::Normal) matches Some((loc, lvl)) ==> {
            let r = PteLoc { table: None, index: vpn_of(2, va) };
            ||| loc == r && lvl == PtLevel::Giga && leaf_of(pt.entry(loc))
            ||| loc.table matches Some(k) && k < pt.subtables().len() && lvl == PtLevel::Mega && leaf_of(pt.entry(loc))
                && loc.index == vpn_of(1, va)
                && is_link(pt.entry(r)) && pa_of(pt.entry(r)) == pt.subtables()[k as int].pa
            ||| loc.table matches Some(k) && k < pt.subtables().len() && lvl == PtLevel::Normal
                && (exists|m: PteLoc| pt.has_loc(m) && m.table is Some && is_link(#[trigger] pt.entry(m))
                    && pa_of(pt.entry(m)) == pt.subtables()[k as int].pa)
        },
{
    lemma_vpn_bound(0, va);
    lemma_vpn_bound(1, va);
    lemma_vpn_bound(2, va);
    let r = PteLoc { table: None, index: vpn_of(2, va) };
    let e2 = pt.entry(r);
    if leaf_of(e2) || !bit_u64(e2, 0) {
        return;
    }
    match pt.table_of(pa_of(e2)) {
        None => {},
        Some(k1) => {
            lemma_table_of_pa(pt, pa_of(e2));
            let m = PteLoc { table: Some(k1), index: vpn_of(1, va) };
            assert(pt.walk_spec(va, PtLevel::Normal) == pt.walk_from(Some(k1), PtLevel::Mega, va, PtLevel::Normal));
            let e1 = pt.entry(m);
            if leaf_of(e1) || !bit_u64(e1, 0) {
                return;
            }
            match pt.table_of(pa_of(e1)) {
                None => {},
                Some(k0) => {
                    lemma_table_of_pa(pt, pa_of(e1));
                    assert(pt.has_loc(m));
                    assert(pt.walk_from(Some(k1), PtLevel::Mega, va, PtLevel::Normal)
                        == pt.walk_from(Some(k0), PtLevel::Normal, va, PtLevel::Normal));
                },
            }
        },
    }
}

/// A leaf above the 4 KiB level serves its whole region: when the walk for `x` ends at a 1 GiB
/// leaf, every address with the same top-level index walks to it; when it ends at a 2 MiB
/// leaf, every address with the same top two indices does.
pub proof fn lemma_big_leaf_region(pt: Pagetable, x: u64, y: u64)
    requires
        pt.wf(),
    ensures
        pt.walk_spec(x, PtLevel::Normal) matches Some((_, lv)) && lv == PtLevel::Giga && vpn_of(2, x) == vpn_of(2, y)
            ==> pt.walk_spec(y, PtLevel::Normal) == pt.walk_spec(x, PtLevel::Normal),
        pt.walk_spec(x, PtLevel::Normal) matches Some((_, lv)) && lv == PtLevel::Mega && vpn_of(2, x) == vpn_of(2, y)
            && vpn_of(1, x) == vpn_of(1, y) ==> pt.walk_spec(y, PtLevel::Normal) == pt.walk_spec(x, PtLevel::Normal),
{
    lemma_walk_shape(pt, x);
    lemma_vpn_bound(2, y);
    lemma_vpn_bound(1, y);
    if let Some((loc, lv)) = pt.walk_spec(x, PtLevel::Normal) {
        let r = PteLoc { table: None, index: vpn_of(2, x) };
        if lv == PtLevel::Mega && vpn_of(2, x) == vpn_of(2, y) && vpn_of(1, x) == vpn_of(1, y) {
            let k = loc.table.unwrap();
            let e2 = pt.entry(r);
            lemma_table_of_unique(pt, pa_of(e2), k as int);
            assert(pt.walk_spec(y, PtLevel::Normal) == pt.walk_from(Some(k), PtLevel::Mega, y, PtLevel::Normal));
        }
    }
}

/// With `user_leaves_4k`, a walk for an address of the lower half that ends at all ends at the
/// 4 KiB level.
pub proof fn lemma_user_walk_4k(pt: Pagetable, va: u64)
    requires
        pt.wf(),
        user_leaves_4k(pt),
        vpn_of(2, va) < 256,
    ensures
        pt.walk_spec(va, PtLevel::Normal) matches Some((_, lv)) ==> lv == PtLevel::Normal,
{
    lemma_walk_shape(pt, va);
    lemma_walk_has_loc(pt, None, PtLevel::Giga, va, PtLevel::Normal);
    lemma_vpn_bound(2, va);
    let r = PteLoc { table: None, index: vpn_of(2, va) };
    assert(!leaf_of(pt.entry(PteLoc { table: None, index: (vpn_of(2, va) as int) as usize })));
    if let Some((loc, lvl)) = pt.walk_spec(va, PtLevel::Normal) {
        if lvl == PtLevel::Mega {
            let i = vpn_of(2, va) as int;
            assert(pt.has_loc(loc));
            assert(pt.entry(PteLoc { table: None, index: i as usize }) == pt.entry(r));
        }
    }
}

/// Given an old leaf at `loc1` in a table of `o` that the (unchanged) root entry for `va1` points
/// to, the old walk for `va1` ends there at the 2 MiB level.
proof fn lemma_old_mega_walk(o: Pagetable, mid: Pagetable, va1: u64, loc1: PteLoc)
    requires
        o.wf(),
        o.has_loc(loc1),
        loc1.table is Some,
        loc1.index == vpn_of(1, va1),
        leaf_of(o.entry(loc1)),
        ({
            let r1 = PteLoc { table: None, index: vpn_of(2, va1) };
            &&& o.entry(r1) == mid.entry(r1)
            &&& is_link(mid.entry(r1))
            &&& pa_of(mid.entry(r1)) == o.subtables()[loc1.table.unwrap() as int].pa
        }),
    ensures
        o.walk_spec(va1, PtLevel::Normal) == Some((loc1, PtLevel::Mega)),
{
    let k = loc1.table.unwrap();
    let r1 = PteLoc { table: None, index: vpn_of(2, va1) };
    lemma_table_of_unique(o, pa_of(o.entry(r1)), k as int);
    assert(o.walk_spec(va1, PtLevel::Normal) == o.walk_from(Some(k), PtLevel::Mega, va1, PtLevel::Normal));
}

/// Writing a leaf where a walk down to the 4 KiB level ended, after that walk added only links
/// to fresh tables, creates no walk that ends above the 4 KiB level: every such walk was there
/// before.
proof fn lemma_map_big_kept(o: Pagetable, mid: Pagetable, fin: Pagetable, va: u64, loc: PteLoc, lvl: PtLevel)
    requires
        o.wf(),
        mid.wf(),
        fin.wf(),
        mid.tree(),
        mid.subtables().len() >= o.subtables().len(),
        forall|k: int| 0 <= k < o.subtables().len() ==> #[trigger] mid.subtables()[k].pa == o.subtables()[k].pa,
        forall|l: PteLoc| mid.has_loc(l) && leaf_of(#[trigger] mid.entry(l)) ==> o.has_loc(l) && mid.entry(l) == o.entry(l),
        forall|l: PteLoc| o.has_loc(l) && #[trigger] mid.entry(l) != o.entry(l)
            ==> is_link(mid.entry(l)) && !o.owns_frame(pa_of(mid.entry(l))),
        mid.walk_spec(va, PtLevel::Normal) == Some((loc, lvl)),
        fin.subtables().len() == mid.subtables().len(),
        forall|k: int| 0 <= k < mid.subtables().len() ==> #[trigger] fin.subtables()[k].pa == mid.subtables()[k].pa,
        forall|l: PteLoc| mid.has_loc(l) && l != loc ==> #[trigger] fin.entry(l) == mid.entry(l),
        leaf_of(fin.entry(loc)),
    ensures
        forall|va1: u64| (#[trigger] fin.walk_spec(va1, PtLevel::Normal) matches Some((_, lv)) && lv != PtLevel::Normal)
            ==> o.walk_spec(va1, PtLevel::Normal) == fin.walk_spec(va1, PtLevel::Normal),
{
    lemma_walk_shape(mid, va);
    lemma_walk_has_loc(mid, None, PtLevel::Giga, va, PtLevel::Normal);
    assert forall|va1: u64| (#[trigger] fin.walk_spec(va1, PtLevel::Normal) matches Some((_, lv)) && lv != PtLevel::Normal)
        implies o.walk_spec(va1, PtLevel::Normal) == fin.walk_spec(va1, PtLevel::Normal) by {
        lemma_walk_shape(fin, va1);
        lemma_walk_has_loc(fin, None, PtLevel::Giga, va1, PtLevel::Normal);
        lemma_vpn_bound(2, va1);
        lemma_vpn_bound(1, va1);
        let (loc1, lv1) = fin.walk_spec(va1, PtLevel::Normal).unwrap();
        let r1 = PteLoc { table: None, index: vpn_of(2, va1) };
        assert(mid.has_loc(loc1));
        if lv1 == PtLevel::Giga {
            assert(leaf_of(mid.entry(loc1))) by {
                if loc1 == loc {
                    assert(lvl == PtLevel::Giga);
                }
            }
            assert(o.has_loc(loc1) && o.entry(loc1) == mid.entry(loc1));
            assert(o.walk_spec(va1, PtLevel::Normal) == Some((loc1, PtLevel::Giga)));
        } else {
            let k = loc1.table.unwrap();
            assert(mid.has_loc(r1));
            assert(r1 != loc) by {
                if r1 == loc {
                    assert(leaf_of(fin.entry(r1)));
                }
            }
            assert(fin.entry(r1) == mid.entry(r1));
            assert(pa_of(mid.entry(r1)) == mid.subtables()[k as int].pa);
            assert(leaf_of(mid.entry(loc1))) by {
                if loc1 == loc {
                    if lvl == PtLevel::Normal {
                        let m = choose|m: PteLoc| mid.has_loc(m) && m.table is Some && is_link(#[trigger] mid.entry(m))
                            && pa_of(mid.entry(m)) == mid.subtables()[loc.table.unwrap() as int].pa;
                        assert(mid.entry(m) == mid.entry(m) && mid.entry(r1) == mid.entry(r1));
                        assert(m != r1);
                        assert(false);
                    }
                }
            }
            assert(o.has_loc(loc1) && o.entry(loc1) == mid.entry(loc1));
            assert(k < o.subtables().len());
            assert(o.has_loc(r1));
            if mid.entry(r1) != o.entry(r1) {
                assert(!o.owns_frame(pa_of(mid.entry(r1))));
                assert(o.subtables()[k as int].pa == mid.subtables()[k as int].pa);
                assert(false);
            }
            lemma_old_mega_walk(o, mid, va1, loc1);
        }
    }
}

/// Writing a leaf where a walk for `va` ended, after that walk added only links to fresh tables
/// along its own path, creates no other valid 4 KiB mapping: every walk that ends at a valid
/// 4 KiB entry other than the one written was there before, with the same entry.
proof fn lemma_map_yields_kept(o: Pagetable, mid: Pagetable, fin: Pagetable, va: u64, loc: PteLoc)
    requires
        o.wf(),
        mid.wf(),
        fin.wf(),
        mid.tree(),
        mid.subtables().len() >= o.subtables().len(),
        forall|k: int| 0 <= k < o.subtables().len() ==> #[trigger] mid.subtables()[k].pa == o.subtables()[k].pa,
        forall|l: PteLoc| o.has_loc(l) && #[trigger] mid.entry(l) != o.entry(l)
            ==> is_link(mid.entry(l)) && !o.owns_frame(pa_of(mid.entry(l))),
        forall|l: PteLoc| o.has_loc(l) && #[trigger] mid.entry(l) != o.entry(l) ==> root_path(mid, l, va),
        forall|l: PteLoc| mid.has_loc(l) && !o.has_loc(l) && #[trigger] mid.entry(l) != 0
            ==> root_path(mid, l, va) && is_link(mid.entry(l)) && !o.owns_frame(pa_of(mid.entry(l))),
        fin.subtables().len() == mid.subtables().len(),
        forall|k: int| 0 <= k < mid.subtables().len() ==> #[trigger] fin.subtables()[k].pa == mid.subtables()[k].pa,
        forall|l: PteLoc| mid.has_loc(l) && l != loc ==> #[trigger] fin.entry(l) == mid.entry(l),
        leaf_of(fin.entry(loc)),
    ensures
        forall|va1: u64| (#[trigger] fin.walk_spec(va1, PtLevel::Normal) matches Some((l1, lv1)) && lv1 == PtLevel::Normal
            && bit_u64(fin.entry(l1), 0) && l1 != loc)
            ==> o.walk_spec(va1, PtLevel::Normal) == fin.walk_spec(va1, PtLevel::Normal)
                && o.entry(fin.walk_spec(va1, PtLevel::Normal).unwrap().0) == fin.entry(fin.walk_spec(va1, PtLevel::Normal).unwrap().0),
{
    lemma_zero_entry();
    lemma_vpn_bound(2, va);
    let rv = PteLoc { table: None, index: vpn_of(2, va) };
    assert(mid.has_loc(rv));
    assert forall|va1: u64| (#[trigger] fin.walk_spec(va1, PtLevel::Normal) matches Some((l1, lv1)) && lv1 == PtLevel::Normal
        && bit_u64(fin.entry(l1), 0) && l1 != loc)
        implies o.walk_spec(va1, PtLevel::Normal) == fin.walk_spec(va1, PtLevel::Normal)
            && o.entry(fin.walk_spec(va1, PtLevel::Normal).unwrap().0) == fin.entry(fin.walk_spec(va1, PtLevel::Normal).unwrap().0) by {
        lemma_vpn_bound(0, va1);
        lemma_vpn_bound(1, va1);
        lemma_vpn_bound(2, va1);
        let l1 = fin.walk_spec(va1, PtLevel::Normal).unwrap().0;
        let r1 = PteLoc { table: None, index: vpn_of(2, va1) };
        let f2 = fin.entry(r1);
        assert(is_link(f2));
        let j1 = fin.table_of(pa_of(f2)).unwrap();
        lemma_table_of_pa(fin, pa_of(f2));
        assert(fin.walk_spec(va1, PtLevel::Normal) == fin.walk_from(Some(j1), PtLevel::Mega, va1, PtLevel::Normal));
        let q1 = PteLoc { table: Some(j1), index: vpn_of(1, va1) };
        let f1 = fin.entry(q1);
        assert(is_link(f1));
        let j0 = fin.table_of(pa_of(f1)).unwrap();
        lemma_table_of_pa(fin, pa_of(f1));
        assert(fin.walk_from(Some(j1), PtLevel::Mega, va1, PtLevel::Normal)
            == fin.walk_from(Some(j0), PtLevel::Normal, va1, PtLevel::Normal));
        assert(l1 == PteLoc { table: Some(j0), index: vpn_of(0, va1) });
        assert(mid.has_loc(r1) && mid.has_loc(q1) && mid.has_loc(l1));
        assert(r1 != loc && q1 != loc);
        assert(mid.entry(r1) == f2 && mid.entry(q1) == f1);
        assert(mid.entry(l1) == fin.entry(l1));
        assert(rv != q1);
        if (j0 as int) >= o.subtables().len() {
            assert(!o.has_loc(l1));
            assert(root_path(mid, l1, va));
            assert(pa_of(mid.entry(rv)) == pa_of(mid.entry(q1)));
            assert(false);
        }
        assert(o.owns_frame(pa_of(f1))) by {
            assert(o.subtables()[j0 as int].pa == pa_of(f1));
        }
        if (j1 as int) >= o.subtables().len() {
            assert(!o.has_loc(q1));
            assert(false);
        }
        assert(o.has_loc(q1) && o.has_loc(r1) && o.has_loc(l1));
        assert(o.entry(q1) == f1);
        assert(o.owns_frame(pa_of(f2))) by {
            assert(o.subtables()[j1 as int].pa == pa_of(f2));
        }
        assert(o.entry(r1) == f2);
        if mid.entry(l1) != o.entry(l1) {
            assert(root_path(mid, l1, va));
            assert(pa_of(mid.entry(rv)) == pa_of(mid.entry(q1)));
            assert(false);
        }
        lemma_table_of_unique(o, pa_of(f2), j1 as int);
        lemma_table_of_unique(o, pa_of(f1), j0 as int);
        assert(o.walk_spec(va1, PtLevel::Normal) == o.walk_from(Some(j1), PtLevel::Mega, va1, PtLevel::Normal));
        assert(o.walk_from(Some(j1), PtLevel::Mega, va1, PtLevel::Normal)
            == o.walk_from(Some(j0), PtLevel::Normal, va1, PtLevel::Normal));
    }
}

/// A walk that added only links to fresh tables keeps `user_leaves_4k`.
proof fn lemma_walk_keeps_4k(o: Pagetable, mid: Pagetable)
    requires
        o.wf(),
        mid.wf(),
        user_leaves_4k(o),
        mid.subtables().len() >= o.subtables().len(),
        forall|k: int| 0 <= k < o.subtables().len() ==> #[trigger] mid.subtables()[k].pa == o.subtables()[k].pa,
        forall|l: PteLoc| mid.has_loc(l) && leaf_of(#[trigger] mid.entry(l)) ==> o.has_loc(l) && mid.entry(l) == o.entry(l),
        forall|l: PteLoc| o.has_loc(l) && #[trigger] mid.entry(l) != o.entry(l)
            ==> is_link(mid.entry(l)) && !o.owns_frame(pa_of(mid.entry(l))),
    ensures
        user_leaves_4k(mid),
{
    assert forall|i: int| 0 <= i < 256 implies !leaf_of(#[trigger] mid.entry(PteLoc { table: None, index: i as usize })) by {
        let l = PteLoc { table: None, index: i as usize };
        assert(mid.has_loc(l) && o.has_loc(l));
    }
    assert forall|l: PteLoc, i: int|
        mid.has_loc(l) && l.table is Some && 0 <= i < 512 && is_link(#[trigger] mid.entry(PteLoc { table: None, index: i as usize }))
            && pa_of(mid.entry(PteLoc { table: None, index: i as usize })) == mid.subtables()[l.table.unwrap() as int].pa
        implies !leaf_of(#[trigger] mid.entry(l)) by {
        let ri = PteLoc { table: None, index: i as usize };
        let k = l.table.unwrap() as int;
        assert(o.has_loc(ri));
        if leaf_of(mid.entry(l)) {
            assert(o.has_loc(l) && mid.entry(l) == o.entry(l));
            if mid.entry(ri) != o.entry(ri) {
                assert(o.subtables()[k].pa == mid.subtables()[k].pa);
                assert(false);
            }
            assert(!leaf_of(o.entry(l)));
        }
    }
}

/// Writing a leaf where a walk down to the 4 KiB level ended, after that walk added only
/// links to fresh tables, keeps `user_leaves_4k`.
proof fn lemma_map_keeps_4k(o: Pagetable, mid: Pagetable, fin: Pagetable, va: u64, loc: PteLoc, lvl: PtLevel)
    requires
        o.wf(),
        mid.wf(),
        fin.wf(),
        user_leaves_4k(o),
        mid.tree(),
        mid.subtables().len() >= o.subtables().len(),
        forall|k: int| 0 <= k < o.subtables().len() ==> #[trigger] mid.subtables()[k].pa == o.subtables()[k].pa,
        forall|l: PteLoc| mid.has_loc(l) && leaf_of(#[trigger] mid.entry(l)) ==> o.has_loc(l) && mid.entry(l) == o.entry(l),
        forall|l: PteLoc| o.has_loc(l) && #[trigger] mid.entry(l) != o.entry(l)
            ==> is_link(mid.entry(l)) && !o.owns_frame(pa_of(mid.entry(l))),
        forall|l: PteLoc| o.has_loc(l) && (bit_u64(o.entry(l), 0) || leaf_of(o.entry(l))) ==> #[trigger] mid.entry(l) == o.entry(l),
        mid.walk_spec(va, PtLevel::Normal) == Some((loc, lvl)),
        fin.subtables().len() == mid.subtables().len(),
        forall|k: int| 0 <= k < mid.subtables().len() ==> #[trigger] fin.subtables()[k].pa == mid.subtables()[k].pa,
        forall|l: PteLoc| mid.has_loc(l) && l != loc ==> #[trigger] fin.entry(l) == mid.entry(l),
        leaf_of(fin.entry(loc)),
    ensures
        user_leaves_4k(fin),
{
    lemma_walk_shape(mid, va);
    lemma_vpn_bound(2, va);
    let r = PteLoc { table: None, index: vpn_of(2, va) };
    assert forall|i: int| 0 <= i < 256 implies !leaf_of(#[trigger] fin.entry(PteLoc { table: None, index: i as usize })) by {
        let l = PteLoc { table: None, index: i as usize };
        assert(mid.has_loc(l) && o.has_loc(l));
        assert(o.entry(PteLoc { table: None, index: i as usize }) == o.entry(l));
        if l == loc {
            assert(loc == r && leaf_of(mid.entry(loc)));
        }
    }
    assert forall|l: PteLoc, i: int|
        fin.has_loc(l) && l.table is Some && 0 <= i < 512 && is_link(#[trigger] fin.entry(PteLoc { table: None, index: i as usize }))
            && pa_of(fin.entry(PteLoc { table: None, index: i as usize })) == fin.subtables()[l.table.unwrap() as int].pa
        implies !leaf_of(#[trigger] fin.entry(l)) by {
        let ri = PteLoc { table: None, index: i as usize };
        let k = l.table.unwrap() as int;
        assert(mid.has_loc(ri));
        lemma_zero_entry();
        assert(ri != loc) by {
            if ri == loc {
                assert(leaf_of(fin.entry(ri)));
            }
        }
        assert(fin.entry(ri) == mid.entry(ri));
        assert(mid.has_loc(l));
        assert(mid.subtables()[k].pa == pa_of(mid.entry(ri)));
        if leaf_of(fin.entry(l)) {
            // The entry `l` is either the one written or a leaf `mid` already had.
            if l == loc {
                if lvl == PtLevel::Normal {
                    let m = choose|m: PteLoc| mid.has_loc(m) && m.table is Some && is_link(#[trigger] mid.entry(m))
                        && pa_of(mid.entry(m)) == mid.subtables()[k].pa;
                    assert(mid.entry(m) == mid.entry(m) && mid.entry(ri) == mid.entry(ri));
                    assert(m != ri);
                    assert(false);
                } else {
                    assert(leaf_of(mid.entry(loc)));
                }
            }
            assert(leaf_of(mid.entry(l)));
            assert(o.has_loc(l) && mid.entry(l) == o.entry(l));
            assert(k < o.subtables().len());
            if mid.entry(ri) != o.entry(ri) {
                assert(!o.owns_frame(pa_of(mid.entry(ri))));
                assert(o.subtables()[k].pa == mid.subtables()[k].pa);
                assert(false);
            }
            assert(o.entry(PteLoc { table: None, index: i as usize }) == o.entry(ri));
            assert(o.subtables()[l.table.unwrap() as int].pa == pa_of(o.entry(ri)));
            assert(!leaf_of(o.entry(l)));
            assert(false);
        }
    }
}

/// In a page table where no table has two parents, two walks that end at the same lowest-level
/// entry are for the same slot.
proof fn lemma_same_slot(m: Pagetable, va: u64, va1: u64, x: PteLoc, lv: PtLevel)
    requires
        m.wf(),
        m.tree(),
        m.walk_spec(va, PtLevel::Normal) == Some((x, lv)),
        m.walk_spec(va1, PtLevel::Normal) == Some((x, PtLevel::Normal)),
    ensures
        lv == PtLevel::Normal,
        same_slot(va, va1),
{
    lemma_vpn_bound(0, va);
    lemma_vpn_bound(1, va);
    lemma_vpn_bound(2, va);
    lemma_vpn_bound(0, va1);
    lemma_vpn_bound(1, va1);
    lemma_vpn_bound(2, va1);
    let q2 = PteLoc { table: None, index: vpn_of(2, va1) };
    let f2 = m.entry(q2);
    assert(is_link(f2));
    let j1 = m.table_of(pa_of(f2)).unwrap();
    lemma_table_of_pa(m, pa_of(f2));
    assert(m.walk_spec(va1, PtLevel::Normal) == m.walk_from(Some(j1), PtLevel::Mega, va1, PtLevel::Normal));
    let q1 = PteLoc { table: Some(j1), index: vpn_of(1, va1) };
    let f1 = m.entry(q1);
    assert(is_link(f1));
    let j0 = m.table_of(pa_of(f1)).unwrap();
    lemma_table_of_pa(m, pa_of(f1));
    assert(m.walk_from(Some(j1), PtLevel::Mega, va1, PtLevel::Normal) == m.walk_from(Some(j0), PtLevel::Normal, va1, PtLevel::Normal));
    assert(x == PteLoc { table: Some(j0), index: vpn_of(0, va1) });
    let r2 = PteLoc { table: None, index: vpn_of(2, va) };
    let e2 = m.entry(r2);
    assert(!leaf_of(e2));
    let k1 = m.table_of(pa_of(e2)).unwrap();
    lemma_table_of_pa(m, pa_of(e2));
    assert(m.walk_spec(va, PtLevel::Normal) == m.walk_from(Some(k1), PtLevel::Mega, va, PtLevel::Normal));
    let r1 = PteLoc { table: Some(k1), index: vpn_of(1, va) };
    let e1 = m.entry(r1);
    if leaf_of(e1) {
        assert(x == r1);
        assert(k1 == j0);
        assert(pa_of(e2) == pa_of(f1));
        assert(m.has_loc(r2) && m.has_loc(q1) && r2 != q1);
        assert(false);
    }
    let k0 = m.table_of(pa_of(e1)).unwrap();
    lemma_table_of_pa(m, pa_of(e1));
    assert(m.walk_from(Some(k1), PtLevel::Mega, va, PtLevel::Normal) == m.walk_from(Some(k0), PtLevel::Normal, va, PtLevel::Normal));
    assert(x == PteLoc { table: Some(k0), index: vpn_of(0, va) });
    assert(pa_of(e1) == pa_of(f1));
    assert(m.has_loc(r1) && m.has_loc(q1));
    assert(r1 == q1);
    assert(pa_of(e2) == pa_of(f2));
    assert(m.has_loc(r2) && m.has_loc(q2));
    assert(r2 == q2);
}

/// Writing a leaf where a walk ends changes no other walk that went through, in a page table
/// where no table has two parents.
proof fn lemma_walk_except(m: Pagetable, f: Pagetable, va: u64, loc: PteLoc, lvl: PtLevel, va1: u64)
    requires
        m.wf(),
        f.wf(),
        m.tree(),
        f.subtables().len() == m.subtables().len(),
        forall|k: int| 0 <= k < m.subtables().len() ==> #[trigger] f.subtables()[k].pa == m.subtables()[k].pa,
        forall|l: PteLoc| m.has_loc(l) && l != loc ==> #[trigger] f.entry(l) == m.entry(l),
        leaf_of(f.entry(loc)),
        m.walk_spec(va, PtLevel::Normal) == Some((loc, lvl)),
        m.walk_spec(va1, PtLevel::Normal) is Some,
    ensures
        f.walk_spec(va1, PtLevel::Normal) == m.walk_spec(va1, PtLevel::Normal),
{
    lemma_vpn_bound(0, va);
    lemma_vpn_bound(1, va);
    lemma_vpn_bound(2, va);
    lemma_vpn_bound(0, va1);
    lemma_vpn_bound(1, va1);
    lemma_vpn_bound(2, va1);
    let q2 = PteLoc { table: None, index: vpn_of(2, va1) };
    let f2 = m.entry(q2);
    if q2 == loc {
        let r2v = PteLoc { table: None, index: vpn_of(2, va) };
        let e2v = m.entry(r2v);
        if !leaf_of(e2v) {
            let k1 = m.table_of(pa_of(e2v)).unwrap();
            assert(m.walk_spec(va, PtLevel::Normal) == m.walk_from(Some(k1), PtLevel::Mega, va, PtLevel::Normal));
            let r1 = PteLoc { table: Some(k1), index: vpn_of(1, va) };
            if !leaf_of(m.entry(r1)) {
                let k0 = m.table_of(pa_of(m.entry(r1))).unwrap();
                assert(m.walk_from(Some(k1), PtLevel::Mega, va, PtLevel::Normal) == m.walk_from(Some(k0), PtLevel::Normal, va, PtLevel::Normal));
            }
            assert(false);
        }
        assert(r2v == loc);
        return;
    }
    assert(f.entry(q2) == f2);
    if leaf_of(f2) {
        return;
    }
    lemma_table_of_same_frames(m, f, pa_of(f2));
    let j1 = m.table_of(pa_of(f2)).unwrap();
    lemma_table_of_pa(m, pa_of(f2));
    assert(m.walk_spec(va1, PtLevel::Normal) == m.walk_from(Some(j1), PtLevel::Mega, va1, PtLevel::Normal));
    assert(f.walk_spec(va1, PtLevel::Normal) == f.walk_from(Some(j1), PtLevel::Mega, va1, PtLevel::Normal));
    let q1 = PteLoc { table: Some(j1), index: vpn_of(1, va1) };
    assert(m.has_loc(q1));
    let f1 = m.entry(q1);
    if q1 == loc {
        let r2 = PteLoc { table: None, index: vpn_of(2, va) };
        let e2 = m.entry(r2);
        if !leaf_of(e2) {
            let k1 = m.table_of(pa_of(e2)).unwrap();
            lemma_table_of_pa(m, pa_of(e2));
            assert(m.walk_spec(va, PtLevel::Normal) == m.walk_from(Some(k1), PtLevel::Mega, va, PtLevel::Normal));
            let r1 = PteLoc { table: Some(k1), index: vpn_of(1, va) };
            let e1 = m.entry(r1);
            if !leaf_of(e1) {
                let k0 = m.table_of(pa_of(e1)).unwrap();
                lemma_table_of_pa(m, pa_of(e1));
                assert(m.walk_from(Some(k1), PtLevel::Mega, va, PtLevel::Normal) == m.walk_from(Some(k0), PtLevel::Normal, va, PtLevel::Normal));
                assert(loc == PteLoc { table: Some(k0), index: vpn_of(0, va) });
                assert(k0 == j1);
                assert(pa_of(e1) == pa_of(f2));
                assert(m.has_loc(r1) && m.has_loc(q2) && r1 != q2);
                assert(false);
            }
        }
        assert(leaf_of(f1));
        return;
    }
    assert(f.entry(q1) == f1);
    if leaf_of(f1) {
        return;
    }
    lemma_table_of_same_frames(m, f, pa_of(f1));
    let j0 = m.table_of(pa_of(f1)).unwrap();
    assert(m.walk_from(Some(j1), PtLevel::Mega, va1, PtLevel::Normal) == m.walk_from(Some(j0), PtLevel::Normal, va1, PtLevel::Normal));
    assert(f.walk_from(Some(j1), PtLevel::Mega, va1, PtLevel::Normal) == f.walk_from(Some(j0), PtLevel::Normal, va1, PtLevel::Normal));
}

/// In a page table whose valid non-leaf entries all point to owned tables, every walk goes
/// through, and needs at most one new table per level it descends.
proof fn lemma_closed_need(pt: Pagetable, table: Option<usize>, level: PtLevel, va: u64, endlevel: PtLevel)
    requires
        pt.wf(),
        pt.closed(),
        level_index(level) >= level_index(endlevel),
        table matches Some(k) ==> k < pt.subtables().len(),
    ensures
        pt.need_from(table, level, va, endlevel) matches Some(n) && n <= level_index(level) - level_index(endlevel),
    decreases level_index(level),
{
    lemma_vpn_bound(level_index(level), va);
    let loc = PteLoc { table, index: vpn_of(level_index(level), va) };
    if level == endlevel || level == PtLevel::Normal {
    } else if leaf_of(pt.entry(loc)) {
    } else if !bit_u64(pt.entry(loc), 0) {
    } else {
        assert(pt.has_loc(loc));
        let p = pa_of(pt.entry(loc));
        assert(pt.owns_frame(p));
        let c = choose|c: int| 0 <= c < pt.subtables().len() && #[trigger] pt.subtables()[c].pa == p;
        lemma_table_of_unique(pt, p, c);
        lemma_closed_need(pt, Some(c as usize), level_next(level), va, endlevel);
    }
}


/// An entry whose permissions include read, write or exec is a leaf.
proof fn lemma_perm_leaf(e: u64, perm: u8)
    requires
        perm_of(e) == perm & 0x1f,
        perm & 7 != 0,
    ensures
        leaf_of(e),
{
    perm_bit_facts(perm, e);
}

/// Keeping the low five bits of permissions keeps their read, write and execute bits.
pub proof fn lemma_perm_low_bits(perm: u8)
    ensures
        perm & 7 != 0 ==> (perm & 0x1f) & 7 != 0,
{
    perm_bit_facts(perm, 0);
}

/// The permission flags sit where Sv39 puts them: read, write and execute in bits 1, 2 and 3
/// of the entry, user in bit 4, and copy-on-write in bit 8 (one of the bits Sv39 leaves to
/// software). No other flag is read.
pub proof fn lemma_perm_layout(e: u64)
    ensures
        (perm_of(e) & perm::READ != 0) == bit_u64(e, 1),
        (perm_of(e) & perm::WRITE != 0) == bit_u64(e, 2),
        (perm_of(e) & perm::EXEC != 0) == bit_u64(e, 3),
        (perm_of(e) & perm::USER != 0) == bit_u64(e, 4),
        (perm_of(e) & perm::COW != 0) == bit_u64(e, 8),
        perm_of(e) < 32,
{
    perm_bit_facts(0, e);
}

/// The bit facts behind `lemma_perm_layout`, `lemma_perm_leaf` and `lemma_perm_low_bits`.
proof fn perm_bit_facts(perm: u8, e: u64)
    ensures
        perm & 7 != 0 ==> (perm & 0x1f) & 7 != 0,
        perm_of(e) & 7 != 0 ==> leaf_of(e),
        (perm_of(e) & 1 != 0) == bit_u64(e, 1),
        (perm_of(e) & 2 != 0) == bit_u64(e, 2),
        (perm_of(e) & 4 != 0) == bit_u64(e, 3),
        (perm_of(e) & 8 != 0) == bit_u64(e, 4),
        (perm_of(e) & 16 != 0) == bit_u64(e, 8),
        perm_of(e) < 32,
{
    assert({
        &&& perm & 7 != 0 ==> (perm & 0x1f) & 7 != 0
        &&& perm_of(e) & 7 != 0 ==> leaf_of(e)
        &&& (perm_of(e) & 1 != 0) == bit_u64(e, 1)
        &&& (perm_of(e) & 2 != 0) == bit_u64(e, 2)
        &&& (perm_of(e) & 4 != 0) == bit_u64(e, 3)
        &&& (perm_of(e) & 8 != 0) == bit_u64(e, 4)
        &&& (perm_of(e) & 16 != 0) == bit_u64(e, 8)
        &&& perm_of(e) < 32
    }) by (bit_vector);
}


/// The zero entry is invalid and not a leaf; the permissions `RWX`, `URWX` and `URW` make a
/// leaf.
pub proof fn lemma_zero_entry()
    ensures
        !bit_u64(0u64, 0),
        !leaf_of(0u64),
        perm::RWX & 7 != 0,
        perm::URWX & 7 != 0,
        perm::URW & 7 != 0,
{
    assert(!bit_u64(0u64, 0) && !leaf_of(0u64) && 7u8 & 7 != 0 && 15u8 & 7 != 0 && 11u8 & 7 != 0) by (bit_vector);
}

/// One more page mapped by `mappg`, after pages `base..` were mapped at `vas` with `perms`,
/// keeps what is known of the earlier ones: each of their walks still ends where it did, and
/// an entry that mapped a page still maps it unless a later address reused its slot.
pub proof fn lemma_map_step(opt: Pagetable, n: Pagetable, vas: Seq<u64>, perms: Seq<u8>, locs: Seq<PteLoc>,
    lvls: Seq<PtLevel>, base: int, loc: PteLoc, lvl: PtLevel)
    requires
        opt.closed(),
        opt.tree(),
        locs.len() == lvls.len(),
        vas.len() > locs.len(),
        perms.len() == vas.len(),
        0 <= base,
        opt.pages().len() == base + locs.len(),
        n.pages().len() == base + locs.len() + 1,
        forall|j: int| 0 <= j < opt.pages().len() ==> #[trigger] n.pages()[j] == opt.pages()[j],
        n.subtables().len() >= opt.subtables().len(),
        n.has_loc(loc),
        n.walk_spec(vas[locs.len() as int], PtLevel::Normal) == Some((loc, lvl)),
        maps_to(n.entry(loc), n.pages()[base + locs.len()].pa, perms[locs.len() as int]),
        forall|j: int| 0 <= j < locs.len() ==> opt.has_loc(#[trigger] locs[j]),
        forall|j: int| 0 <= j < locs.len() ==> #[trigger] opt.walk_spec(vas[j], PtLevel::Normal)
            == Some((locs[j], lvls[j])),
        forall|j: int| 0 <= j < locs.len() && lvls[j] == PtLevel::Normal && (forall|j2: int| j < j2 < locs.len()
            ==> !same_slot(#[trigger] vas[j2], vas[j]))
            ==> maps_to(#[trigger] opt.entry(locs[j]), opt.pages()[base + j].pa, perms[j]),
        forall|l: PteLoc| #![trigger opt.entry(l)] opt.has_loc(l) && (bit_u64(opt.entry(l), 0)
            || leaf_of(opt.entry(l))) && l != loc ==> n.entry(l) == opt.entry(l),
        forall|va1: u64| #[trigger] opt.walk_spec(va1, PtLevel::Normal) is Some
            ==> n.walk_spec(va1, PtLevel::Normal) == opt.walk_spec(va1, PtLevel::Normal),
        forall|va1: u64| #[trigger] opt.walk_spec(va1, PtLevel::Normal) == Some((loc, PtLevel::Normal))
            ==> same_slot(va1, vas[locs.len() as int]),
    ensures
        forall|j: int| 0 <= j < locs.len() + 1 ==> n.has_loc(#[trigger] locs.push(loc)[j]),
        forall|j: int| 0 <= j < locs.len() + 1 ==> #[trigger] n.walk_spec(vas[j], PtLevel::Normal)
            == Some((locs.push(loc)[j], lvls.push(lvl)[j])),
        forall|j: int| 0 <= j < locs.len() + 1 && lvls.push(lvl)[j] == PtLevel::Normal && (forall|j2: int| j < j2 < locs.len() + 1
            ==> !same_slot(#[trigger] vas[j2], vas[j]))
            ==> maps_to(#[trigger] n.entry(locs.push(loc)[j]), n.pages()[base + j].pa, perms[j]),
{
    let cnt = locs.len() as int;
    assert forall|j: int| 0 <= j < cnt + 1 implies n.has_loc(#[trigger] locs.push(loc)[j]) by {
        if j < cnt {
            assert(opt.has_loc(locs[j]));
        }
    }
    assert forall|j: int| 0 <= j < cnt + 1 implies #[trigger] n.walk_spec(vas[j], PtLevel::Normal)
        == Some((locs.push(loc)[j], lvls.push(lvl)[j])) by {
        if j < cnt {
            assert(opt.walk_spec(vas[j], PtLevel::Normal) == Some((locs[j], lvls[j])));
        }
    }
    assert forall|j: int| 0 <= j < cnt + 1 && lvls.push(lvl)[j] == PtLevel::Normal && (forall|j2: int| j < j2 < cnt + 1
        ==> !same_slot(#[trigger] vas[j2], vas[j]))
        implies maps_to(#[trigger] n.entry(locs.push(loc)[j]), n.pages()[base + j].pa, perms[j]) by {
        if j < cnt {
            assert(!same_slot(vas[cnt], vas[j]));
            assert(forall|j2: int| j < j2 < cnt ==> !same_slot(#[trigger] vas[j2], vas[j]));
            let e = opt.entry(locs[j]);
            assert(maps_to(e, opt.pages()[base + j].pa, perms[j]));
            lemma_mapped_valid(e, opt.pages()[base + j].pa, perms[j]);
            assert(opt.walk_spec(vas[j], PtLevel::Normal) == Some((locs[j], lvls[j])));
            if locs[j] == loc {
                assert(same_slot(vas[j], vas[cnt]));
                assert(false);
            }
            assert(opt.has_loc(locs[j]));
            assert(n.entry(locs[j]) == opt.entry(locs[j]));
            assert(n.pages()[base + j] == opt.pages()[base + j]);
        }
    }
}

/// A walk ends at an entry of the page table.
pub proof fn lemma_walk_has_loc(pt: Pagetable, table: Option<usize>, level: PtLevel, va: u64, endlevel: PtLevel)
    requires
        table matches Some(k) ==> k < pt.subtables().len(),
    ensures
        pt.walk_from(table, level, va, endlevel) matches Some((l, _)) ==> pt.has_loc(l),
    decreases level_index(level),
{
    lemma_vpn_bound(level_index(level), va);
    lemma_vpn_bound(level_index(endlevel), va);
    let loc = PteLoc { table, index: vpn_of(level_index(level), va) };
    if level == endlevel || level == PtLevel::Normal {
    } else if leaf_of(pt.entry(loc)) {
    } else if !bit_u64(pt.entry(loc), 0) {
    } else {
        match pt.table_of(pa_of(pt.entry(loc))) {
            None => {},
            Some(k) => {
                lemma_walk_has_loc(pt, Some(k), level_next(level), va, endlevel);
            },
        }
    }
}

/// An entry that maps a frame is valid.
pub proof fn lemma_mapped_valid(e: u64, pa: u64, perm: u8)
    requires
        maps_to(e, pa, perm),
    ensures
        bit_u64(e, 0),
{
    assert(e & 0xc1 == 0xc1 ==> (e >> 0usize) & 1 != 0) by (bit_vector);
}

/// Table indices derived from a virtual address are below 512.
proof fn lemma_vpn_bound(level: usize, va: u64)
    requires
        level <= 2,
    ensures
        vpn_of(level, va) < 512,
{
    let sh = (12 + 9 * level) as u64;
    assert((va >> sh) & 0x1ff < 512) by (bit_vector);
}

/// Index into the page table at `level` (0, 1 or 2) for the virtual address `va`.
pub open spec fn vpn_of(level: usize, va: u64) -> usize {
    ((va >> ((12 + 9 * level) as u64)) & 0x1ff) as usize
}

fn vpn(level: usize, va: u64) -> (r: usize)
    requires
        level <= 2,
    ensures
        r == vpn_of(level, va),
        r < 512,
{
    let sh = (12 + 9 * level) as u64;
    let m = u64::mask(9);
    assert(mask_u64(9) == 0x1ff) by (bit_vector);
    let v = (va >> sh) & m;
    assert(v < 512) by (bit_vector)
        requires
            v == (va >> sh) & 0x1ff,
    ;
    v as usize
}

/// A lower-level page table owned by a `Pagetable`, together with the physical frame that holds
/// it.
#[derive(Copy, Clone)]
pub struct Subtable {
    pub pa: u64,
    pub ptes: [Pte; 512],
}

/// A table of a page table as it lies in memory: the frame it occupies and its 512 words.
pub struct TableImage {
    pub pa: u64,
    pub words: Vec<u64>,
}

/// Position of a page-table entry: in the root table (`table` is `None`) or in the owned lower
/// table `table`, at index `index`.
#[derive(Copy, Clone, PartialEq, Eq, Structural)]
pub struct PteLoc {
    pub table: Option<usize>,
    pub index: usize,
}

/// Whether a physical address can be stored in an entry and read back unchanged.
pub open spec fn frame_ok(pa: u64) -> bool {
    pa & PA_MASK == pa
}

/// An Sv39 page table: the root table, and the lower tables it owns.
///
/// Lower tables are found by the physical address stored in a valid non-leaf entry: the entry
/// points to the owned table with that address.
pub struct Pagetable {
    pub ptes: [Pte; 512],
    tables: Vec<Subtable>,
    pages: Vec<Page>,
}

impl Pagetable {
    /// The owned lower tables.
    pub closed spec fn subtables(&self) -> Seq<Subtable> {
        self.tables@
    }

    /// The data pages this page table owns (mapped with `mappg`).
    pub closed spec fn pages(&self) -> Seq<Page> {
        self.pages@
    }

    /// Whether `pa` is the frame of one of the owned data pages.
    pub open spec fn owns_page(&self, pa: u64) -> bool {
        exists|k: int| 0 <= k < self.pages().len() && #[trigger] self.pages()[k].pa == pa
    }

    /// The entries of the root table.
    pub closed spec fn root(&self) -> Seq<Pte> {
        self.ptes@
    }

    /// Well-formedness: every owned lower table and every data page has its own frame, no frame
    /// serves both, and frames can be stored in entries.
    pub open spec fn wf(&self) -> bool {
        &&& forall|i: int, j: int|
            0 <= i < j < self.subtables().len() ==> #[trigger] self.subtables()[i].pa
                != #[trigger] self.subtables()[j].pa
        &&& forall|i: int| 0 <= i < self.subtables().len() ==> frame_ok(#[trigger] self.subtables()[i].pa)
        &&& forall|i: int, j: int|
            0 <= i < j < self.pages().len() ==> #[trigger] self.pages()[i].pa != #[trigger] self.pages()[j].pa
        &&& forall|i: int| 0 <= i < self.pages().len() ==> (#[trigger] self.pages()[i]).data@.len() == 4096
        &&& forall|i: int, j: int| 0 <= i < self.subtables().len() && 0 <= j < self.pages().len()
            ==> #[trigger] self.subtables()[i].pa != #[trigger] self.pages()[j].pa
    }

    /// The bytes of the owned data page whose frame is `pa`.
    pub open spec fn page_data(&self, pa: u64) -> Seq<u8> {
        self.pages()[choose|k: int| 0 <= k < self.pages().len() && #[trigger] self.pages()[k].pa == pa].data@
    }

    /// Every valid non-leaf entry points to an owned lower table.
    pub open spec fn closed(&self) -> bool {
        forall|l: PteLoc| self.has_loc(l) && !leaf_of(#[trigger] self.entry(l)) && bit_u64(self.entry(l), 0)
            ==> self.owns_frame(pa_of(self.entry(l)))
    }

    /// No lower table is pointed to by two entries.
    pub open spec fn tree(&self) -> bool {
        forall|l1: PteLoc, l2: PteLoc|
            #![trigger self.entry(l1), self.entry(l2)]
            self.has_loc(l1) && self.has_loc(l2) && l1 != l2 && is_link(self.entry(l1)) && is_link(self.entry(l2))
                ==> pa_of(self.entry(l1)) != pa_of(self.entry(l2))
    }

    /// Whether `pa` is the frame of one of the owned lower tables.
    pub open spec fn owns_frame(&self, pa: u64) -> bool {
        exists|k: int| 0 <= k < self.subtables().len() && #[trigger] self.subtables()[k].pa == pa
    }

    /// The owned lower table whose frame is `pa`.
    pub open spec fn table_of(&self, pa: u64) -> Option<usize> {
        if self.owns_frame(pa) {
            Some((choose|k: int| 0 <= k < self.subtables().len() && #[trigger] self.subtables()[k].pa == pa) as usize)
        } else {
            None
        }
    }

    /// Whether `loc` names an entry of this page table.
    pub open spec fn has_loc(&self, loc: PteLoc) -> bool {
        &&& loc.index < 512
        &&& match loc.table {
            None => true,
            Some(k) => k < self.subtables().len(),
        }
    }

    /// The raw entry at `loc`.
    pub open spec fn entry(&self, loc: PteLoc) -> u64 {
        match loc.table {
            None => self.root()[loc.index as int]@,
            Some(k) => self.subtables()[k as int].ptes[loc.index as int]@,
        }
    }

    /// The walk for `va` from the table `table` at `level` down to `endlevel`, without
    /// allocating: the entry it ends at and that entry's level, or `None` when it reaches an
    /// invalid entry or an entry that points to no owned table.
    pub open spec fn walk_from(&self, table: Option<usize>, level: PtLevel, va: u64, endlevel: PtLevel) -> Option<(PteLoc, PtLevel)>
        decreases level_index(level),
    {
        let loc = PteLoc { table, index: vpn_of(level_index(level), va) };
        if level == endlevel || level == PtLevel::Normal {
            Some((PteLoc { table, index: vpn_of(level_index(endlevel), va) }, endlevel))
        } else if leaf_of(self.entry(loc)) {
            Some((loc, level))
        } else if !bit_u64(self.entry(loc), 0) {
            None
        } else {
            match self.table_of(pa_of(self.entry(loc))) {
                None => None,
                Some(k) => self.walk_from(Some(k), level_next(level), va, endlevel),
            }
        }
    }

    /// The walk for `va` from the root down to `endlevel` (see `walk_from`).
    pub open spec fn walk_spec(&self, va: u64, endlevel: PtLevel) -> Option<(PteLoc, PtLevel)> {
        self.walk_from(None, PtLevel::Giga, va, endlevel)
    }


    /// How many lower tables a walk for `va` from `table` at `level` down to `endlevel` has to
    /// allocate, or `None` when it reaches an entry that points to no owned table.
    pub open spec fn need_from(&self, table: Option<usize>, level: PtLevel, va: u64, endlevel: PtLevel) -> Option<nat>
        decreases level_index(level),
    {
        let loc = PteLoc { table, index: vpn_of(level_index(level), va) };
        if level == endlevel || level == PtLevel::Normal {
            Some(0)
        } else if leaf_of(self.entry(loc)) {
            Some(0)
        } else if !bit_u64(self.entry(loc), 0) {
            Some((level_index(level) - level_index(endlevel)) as nat)
        } else {
            match self.table_of(pa_of(self.entry(loc))) {
                None => None,
                Some(k) => self.need_from(Some(k), level_next(level), va, endlevel),
            }
        }
    }

    /// How many lower tables a walk for `va` from the root down to `endlevel` has to allocate
    /// (see `need_from`).
    pub open spec fn need(&self, va: u64, endlevel: PtLevel) -> Option<nat> {
        self.need_from(None, PtLevel::Giga, va, endlevel)
    }

    /// Frames that can become lower tables of this page table: storable in an entry, not owned
    /// yet, and all different.
    pub open spec fn fresh_frames(&self, frames: Seq<u64>) -> bool {
        &&& forall|i: int| 0 <= i < frames.len() ==> frame_ok(#[trigger] frames[i])
        &&& forall|i: int| 0 <= i < frames.len() ==> !self.owns_frame(#[trigger] frames[i])
        &&& forall|i: int| 0 <= i < frames.len() ==> !self.owns_page(#[trigger] frames[i])
        &&& frames.no_duplicates()
    }

    /// Entries that a walk for `va` may change: the root entry at the top-level index of `va`,
    /// and entries of lower tables at the middle-level index of `va`.
    pub open spec fn walk_may_change(loc: PteLoc, va: u64) -> bool {
        ||| loc.table is None && loc.index == vpn_of(2, va)
        ||| loc.table is Some && loc.index == vpn_of(1, va)
    }

    /// `other` keeps every owned table of `self` with its frame, and every entry that
    /// `walk_may_change` does not name for `va`.
    pub open spec fn walk_frame(&self, other: &Pagetable, va: u64) -> bool {
        &&& other.subtables().len() >= self.subtables().len()
        &&& forall|k: int| 0 <= k < self.subtables().len() ==> #[trigger] other.subtables()[k].pa == self.subtables()[k].pa
        &&& forall|l: PteLoc| self.has_loc(l) && !Self::walk_may_change(l, va) ==> #[trigger] other.entry(l) == self.entry(l)
    }

    /// An empty page table.
    pub fn new() -> (r: Pagetable)
        ensures
            r.wf(),
            r.subtables().len() == 0,
            r.pages().len() == 0,
            r.closed(),
            r.tree(),
            user_leaves_4k(r),
            forall|i: int| 0 <= i < 512 ==> #[trigger] r.root()[i]@ == 0,
            r.root().len() == 512,
    {
        let z = Pte::zero();
        let ptes = [z; 512];
        let r = Pagetable { ptes, tables: Vec::new(), pages: Vec::new() };
        proof {
            lemma_zero_entry();
            assert forall|i: int| 0 <= i < 256 implies !leaf_of(#[trigger] r.entry(PteLoc { table: None, index: i as usize })) by {
                assert(r.entry(PteLoc { table: None, index: i as usize }) == r.root()[i]@);
            }
        }
        r
    }


    /// Walks the page table for `va` down to `endlevel`, and returns the entry where the walk
    /// ends with its level: the entry at `endlevel`, or a leaf found above it.
    ///
    /// Without `ALLOC` nothing changes, and `None` comes when the walk reaches an invalid entry.
    /// With `ALLOC`, an invalid entry above `endlevel` gets a new, zeroed lower table, taken from
    /// the end of `frames`; `None` comes when `frames` runs out (tables installed so far stay).
    /// Either way `None` also comes when a valid entry points to a frame this page table does
    /// not own: the library knows a lower table only through the tables it owns, and every
    /// page table it builds is `closed` (each such link points to an owned table), so its own
    /// tables never meet this case.
    pub fn walk<const ALLOC: bool>(&mut self, va: u64, endlevel: PtLevel, frames: &mut Vec<u64>) -> (r: Option<(PteLoc, PtLevel)>)
        requires
            old(self).wf(),
            ALLOC ==> old(self).fresh_frames(old(frames)@),
        ensures
            final(self).wf(),
            final(self).pages() == old(self).pages(),
            !ALLOC ==> *final(self) == *old(self),
            !ALLOC ==> final(frames)@ == old(frames)@,
            !ALLOC ==> r == old(self).walk_spec(va, endlevel),
            ALLOC ==> (r is Some <==> (old(self).need(va, endlevel) is Some
                && old(self).need(va, endlevel).unwrap() <= old(frames)@.len())),
            ALLOC && r is Some ==> final(self).walk_spec(va, endlevel) == r,
            ALLOC && r is Some ==> final(frames)@ == old(frames)@.subrange(0,
                old(frames)@.len() - old(self).need(va, endlevel).unwrap()),
            ALLOC ==> final(frames)@.len() <= old(frames)@.len(),
            ALLOC ==> final(frames)@ == old(frames)@.subrange(0, final(frames)@.len() as int),
            ALLOC ==> final(self).fresh_frames(final(frames)@),
            old(self).closed() ==> final(self).closed(),
            old(self).walk_frame(&*final(self), va),
            r matches Some((loc, _)) ==> final(self).has_loc(loc),
            forall|l: PteLoc| old(self).has_loc(l) && (bit_u64(old(self).entry(l), 0) || leaf_of(old(self).entry(l)))
                ==> #[trigger] final(self).entry(l) == old(self).entry(l),
            old(self).closed() && old(self).tree() ==> final(self).tree(),
            forall|l: PteLoc| final(self).has_loc(l) && leaf_of(#[trigger] final(self).entry(l))
                ==> old(self).has_loc(l) && final(self).entry(l) == old(self).entry(l),
            forall|l: PteLoc| old(self).has_loc(l) && #[trigger] final(self).entry(l) != old(self).entry(l)
                ==> is_link(final(self).entry(l)) && !old(self).owns_frame(pa_of(final(self).entry(l))),
            r matches Some((_, lv)) && lv != endlevel ==> old(self).walk_spec(va, endlevel) == r,
            forall|i: int| 0 <= i < final(self).subtables().len() ==> old(self).owns_frame(#[trigger] final(self).subtables()[i].pa)
                || old(frames)@.contains(final(self).subtables()[i].pa),
            forall|l: PteLoc| old(self).has_loc(l) && #[trigger] final(self).entry(l) != old(self).entry(l)
                ==> root_path(*final(self), l, va),
            forall|l: PteLoc| final(self).has_loc(l) && !old(self).has_loc(l) && #[trigger] final(self).entry(l) != 0
                ==> root_path(*final(self), l, va) && is_link(final(self).entry(l)) && !old(self).owns_frame(pa_of(final(self).entry(l))),
    {
        let ghost n0 = old(frames)@.len();
        let ghost need0 = old(self).need(va, endlevel);
        let mut table: Option<usize> = None;
        let mut level = PtLevel::Giga;
        while level != endlevel
            invariant
                self.wf(),
                self.pages() == old(self).pages(),
                need0 == old(self).need(va, endlevel),
                n0 == old(frames)@.len(),
                level_index(level) >= level_index(endlevel),
                (table is None) <==> (level == PtLevel::Giga),
                table matches Some(k) ==> k < self.subtables().len(),
                !ALLOC ==> *self == *old(self),
                !ALLOC ==> frames@ == old(frames)@,
                ALLOC ==> self.fresh_frames(frames@),
                old(self).closed() ==> self.closed(),
                frames@.len() <= n0,
                frames@ == old(frames)@.subrange(0, frames@.len() as int),
                self.walk_spec(va, endlevel) == self.walk_from(table, level, va, endlevel),
                need0 is None ==> self.need_from(table, level, va, endlevel) is None,
                need0 matches Some(n) ==> self.need_from(table, level, va, endlevel) == Some((n - (n0 - frames@.len())) as nat)
                    && n >= n0 - frames@.len(),
                level == PtLevel::Mega ==> ({
                    let e = self.entry(PteLoc { table: None, index: vpn_of(2, va) });
                    &&& !leaf_of(e)
                    &&& bit_u64(e, 0)
                    &&& self.table_of(pa_of(e)) == table
                }),
                old(self).walk_frame(&*self, va),
                forall|l: PteLoc| old(self).has_loc(l) && (bit_u64(old(self).entry(l), 0) || leaf_of(old(self).entry(l)))
                    ==> #[trigger] self.entry(l) == old(self).entry(l),
                old(self).closed() && old(self).tree() ==> self.tree(),
                forall|l: PteLoc| self.has_loc(l) && leaf_of(#[trigger] self.entry(l))
                    ==> old(self).has_loc(l) && self.entry(l) == old(self).entry(l),
                forall|l: PteLoc| old(self).has_loc(l) && #[trigger] self.entry(l) != old(self).entry(l)
                    ==> is_link(self.entry(l)) && !old(self).owns_frame(pa_of(self.entry(l))),
                self.walk_from(table, level, va, endlevel) matches Some((_, lv)) && lv != endlevel
                    ==> old(self).walk_spec(va, endlevel) == self.walk_from(table, level, va, endlevel),
                forall|i: int| 0 <= i < self.subtables().len() ==> old(self).owns_frame(#[trigger] self.subtables()[i].pa)
                    || old(frames)@.contains(self.subtables()[i].pa),
                level == PtLevel::Giga ==> *self == *old(self),
                forall|l: PteLoc| old(self).has_loc(l) && #[trigger] self.entry(l) != old(self).entry(l)
                    ==> root_path(*self, l, va),
                forall|l: PteLoc| self.has_loc(l) && !old(self).has_loc(l) && #[trigger] self.entry(l) != 0
                    ==> root_path(*self, l, va) && is_link(self.entry(l)) && !old(self).owns_frame(pa_of(self.entry(l))),
            decreases level_index(level),
        {
            let idx = vpn(level.index(), va);
            let loc = PteLoc { table, index: idx };
            let pte = self.get_entry(loc);
            if pte.leaf() {
                assert(self.need_from(table, level, va, endlevel) == Some(0nat));
                return Some((loc, level));
            } else if pte.is_valid() {
                match self.find(pte.pa()) {
                    None => {
                        assert(self.need_from(table, level, va, endlevel) is None);
                        return None;
                    },
                    Some(k) => {
                        table = Some(k);
                    },
                }
            } else {
                if !ALLOC {
                    return None;
                }
                assert(self.need_from(table, level, va, endlevel)
                    == Some((level_index(level) - level_index(endlevel)) as nat));
                match frames.pop() {
                    None => {
                        return None;
                    },
                    Some(f) => {
                        let ghost before = *self;
                        let z = Pte::zero();
                        self.tables.push(Subtable { pa: f, ptes: [z; 512] });
                        let k = self.tables.len() - 1;
                        let mut e = pte;
                        e.set_pa(f);
                        proof {
                            lemma_link_entry(pte@, e@, f);
                        }
                        e.set_valid(1);
                        let ghost pushed = *self;
                        self.set_entry(loc, e);
                        proof {
                            assert(!before.owns_frame(f));
                            assert(!old(self).owns_frame(f)) by {
                                if old(self).owns_frame(f) {
                                    let c = choose|c: int| 0 <= c < old(self).subtables().len() && #[trigger] old(self).subtables()[c].pa == f;
                                    assert(before.subtables()[c].pa == f);
                                }
                            }
                            assert forall|l: PteLoc| self.has_loc(l) && leaf_of(#[trigger] self.entry(l))
                                implies old(self).has_loc(l) && self.entry(l) == old(self).entry(l) by {
                                lemma_zero_entry();
                                if l == loc {
                                } else if l.table == Some(k) {
                                    assert(pushed.entry(l) == 0);
                                } else {
                                    assert(before.has_loc(l));
                                    assert(pushed.entry(l) == before.entry(l));
                                }
                            }
                            assert forall|l: PteLoc| old(self).has_loc(l) && #[trigger] self.entry(l) != old(self).entry(l)
                                implies is_link(self.entry(l)) && !old(self).owns_frame(pa_of(self.entry(l))) by {
                                if l != loc {
                                    assert(before.has_loc(l));
                                    assert(pushed.entry(l) == before.entry(l));
                                }
                            }
                            assert(self.subtables()[k as int].pa == f);
                            assert(self.owns_frame(f));
                            assert forall|j: int| 0 <= j < self.subtables().len() && #[trigger] self.subtables()[j].pa == f implies j == k by {
                                if j != k {
                                    assert(before.subtables()[j].pa == f);
                                    assert(before.owns_frame(f));
                                }
                            }
                            assert(self.table_of(f) == Some(k));
                            if before.closed() {
                                assert forall|l: PteLoc| self.has_loc(l) && !leaf_of(#[trigger] self.entry(l)) && bit_u64(self.entry(l), 0)
                                    implies self.owns_frame(pa_of(self.entry(l))) by {
                                    if l == loc {
                                    } else if l.table == Some(k) {
                                        assert(pushed.entry(l) == 0);
                                        lemma_zero_entry();
                                    } else {
                                        assert(before.has_loc(l));
                                        assert(pushed.entry(l) == before.entry(l));
                                        let p = pa_of(before.entry(l));
                                        let c = choose|c: int| 0 <= c < before.subtables().len() && #[trigger] before.subtables()[c].pa == p;
                                        assert(self.subtables()[c].pa == p);
                                    }
                                }
                            }
                            assert forall|l: PteLoc| before.has_loc(l) && l != loc implies #[trigger] self.entry(l) == before.entry(l) by {
                                assert(pushed.entry(l) == before.entry(l));
                            }
                            assert forall|l: PteLoc| old(self).has_loc(l) && (bit_u64(old(self).entry(l), 0) || leaf_of(old(self).entry(l)))
                                implies #[trigger] self.entry(l) == old(self).entry(l) by {
                                assert(before.entry(l) == old(self).entry(l));
                                assert(before.has_loc(l));
                                if l == loc {
                                    assert(!bit_u64(pte@, 0) && !leaf_of(pte@));
                                }
                            }
                            if old(self).closed() && old(self).tree() {
                                assert(before.tree() && before.closed());
                                assert forall|l1: PteLoc, l2: PteLoc|
                                    #![trigger self.entry(l1), self.entry(l2)]
                                    self.has_loc(l1) && self.has_loc(l2) && l1 != l2 && is_link(self.entry(l1))
                                        && is_link(self.entry(l2)) implies pa_of(self.entry(l1)) != pa_of(self.entry(l2)) by {
                                    lemma_zero_entry();
                                    if l1.table == Some(k) {
                                        assert(pushed.entry(l1) == 0);
                                    } else if l2.table == Some(k) {
                                        assert(pushed.entry(l2) == 0);
                                    } else if l1 == loc {
                                        assert(before.has_loc(l2));
                                        assert(self.entry(l2) == before.entry(l2));
                                        assert(before.owns_frame(pa_of(before.entry(l2))));
                                        assert(!before.owns_frame(f));
                                    } else if l2 == loc {
                                        assert(before.has_loc(l1));
                                        assert(self.entry(l1) == before.entry(l1));
                                        assert(before.owns_frame(pa_of(before.entry(l1))));
                                        assert(!before.owns_frame(f));
                                    } else {
                                        assert(before.has_loc(l1) && before.has_loc(l2));
                                        assert(self.entry(l1) == before.entry(l1));
                                        assert(self.entry(l2) == before.entry(l2));
                                    }
                                }
                            }
                            if level == PtLevel::Mega {
                                let e2 = before.entry(PteLoc { table: None, index: vpn_of(2, va) });
                                let k1 = table.unwrap();
                                lemma_vpn_bound(2, va);
                                assert(pushed.entry(PteLoc { table: None, index: vpn_of(2, va) }) == e2);
                                assert(self.entry(PteLoc { table: None, index: vpn_of(2, va) }) == e2);
                                assert(before.owns_frame(pa_of(e2)));
                                assert(before.subtables()[k1 as int].pa == pa_of(e2));
                                assert(self.subtables()[k1 as int].pa == pa_of(e2));
                                assert(pa_of(e2) != f);
                                assert forall|j: int| 0 <= j < self.subtables().len() && #[trigger] self.subtables()[j].pa == pa_of(e2) implies j == k1 by {
                                    if j != k1 as int {
                                        assert(before.subtables()[j].pa == pa_of(e2));
                                    }
                                }
                                assert(self.table_of(pa_of(e2)) == table);
                            }
                            assert(root_path(*self, loc, va)) by {
                                if level == PtLevel::Mega {
                                    let e2 = before.entry(PteLoc { table: None, index: vpn_of(2, va) });
                                    lemma_table_of_pa(before, pa_of(e2));
                                }
                            }
                            assert forall|l: PteLoc| old(self).has_loc(l) && #[trigger] self.entry(l) != old(self).entry(l)
                                implies root_path(*self, l, va) by {
                                if l != loc {
                                    assert(before.has_loc(l));
                                    assert(pushed.entry(l) == before.entry(l));
                                    assert(self.entry(l) == before.entry(l));
                                    lemma_vpn_bound(2, va);
                                    let r = PteLoc { table: None, index: vpn_of(2, va) };
                                    assert(before.has_loc(r));
                                    assert(pushed.entry(r) == before.entry(r));
                                    if l.table is Some {
                                        assert(self.subtables()[l.table.unwrap() as int].pa == before.subtables()[l.table.unwrap() as int].pa);
                                    }
                                }
                            }
                            assert forall|l: PteLoc| self.has_loc(l) && !old(self).has_loc(l) && #[trigger] self.entry(l) != 0
                                implies root_path(*self, l, va) && is_link(self.entry(l)) && !old(self).owns_frame(pa_of(self.entry(l))) by {
                                if l != loc {
                                    if l.table == Some(k) {
                                        assert(pushed.entry(l) == 0);
                                    } else {
                                        assert(before.has_loc(l));
                                        assert(pushed.entry(l) == before.entry(l));
                                        assert(self.entry(l) == before.entry(l));
                                        lemma_vpn_bound(2, va);
                                        let r = PteLoc { table: None, index: vpn_of(2, va) };
                                        assert(before.has_loc(r));
                                        assert(pushed.entry(r) == before.entry(r));
                                        if l.table is Some {
                                            assert(self.subtables()[l.table.unwrap() as int].pa == before.subtables()[l.table.unwrap() as int].pa);
                                        }
                                    }
                                }
                            }
                            assert(self.walk_from(table, level, va, endlevel) == self.walk_from(Some(k), level_next(level), va, endlevel));
                            let nl = level_next(level);
                            let zl = PteLoc { table: Some(k), index: vpn_of(level_index(nl), va) };
                            lemma_vpn_bound(level_index(nl), va);
                            assert(pushed.has_loc(zl) && zl != loc);
                            assert(pushed.entry(zl) == 0);
                            assert(self.entry(zl) == 0);
                            lemma_zero_entry();
                            if nl != endlevel {
                                assert(self.need_from(Some(k), nl, va, endlevel)
                                    == Some((level_index(nl) - level_index(endlevel)) as nat));
                            }
                        }
                        table = Some(k);
                    },
                }
            }
            level = level.next();
        }
        let idx = vpn(endlevel.index(), va);
        Some((PteLoc { table, index: idx }, endlevel))
    }


    /// Maps `va` to `pa` with permissions `perm` at `level`, allocating lower tables from the
    /// end of `frames` where needed. Returns false when the walk fails (see `walk`).
    ///
    /// The entry written is the one the walk ends at: the entry at `level`, or a leaf above it,
    /// which is then overwritten.
    pub fn map(&mut self, va: u64, pa: u64, level: PtLevel, perm: u8, frames: &mut Vec<u64>) -> (r: bool)
        requires
            old(self).wf(),
            old(self).fresh_frames(old(frames)@),
            perm != 0,
        ensures
            final(self).wf(),
            final(self).pages() == old(self).pages(),
            final(self).fresh_frames(final(frames)@),
            final(frames)@.len() <= old(frames)@.len(),
            final(frames)@ == old(frames)@.subrange(0, final(frames)@.len() as int),
            r <==> (old(self).need(va, level) is Some && old(self).need(va, level).unwrap() <= old(frames)@.len()),
            r ==> final(frames)@.len() == old(frames)@.len() - old(self).need(va, level).unwrap(),
            r ==> exists|loc: PteLoc| {
                &&& final(self).has_loc(loc)
                &&& maps_to(#[trigger] final(self).entry(loc), pa, perm)
                &&& forall|l: PteLoc| old(self).has_loc(l) && !Self::walk_may_change(l, va) && l != loc
                    ==> #[trigger] final(self).entry(l) == old(self).entry(l)
                &&& perm & 7 != 0 ==> (final(self).walk_spec(va, level) matches Some((l, _)) && l == loc)
                &&& perm & 7 != 0 && old(self).closed() && old(self).tree() ==> (final(self).walk_spec(va, level) matches Some((_, lv))
                    && (lv == level || old(self).walk_spec(va, level) == final(self).walk_spec(va, level)))
                &&& old(self).closed() && old(self).tree() ==> (final(self).walk_spec(va, level) == Some((loc, level))
                    || (old(self).walk_spec(va, level) matches Some((l, lv)) && l == loc && lv != level))
                &&& forall|l: PteLoc| #![trigger old(self).entry(l)] old(self).has_loc(l) && (bit_u64(old(self).entry(l), 0)
                    || leaf_of(old(self).entry(l))) && l != loc ==> final(self).entry(l) == old(self).entry(l)
                &&& level == PtLevel::Normal && old(self).closed() && old(self).tree() && perm & 7 != 0
                    ==> forall|va1: u64| #[trigger] old(self).walk_spec(va1, PtLevel::Normal) is Some
                        ==> final(self).walk_spec(va1, PtLevel::Normal) == old(self).walk_spec(va1, PtLevel::Normal)
                &&& level == PtLevel::Normal && old(self).closed() && old(self).tree()
                    ==> forall|va1: u64| #[trigger] old(self).walk_spec(va1, PtLevel::Normal) == Some((loc, PtLevel::Normal))
                        ==> same_slot(va1, va)
            },
            !r ==> old(self).walk_frame(&*final(self), va),
            !r ==> forall|l: PteLoc| old(self).has_loc(l) && (bit_u64(old(self).entry(l), 0) || leaf_of(old(self).entry(l)))
                ==> #[trigger] final(self).entry(l) == old(self).entry(l),
            level == PtLevel::Normal && perm & 7 != 0 && old(self).closed() && old(self).tree() && user_leaves_4k(*old(self))
                ==> user_leaves_4k(*final(self)),
            r && level == PtLevel::Normal && perm & 7 != 0 && old(self).closed() && old(self).tree()
                ==> forall|va1: u64| (#[trigger] final(self).walk_spec(va1, PtLevel::Normal) matches Some((_, lv)) && lv != PtLevel::Normal)
                    ==> old(self).walk_spec(va1, PtLevel::Normal) == final(self).walk_spec(va1, PtLevel::Normal),
            r && level == PtLevel::Normal && perm & 7 != 0 && old(self).closed() && old(self).tree()
                ==> forall|va1: u64| #[trigger] final(self).walk_spec(va1, PtLevel::Normal) matches Some((l1, lv1))
                    ==> (lv1 == PtLevel::Normal && bit_u64(final(self).entry(l1), 0) ==> same_slot(va1, va)
                        || (old(self).walk_spec(va1, PtLevel::Normal) == final(self).walk_spec(va1, PtLevel::Normal)
                        && old(self).entry(l1) == final(self).entry(l1))),
            old(self).closed() && perm & 7 != 0 ==> final(self).closed(),
            old(self).closed() && old(self).tree() && perm & 7 != 0 ==> final(self).tree(),
            old(self).closed() ==> (old(self).need(va, level) matches Some(n) && n <= 2),
            final(self).subtables().len() >= old(self).subtables().len(),
            forall|k: int| 0 <= k < old(self).subtables().len() ==> #[trigger] final(self).subtables()[k].pa == old(self).subtables()[k].pa,
            forall|i: int| 0 <= i < final(self).subtables().len() ==> old(self).owns_frame(#[trigger] final(self).subtables()[i].pa)
                || old(frames)@.contains(final(self).subtables()[i].pa),
    {
        proof {
            if old(self).closed() {
                lemma_closed_need(*old(self), None, PtLevel::Giga, va, level);
            }
        }
        let (loc, lvl) = match self.walk::<true>(va, level, frames) {
            None => {
                proof {
                    if user_leaves_4k(*old(self)) {
                        lemma_walk_keeps_4k(*old(self), *self);
                    }
                }
                return false;
            },
            Some(x) => x,
        };
        let ghost mid = *self;
        let mut pte = self.get_entry(loc);
        pte.set_pa(pa);
        let ghost e1 = pte@;
        pte.set_perm(perm);
        let ghost e2 = pte@;
        pte.validate();
        proof {
            lemma_mapped_entry(e1, e2, pte@, pa, perm);
        }
        self.set_entry(loc, pte);
        proof {
            if level == PtLevel::Normal && perm & 7 != 0 && old(self).closed() && old(self).tree() && user_leaves_4k(*old(self)) {
                lemma_map_keeps_4k(*old(self), mid, *self, va, loc, lvl);
            }
            if lvl == level && old(self).closed() && old(self).tree() {
                lemma_rewalk_leaf(mid, *self, va, level, loc, lvl);
            }
            if level == PtLevel::Normal && perm & 7 != 0 && old(self).closed() && old(self).tree() {
                lemma_map_big_kept(*old(self), mid, *self, va, loc, lvl);
            }
            if perm & 7 != 0 {
                lemma_rewalk_leaf(mid, *self, va, level, loc, lvl);
                if old(self).closed() {
                    assert forall|l: PteLoc| self.has_loc(l) && !leaf_of(#[trigger] self.entry(l)) && bit_u64(self.entry(l), 0)
                        implies self.owns_frame(pa_of(self.entry(l))) by {
                        if l != loc {
                            assert(mid.has_loc(l));
                            let p = pa_of(mid.entry(l));
                            let c = choose|c: int| 0 <= c < mid.subtables().len() && #[trigger] mid.subtables()[c].pa == p;
                            assert(self.subtables()[c].pa == p);
                        }
                    }
                }
            }
            assert forall|l: PteLoc| old(self).has_loc(l) && !Self::walk_may_change(l, va) && l != loc
                implies #[trigger] self.entry(l) == old(self).entry(l) by {
                assert(mid.has_loc(l));
            }
            assert forall|l: PteLoc| old(self).has_loc(l) && (bit_u64(old(self).entry(l), 0) || leaf_of(old(self).entry(l)))
                && l != loc implies #[trigger] self.entry(l) == old(self).entry(l) by {
                assert(mid.has_loc(l));
                assert(mid.entry(l) == old(self).entry(l));
            }
            if old(self).closed() && old(self).tree() {
                assert(mid.tree() && mid.closed());
                if level == PtLevel::Normal {
                    assert forall|va1: u64| #[trigger] old(self).walk_spec(va1, PtLevel::Normal) == Some((loc, PtLevel::Normal))
                        implies same_slot(va1, va) by {
                        lemma_walk_valid_kept(*old(self), mid, va1);
                        lemma_same_slot(mid, va, va1, loc, lvl);
                    }
                }
                if perm & 7 != 0 {
                    assert forall|l1: PteLoc, l2: PteLoc|
                        #![trigger self.entry(l1), self.entry(l2)]
                        self.has_loc(l1) && self.has_loc(l2) && l1 != l2 && is_link(self.entry(l1))
                            && is_link(self.entry(l2)) implies pa_of(self.entry(l1)) != pa_of(self.entry(l2)) by {
                        assert(mid.has_loc(l1) && mid.has_loc(l2));
                        if l1 != loc && l2 != loc {
                            assert(self.entry(l1) == mid.entry(l1));
                            assert(self.entry(l2) == mid.entry(l2));
                        }
                    }
                    if level == PtLevel::Normal {
                        assert forall|va1: u64| #[trigger] old(self).walk_spec(va1, PtLevel::Normal) is Some
                            implies self.walk_spec(va1, PtLevel::Normal) == old(self).walk_spec(va1, PtLevel::Normal) by {
                            lemma_walk_valid_kept(*old(self), mid, va1);
                            lemma_walk_except(mid, *self, va, loc, lvl, va1);
                        }
                        lemma_map_yields_kept(*old(self), mid, *self, va, loc);
                        assert forall|va1: u64| #[trigger] self.walk_spec(va1, PtLevel::Normal) is Some
                            && self.walk_spec(va1, PtLevel::Normal).unwrap().1 == PtLevel::Normal
                            && bit_u64(self.entry(self.walk_spec(va1, PtLevel::Normal).unwrap().0), 0)
                            implies same_slot(va1, va)
                                || (old(self).walk_spec(va1, PtLevel::Normal) == self.walk_spec(va1, PtLevel::Normal)
                                && old(self).entry(self.walk_spec(va1, PtLevel::Normal).unwrap().0)
                                    == self.entry(self.walk_spec(va1, PtLevel::Normal).unwrap().0)) by {
                            if self.walk_spec(va1, PtLevel::Normal).unwrap().0 == loc {
                                lemma_same_slot(*self, va, va1, loc, lvl);
                            }
                        }
                    }
                }
            }
        }
        true
    }


    /// Maps the 1 GiB region at `va` to `pa` with permissions `perm`, with a leaf in the root
    /// table.
    pub fn map_giga(&mut self, va: u64, pa: u64, perm: u8)
        requires
            old(self).wf(),
            perm != 0,
        ensures
            final(self).wf(),
            final(self).pages() == old(self).pages(),
            final(self).subtables() == old(self).subtables(),
            old(self).closed() && perm & 7 != 0 ==> final(self).closed(),
            old(self).tree() && perm & 7 != 0 ==> final(self).tree(),
            user_leaves_4k(*old(self)) && vpn_of(2, va) >= 256 && perm & 7 != 0 ==> user_leaves_4k(*final(self)),
            maps_to(final(self).entry(PteLoc { table: None, index: vpn_of(2, va) }), pa, perm),
            forall|l: PteLoc| old(self).has_loc(l) && l != (PteLoc { table: None, index: vpn_of(2, va) })
                ==> #[trigger] final(self).entry(l) == old(self).entry(l),
    {
        let vpn = vpn(2, va);
        let loc = PteLoc { table: None, index: vpn };
        let mut pte = self.ptes[vpn];
        pte.set_perm(perm);
        let ghost e1 = pte@;
        pte.set_pa(pa);
        let ghost e2 = pte@;
        pte.validate();
        proof {
            lemma_giga_entry(e1, e2, pte@, pa, perm);
        }
        self.ptes[vpn] = pte;
        assert(self.subtables() == old(self).subtables());
        assert(self.pages() == old(self).pages());
        assert forall|l: PteLoc| old(self).has_loc(l) && l != loc implies #[trigger] self.entry(l) == old(self).entry(l) by {
        }
        proof {
            if user_leaves_4k(*old(self)) && vpn_of(2, va) >= 256 && perm & 7 != 0 {
                assert forall|i: int| 0 <= i < 256 implies !leaf_of(#[trigger] self.entry(PteLoc { table: None, index: i as usize })) by {
                    assert(old(self).has_loc(PteLoc { table: None, index: i as usize }));
                }
                assert forall|l: PteLoc, i: int|
                    self.has_loc(l) && l.table is Some && 0 <= i < 512 && is_link(#[trigger] self.entry(PteLoc { table: None, index: i as usize }))
                        && pa_of(self.entry(PteLoc { table: None, index: i as usize })) == self.subtables()[l.table.unwrap() as int].pa
                    implies !leaf_of(#[trigger] self.entry(l)) by {
                    let ri = PteLoc { table: None, index: i as usize };
                    assert(old(self).has_loc(ri) && old(self).has_loc(l));
                    if ri == loc {
                        assert(self.entry(ri) == pte@);
                        lemma_perm_leaf(pte@, perm);
                    }
                }
            }
            if old(self).tree() && perm & 7 != 0 {
                assert(leaf_of(pte@)) by {
                    lemma_perm_leaf(pte@, perm);
                }
                assert forall|l1: PteLoc, l2: PteLoc|
                    self.has_loc(l1) && self.has_loc(l2) && l1 != l2 && is_link(#[trigger] self.entry(l1))
                        && is_link(#[trigger] self.entry(l2))
                    implies pa_of(self.entry(l1)) != pa_of(self.entry(l2)) by {
                    assert(l1 != loc && l2 != loc);
                    assert(old(self).has_loc(l1) && old(self).has_loc(l2));
                    assert(self.entry(l1) == old(self).entry(l1));
                    assert(self.entry(l2) == old(self).entry(l2));
                }
            }
            if old(self).closed() && perm & 7 != 0 {
                assert(leaf_of(pte@)) by {
                    lemma_perm_leaf(pte@, perm);
                }
                assert forall|l: PteLoc| self.has_loc(l) && !leaf_of(#[trigger] self.entry(l)) && bit_u64(self.entry(l), 0)
                    implies self.owns_frame(pa_of(self.entry(l))) by {
                    assert(old(self).has_loc(l));
                }
            }
        }
    }

    /// The `satp` value that selects Sv39 paging with this page table, whose root table is at
    /// physical address `root_pa`.
    pub fn satp(&self, root_pa: u64) -> (r: u64)
        ensures
            r == set_bits_u64(root_pa / 4096, 63, 60, SV39),
    {
        let pn = root_pa / crate::sys::PAGESIZE;
        pn.set_bits(63, 60, SV39)
    }


    /// Releases everything the page table owns: clears every valid root entry, gives up every
    /// owned lower table and every mapped data page, and returns their frames (the tables' in
    /// the order they were allocated, then the pages' in the order they were mapped) so that
    /// they can be freed. No frame is returned twice: a lower table's frame is never also a data
    /// page's (see `wf`).
    pub fn free(&mut self) -> (freed: Vec<u64>)
        requires
            old(self).wf(),
        ensures
            final(self).wf(),
            final(self).subtables().len() == 0,
            final(self).pages().len() == 0,
            freed@.len() == old(self).subtables().len() + old(self).pages().len(),
            forall|k: int| 0 <= k < old(self).subtables().len() ==> #[trigger] freed@[k] == old(self).subtables()[k].pa,
            forall|j: int| 0 <= j < old(self).pages().len()
                ==> #[trigger] freed@[old(self).subtables().len() + j] == old(self).pages()[j].pa,
            forall|i: int| 0 <= i < 512 ==> #[trigger] final(self).root()[i]@
                == (if bit_u64(old(self).root()[i]@, 0) { 0 } else { old(self).root()[i]@ }),
            freed@.no_duplicates(),
    {
        let mut i: usize = 0;
        while i < 512
            invariant
                i <= 512,
                self.subtables() == old(self).subtables(),
                self.pages() == old(self).pages(),
                forall|j: int| 0 <= j < i ==> #[trigger] self.root()[j]@
                    == (if bit_u64(old(self).root()[j]@, 0) { 0 } else { old(self).root()[j]@ }),
                forall|j: int| i <= j < 512 ==> #[trigger] self.root()[j] == old(self).root()[j],
            decreases 512 - i,
        {
            let ghost before = self.root();
            if self.ptes[i].is_valid() {
                self.ptes[i] = Pte::zero();
                assert(self.root() == before.update(i as int, Pte::zero_spec()));
            } else {
                assert(self.root() == before);
            }
            i = i + 1;
        }
        let ghost r1 = self.root();
        let mut freed: Vec<u64> = Vec::new();
        let mut k: usize = 0;
        while k < self.tables.len()
            invariant
                self.root() == r1,
                self.pages() == old(self).pages(),
                k <= self.subtables().len(),
                self.subtables() == old(self).subtables(),
                freed@.len() == k,
                forall|j: int| 0 <= j < k ==> #[trigger] freed@[j] == old(self).subtables()[j].pa,
            decreases self.subtables().len() - k,
        {
            freed.push(self.tables[k].pa);
            k = k + 1;
        }
        self.tables = Vec::new();
        let nt = freed.len();
        let mut j: usize = 0;
        while j < self.pages.len()
            invariant
                self.pages() == old(self).pages(),
                self.subtables().len() == 0,
                nt == old(self).subtables().len(),
                j <= self.pages().len(),
                freed@.len() == nt + j,
                forall|k: int| 0 <= k < nt ==> #[trigger] freed@[k] == old(self).subtables()[k].pa,
                forall|i: int| 0 <= i < j ==> #[trigger] freed@[nt + i] == old(self).pages()[i].pa,
            decreases self.pages().len() - j,
        {
            freed.push(self.pages[j].pa);
            j = j + 1;
        }
        self.pages = Vec::new();
        proof {
            let sub = old(self).subtables();
            let pgs = old(self).pages();
            assert forall|a: int, b: int| 0 <= a < freed@.len() && 0 <= b < freed@.len() && a != b
                implies freed@[a] != freed@[b] by {
                if a < nt && b < nt {
                    assert(freed@[a] == sub[a].pa && freed@[b] == sub[b].pa);
                } else if a >= nt && b >= nt {
                    assert(freed@[nt + (a - nt)] == pgs[a - nt].pa);
                    assert(freed@[nt + (b - nt)] == pgs[b - nt].pa);
                } else if a < nt {
                    assert(freed@[a] == sub[a].pa);
                    assert(freed@[nt + (b - nt)] == pgs[b - nt].pa);
                } else {
                    assert(freed@[b] == sub[b].pa);
                    assert(freed@[nt + (a - nt)] == pgs[a - nt].pa);
                }
            }
        }
        freed
    }

    /// The number of mapped data pages.
    pub fn npages(&self) -> (r: usize)
        ensures
            r == self.pages().len(),
    {
        self.pages.len()
    }

    /// The `k`-th mapped data page.
    pub fn page_at(&self, k: usize) -> (r: &Page)
        requires
            k < self.pages().len(),
        ensures
            *r == self.pages()[k as int],
    {
        &self.pages[k]
    }

    /// Replaces the bytes of the `k`-th mapped data page with `data`, as read back from its
    /// frame; its frame, the other pages and every table stay as they are.
    pub fn set_page_data(&mut self, k: usize, data: Vec<u8>)
        requires
            old(self).wf(),
            k < old(self).pages().len(),
            data@.len() == 4096,
        ensures
            final(self).wf(),
            final(self).pages().len() == old(self).pages().len(),
            final(self).pages()[k as int].pa == old(self).pages()[k as int].pa,
            final(self).pages()[k as int].data@ == data@,
            forall|j: int| 0 <= j < old(self).pages().len() && j != k ==> #[trigger] final(self).pages()[j] == old(self).pages()[j],
            final(self).root() == old(self).root(),
            final(self).subtables() == old(self).subtables(),
    {
        let pa = self.pages[k].pa;
        self.pages.set(k, Page { pa, data });
        proof {
            let o = old(self).pages();
            assert(self.subtables() == old(self).subtables());
            assert forall|i: int| 0 <= i < self.pages().len() implies #[trigger] self.pages()[i].pa == o[i].pa by {}
            assert forall|i: int, j: int| 0 <= i < j < self.pages().len() implies #[trigger] self.pages()[i].pa
                != #[trigger] self.pages()[j].pa by {
                assert(self.pages()[i].pa == o[i].pa && self.pages()[j].pa == o[j].pa);
            }
            assert forall|i: int| 0 <= i < self.pages().len() implies (#[trigger] self.pages()[i]).data@.len() == 4096 by {
                if i != k {
                    assert(self.pages()[i] == o[i]);
                }
            }
        }
    }

    /// The 512 words of the table `table` (the root for `None`) as they lie in its frame.
    pub open spec fn table_words(&self, table: Option<usize>) -> Seq<u64> {
        Seq::new(512, |i: int| self.entry(PteLoc { table, index: i as usize }))
    }

    /// The words of the table `table` (the root for `None`), entry by entry.
    fn words_of(&self, table: Option<usize>) -> (r: Vec<u64>)
        requires
            table matches Some(k) ==> k < self.subtables().len(),
        ensures
            r@ == self.table_words(table),
    {
        let mut out: Vec<u64> = Vec::new();
        let mut i: usize = 0;
        while i < 512
            invariant
                table matches Some(k) ==> k < self.subtables().len(),
                i <= 512,
                out@.len() == i,
                forall|j: int| 0 <= j < i ==> #[trigger] out@[j] == self.entry(PteLoc { table, index: j as usize }),
            decreases 512 - i,
        {
            let e = self.get_entry(PteLoc { table, index: i });
            out.push(e.raw());
            i = i + 1;
        }
        assert(out@ =~= self.table_words(table));
        out
    }

    /// What the tables look like in memory: the root's frame `root_pa` with the root's 512
    /// words, then the frame and words of each owned lower table, in order. Writing each
    /// image's words into its frame gives the hardware this page table.
    pub fn images(&self, root_pa: u64) -> (r: Vec<TableImage>)
        ensures
            r@.len() == self.subtables().len() + 1,
            r@[0].pa == root_pa,
            r@[0].words@ == self.table_words(None),
            forall|k: int| 0 <= k < self.subtables().len() ==> #[trigger] r@[k + 1].pa == self.subtables()[k].pa
                && r@[k + 1].words@ == self.table_words(Some(k as usize)),
    {
        let mut out: Vec<TableImage> = Vec::new();
        out.push(TableImage { pa: root_pa, words: self.words_of(None) });
        let mut k: usize = 0;
        while k < self.tables.len()
            invariant
                k <= self.subtables().len(),
                out@.len() == k + 1,
                out@[0].pa == root_pa,
                out@[0].words@ == self.table_words(None),
                forall|j: int| 0 <= j < k ==> #[trigger] out@[j + 1].pa == self.subtables()[j].pa
                    && out@[j + 1].words@ == self.table_words(Some(j as usize)),
            decreases self.subtables().len() - k,
        {
            let w = self.words_of(Some(k));
            out.push(TableImage { pa: self.tables[k].pa, words: w });
            k = k + 1;
        }
        out
    }


    /// The walk for `va` down to `endlevel`, without changing anything (see `walk_spec`).
    pub fn lookup(&self, va: u64, endlevel: PtLevel) -> (r: Option<(PteLoc, PtLevel)>)
        requires
            self.wf(),
        ensures
            r == self.walk_spec(va, endlevel),
            r matches Some((loc, _)) ==> self.has_loc(loc),
    {
        let mut table: Option<usize> = None;
        let mut level = PtLevel::Giga;
        while level != endlevel
            invariant
                self.wf(),
                level_index(level) >= level_index(endlevel),
                (table is None) <==> (level == PtLevel::Giga),
                table matches Some(k) ==> k < self.subtables().len(),
                self.walk_spec(va, endlevel) == self.walk_from(table, level, va, endlevel),
            decreases level_index(level),
        {
            let idx = vpn(level.index(), va);
            let loc = PteLoc { table, index: idx };
            let pte = self.get_entry(loc);
            if pte.leaf() {
                return Some((loc, level));
            } else if pte.is_valid() {
                match self.find(pte.pa()) {
                    None => {
                        return None;
                    },
                    Some(k) => {
                        table = Some(k);
                    },
                }
            } else {
                return None;
            }
            level = level.next();
        }
        let idx = vpn(endlevel.index(), va);
        Some((PteLoc { table, index: idx }, endlevel))
    }

    /// The entry at `loc`, as an entry value.
    pub closed spec fn entry_pte(&self, loc: PteLoc) -> Pte {
        match loc.table {
            None => self.ptes[loc.index as int],
            Some(k) => self.tables@[k as int].ptes[loc.index as int],
        }
    }

    /// The entry at `loc`.
    pub fn pte_at(&self, loc: PteLoc) -> (r: Pte)
        requires
            self.has_loc(loc),
        ensures
            r@ == self.entry(loc),
            r == self.entry_pte(loc),
    {
        self.get_entry(loc)
    }

    /// The owned data page whose frame is `pa`, if any.
    pub fn page(&self, pa: u64) -> (r: Option<&Page>)
        requires
            self.wf(),
        ensures
            r matches Some(p) ==> p.pa == pa && p.data@ == self.page_data(pa) && p.data@.len() == 4096,
            r is Some <==> self.owns_page(pa),
    {
        let mut k: usize = 0;
        while k < self.pages.len()
            invariant
                self.wf(),
                k <= self.pages().len(),
                forall|j: int| 0 <= j < k ==> #[trigger] self.pages()[j].pa != pa,
            decreases self.pages().len() - k,
        {
            if self.pages[k].pa == pa {
                assert(self.pages()[k as int].pa == pa);
                let ghost c = choose|c: int| 0 <= c < self.pages().len() && #[trigger] self.pages()[c].pa == pa;
                assert(c == k as int) by {
                    if c != k as int {
                        assert(self.pages()[c].pa == self.pages()[k as int].pa);
                    }
                }
                return Some(&self.pages[k]);
            }
            k = k + 1;
        }
        None
    }

    /// The owned lower table whose frame is `pa`, if any.
    fn find(&self, pa: u64) -> (r: Option<usize>)
        requires
            self.wf(),
        ensures
            r == self.table_of(pa),
    {
        let mut k: usize = 0;
        while k < self.tables.len()
            invariant
                self.wf(),
                k <= self.subtables().len(),
                forall|j: int| 0 <= j < k ==> #[trigger] self.subtables()[j].pa != pa,
            decreases self.subtables().len() - k,
        {
            if self.tables[k].pa == pa {
                assert(self.owns_frame(pa));
                let ghost c = choose|j: int| 0 <= j < self.subtables().len() && #[trigger] self.subtables()[j].pa == pa;
                assert(c == k as int) by {
                    if c != k as int {
                        assert(self.subtables()[c].pa == self.subtables()[k as int].pa);
                    }
                }
                return Some(k);
            }
            k = k + 1;
        }
        assert(!self.owns_frame(pa));
        None
    }

    /// An entry read as a `Pte` holds the raw value of the entry.
    pub proof fn lemma_entry_pte(&self, loc: PteLoc)
        requires
            self.has_loc(loc),
        ensures
            self.entry_pte(loc)@ == self.entry(loc),
    {
    }

    /// Reads the entry at `loc`.
    fn get_entry(&self, loc: PteLoc) -> (r: Pte)
        requires
            self.has_loc(loc),
        ensures
            r@ == self.entry(loc),
            r == self.entry_pte(loc),
    {
        match loc.table {
            None => self.ptes[loc.index],
            Some(k) => self.tables[k].ptes[loc.index],
        }
    }

    /// Replaces the entry at `loc`.
    fn set_entry(&mut self, loc: PteLoc, pte: Pte)
        requires
            old(self).has_loc(loc),
        ensures
            old(self).wf() ==> final(self).wf(),
            final(self).pages() == old(self).pages(),
            final(self).subtables().len() == old(self).subtables().len(),
            forall|k: int| 0 <= k < old(self).subtables().len() ==> #[trigger] final(self).subtables()[k].pa == old(self).subtables()[k].pa,
            final(self).entry(loc) == pte@,
            forall|l: PteLoc| old(self).has_loc(l) && l != loc ==> #[trigger] final(self).entry(l) == old(self).entry(l),
    {
        match loc.table {
            None => {
                self.ptes[loc.index] = pte;
            },
            Some(k) => {
                let mut t = self.tables[k];
                t.ptes[loc.index] = pte;
                self.tables.set(k, t);
            },
        }
        assert(self.pages() == old(self).pages());
    }
}

/// Writing permissions, a frame and the valid, accessed and dirty flags into an entry makes it
/// map that frame with those permissions.
proof fn lemma_giga_entry(e1: u64, e2: u64, e3: u64, pa: u64, perm: u8)
    requires
        perm_of(e1) == perm & 0x1f,
        pa_of(e2) == pa & PA_MASK,
        e2 & 0x3ff == e1 & 0x3ff,
        e3 == e2 | 0xc1,
    ensures
        maps_to(e3, pa, perm),
{
    assert(pa_of(e3) == pa_of(e2) && perm_of(e3) == perm_of(e1) && e3 & 0xc1 == 0xc1) by (bit_vector)
        requires
            e2 & 0x3ff == e1 & 0x3ff,
            e3 == e2 | 0xc1,
    ;
}

/// The top-level index of the physical address `i` GiB, and of its high kernel address.
pub proof fn lemma_high_vpn(i: u64)
    requires
        i < 4,
    ensures
        vpn_of(2, (i * 0x4000_0000 + HIGHMEM_BASE) as u64) == 256 + i,
        vpn_of(2, (i * 0x4000_0000) as u64) == i,
{
    assert((((i * 0x4000_0000 + 0xffff_ffc0_0000_0000u64) as u64 >> 30u64) & 0x1ff) as usize == 256 + i
        && ((((i * 0x4000_0000) as u64) >> 30u64) & 0x1ff) as usize == i) by (bit_vector)
        requires
            i < 4,
    ;
}

/// The root table holds the kernel map and nothing else: entries 256 to 259 map the first
/// four GiB of physical memory (at `HIGHMEM_BASE`) readable, writable and executable, and
/// every other root entry is 0.
pub open spec fn kernel_map_only(pt: Pagetable) -> bool {
    forall|i: int| 0 <= i < 512 ==> if 256 <= i < 260 {
        maps_to(#[trigger] pt.entry(PteLoc { table: None, index: i as usize }), ((i - 256) * 0x4000_0000) as u64, perm::RWX)
    } else {
        pt.entry(PteLoc { table: None, index: i as usize }) == 0
    }
}

/// Tearing a table down gives each of its frames back exactly once: with the frames that `free`
/// hands back (the lower tables' in order, then the pages'), the frame of the `j`-th page that
/// `mappg` put in is among them at one position only, and so is the frame of each lower table.
pub proof fn lemma_free_returns_each_once(pt: Pagetable, freed: Seq<u64>, j: int)
    requires
        pt.wf(),
        freed.len() == pt.subtables().len() + pt.pages().len(),
        forall|k: int| 0 <= k < pt.subtables().len() ==> #[trigger] freed[k] == pt.subtables()[k].pa,
        forall|k: int| 0 <= k < pt.pages().len() ==> #[trigger] freed[pt.subtables().len() + k] == pt.pages()[k].pa,
    ensures
        0 <= j < pt.pages().len() ==> freed.contains(pt.pages()[j].pa),
        0 <= j < pt.pages().len() ==> forall|i: int| 0 <= i < freed.len() && #[trigger] freed[i] == pt.pages()[j].pa
            ==> i == pt.subtables().len() + j,
        0 <= j < pt.subtables().len() ==> forall|i: int| 0 <= i < freed.len() && #[trigger] freed[i] == pt.subtables()[j].pa
            ==> i == j,
{
    let nt = pt.subtables().len() as int;
    if 0 <= j < pt.pages().len() {
        assert(freed[nt + j] == pt.pages()[j].pa);
        assert forall|i: int| 0 <= i < freed.len() && #[trigger] freed[i] == pt.pages()[j].pa implies i == nt + j by {
            if i < nt {
                assert(freed[i] == pt.subtables()[i].pa);
            } else {
                assert(freed[nt + (i - nt)] == pt.pages()[i - nt].pa);
            }
        }
    }
    if 0 <= j < nt {
        assert forall|i: int| 0 <= i < freed.len() && #[trigger] freed[i] == pt.subtables()[j].pa implies i == j by {
            if i < nt {
                assert(freed[i] == pt.subtables()[i].pa);
            } else {
                assert(freed[nt + (i - nt)] == pt.pages()[i - nt].pa);
            }
        }
    }
}

/// A table that holds only the kernel's 1 GiB leaves has no walk that ends at the 4 KiB level.
pub proof fn lemma_kernel_map_no_4k(pt: Pagetable, va: u64)
    requires
        kernel_map_only(pt),
    ensures
        pt.walk_spec(va, PtLevel::Normal) matches Some((_, lv)) ==> lv != PtLevel::Normal,
{
    lemma_vpn_bound(2, va);
    lemma_zero_entry();
    let i = vpn_of(2, va) as int;
    let r = PteLoc { table: None, index: i as usize };
    if 256 <= i < 260 {
        assert(maps_to(pt.entry(r), ((i - 256) * 0x4000_0000) as u64, perm::RWX));
        lemma_perm_leaf(pt.entry(r), perm::RWX);
    } else {
        assert(pt.entry(r) == 0);
    }
}

/// Maps the kernel's view of physical memory into a process page table: every GiB of the
/// board's memory ranges at its high kernel address, readable, writable and executable.
pub fn kernel_procmap(pt: &mut Pagetable)
    requires
        old(pt).wf(),
    ensures
        final(pt).wf(),
        final(pt).subtables() == old(pt).subtables(),
        final(pt).pages() == old(pt).pages(),
        old(pt).closed() ==> final(pt).closed(),
        old(pt).tree() ==> final(pt).tree(),
        user_leaves_4k(*old(pt)) ==> user_leaves_4k(*final(pt)),
        (forall|i: int| 0 <= i < 512 ==> #[trigger] old(pt).root()[i]@ == 0) ==> kernel_map_only(*final(pt)),
        forall|i: int| 0 <= i < 4 ==> maps_to(#[trigger] final(pt).entry(PteLoc { table: None, index: (256 + i) as usize }),
            (i * 0x4000_0000) as u64, perm::RWX),
        forall|l: PteLoc| old(pt).has_loc(l) && !(l.table is None && 256 <= l.index < 260)
            ==> #[trigger] final(pt).entry(l) == old(pt).entry(l),
{
    let ranges = machine::mem_ranges();
    let g = crate::sys::gb(1);
    let mut r: usize = 0;
    while r < 2
        invariant
            pt.wf(),
            pt.subtables() == old(pt).subtables(),
            pt.pages() == old(pt).pages(),
            old(pt).closed() ==> pt.closed(),
            old(pt).tree() ==> pt.tree(),
            user_leaves_4k(*old(pt)) ==> user_leaves_4k(*pt),
            r <= 2,
            g == 0x4000_0000,
            ranges[0].start == 0 && ranges[0].size == 0x8000_0000,
            ranges[1].start == 0x8000_0000 && ranges[1].size == 0x8000_0000,
            forall|i: int| 0 <= i < 2 * r ==> maps_to(#[trigger] pt.entry(PteLoc { table: None, index: (256 + i) as usize }),
                (i * 0x4000_0000) as u64, perm::RWX),
            forall|l: PteLoc| old(pt).has_loc(l) && !(l.table is None && 256 <= l.index < 260)
                ==> #[trigger] pt.entry(l) == old(pt).entry(l),
        decreases 2 - r,
    {
        let mem = ranges[r];
        let mut pa = mem.start;
        while pa < mem.start + mem.size
            invariant
                pt.wf(),
                pt.subtables() == old(pt).subtables(),
                pt.pages() == old(pt).pages(),
                old(pt).closed() ==> pt.closed(),
                old(pt).tree() ==> pt.tree(),
                user_leaves_4k(*old(pt)) ==> user_leaves_4k(*pt),
                r < 2,
                g == 0x4000_0000,
                mem == ranges[r as int],
                ranges[0].start == 0 && ranges[0].size == 0x8000_0000,
                ranges[1].start == 0x8000_0000 && ranges[1].size == 0x8000_0000,
                mem.start <= pa <= mem.start + mem.size,
                pa % 0x4000_0000 == 0,
                forall|i: int| 0 <= i < pa / 0x4000_0000 ==> maps_to(#[trigger] pt.entry(PteLoc { table: None, index: (256 + i) as usize }),
                    (i * 0x4000_0000) as u64, perm::RWX),
                forall|l: PteLoc| old(pt).has_loc(l) && !(l.table is None && 256 <= l.index < 260)
                    ==> #[trigger] pt.entry(l) == old(pt).entry(l),
            decreases mem.start + mem.size - pa,
        {
            let hka = pa2hka(pa);
            let ghost i = pa / 0x4000_0000;
            proof {
                lemma_high_vpn(i as u64);
                lemma_zero_entry();
            }
            pt.map_giga(hka, pa, perm::RWX);
            pa = pa + g;
        }
        r = r + 1;
    }
    proof {
        if forall|i: int| 0 <= i < 512 ==> #[trigger] old(pt).root()[i]@ == 0 {
            assert forall|i: int| 0 <= i < 512 implies if 256 <= i < 260 {
                maps_to(#[trigger] pt.entry(PteLoc { table: None, index: i as usize }), ((i - 256) * 0x4000_0000) as u64, perm::RWX)
            } else {
                pt.entry(PteLoc { table: None, index: i as usize }) == 0
            } by {
                if 256 <= i < 260 {
                    assert(maps_to(pt.entry(PteLoc { table: None, index: (256 + (i - 256)) as usize }),
                        ((i - 256) * 0x4000_0000) as u64, perm::RWX));
                } else {
                    let l = PteLoc { table: None, index: i as usize };
                    assert(old(pt).has_loc(l));
                    assert(old(pt).entry(l) == old(pt).root()[i]@);
                }
            }
        }
    }
}

} // verus!

verus! {

impl PageMap for Pagetable {
    open spec fn can_map(&self, pa: u64, frames: Seq<u64>) -> bool {
        &&& self.wf()
        &&& self.fresh_frames(frames)
        &&& frame_ok(pa)
        &&& !self.owns_frame(pa)
        &&& !self.owns_page(pa)
        &&& !frames.contains(pa)
    }

    fn mappg(&mut self, va: u64, pg: Page, perm: u8, frames: &mut Vec<u64>) -> (r: Option<()>)
        ensures
            final(self).wf(),
            final(self).fresh_frames(final(frames)@),
            final(frames)@.len() <= old(frames)@.len(),
            final(frames)@ == old(frames)@.subrange(0, final(frames)@.len() as int),
            r is Some <==> (old(self).need(va, PtLevel::Normal) is Some
                && old(self).need(va, PtLevel::Normal).unwrap() <= old(frames)@.len()),
            r is Some ==> final(frames)@.len() == old(frames)@.len() - old(self).need(va, PtLevel::Normal).unwrap(),
            r is Some ==> final(self).pages() == old(self).pages().push(pg),
            r is None ==> final(self).pages() == old(self).pages(),
            old(self).closed() && perm & 7 != 0 ==> final(self).closed(),
            old(self).closed() ==> (old(self).need(va, PtLevel::Normal) matches Some(n) && n <= 2),
            r is Some ==> exists|loc: PteLoc| {
                &&& final(self).has_loc(loc)
                &&& maps_to(#[trigger] final(self).entry(loc), pg.pa, perm)
                &&& forall|l: PteLoc| old(self).has_loc(l) && !Self::walk_may_change(l, va) && l != loc
                    ==> #[trigger] final(self).entry(l) == old(self).entry(l)
                &&& perm & 7 != 0 ==> (final(self).walk_spec(va, PtLevel::Normal) matches Some((l, _)) && l == loc)
                &&& perm & 7 != 0 && old(self).closed() && old(self).tree() ==> (final(self).walk_spec(va, PtLevel::Normal) matches Some((_, lv))
                    && (lv == PtLevel::Normal || old(self).walk_spec(va, PtLevel::Normal) == final(self).walk_spec(va, PtLevel::Normal)))
                &&& old(self).closed() && old(self).tree() ==> (final(self).walk_spec(va, PtLevel::Normal) == Some((loc, PtLevel::Normal))
                    || (old(self).walk_spec(va, PtLevel::Normal) matches Some((l, lv)) && l == loc && lv != PtLevel::Normal))
                &&& forall|l: PteLoc| #![trigger old(self).entry(l)] old(self).has_loc(l) && (bit_u64(old(self).entry(l), 0)
                    || leaf_of(old(self).entry(l))) && l != loc ==> final(self).entry(l) == old(self).entry(l)
                &&& old(self).closed() && old(self).tree() && perm & 7 != 0
                    ==> forall|va1: u64| #[trigger] old(self).walk_spec(va1, PtLevel::Normal) is Some
                        ==> final(self).walk_spec(va1, PtLevel::Normal) == old(self).walk_spec(va1, PtLevel::Normal)
                &&& old(self).closed() && old(self).tree()
                    ==> forall|va1: u64| #[trigger] old(self).walk_spec(va1, PtLevel::Normal) == Some((loc, PtLevel::Normal))
                        ==> same_slot(va1, va)
            },
            old(self).closed() && old(self).tree() && perm & 7 != 0 ==> final(self).tree(),
            perm & 7 != 0 && old(self).closed() && old(self).tree() && user_leaves_4k(*old(self)) ==> user_leaves_4k(*final(self)),
            r is Some && perm & 7 != 0 && old(self).closed() && old(self).tree()
                ==> forall|va1: u64| (#[trigger] final(self).walk_spec(va1, PtLevel::Normal) matches Some((_, lv)) && lv != PtLevel::Normal)
                    ==> old(self).walk_spec(va1, PtLevel::Normal) == final(self).walk_spec(va1, PtLevel::Normal),
            r is Some && perm & 7 != 0 && old(self).closed() && old(self).tree()
                ==> forall|va1: u64| #[trigger] final(self).walk_spec(va1, PtLevel::Normal) matches Some((l1, lv1))
                    ==> (lv1 == PtLevel::Normal && bit_u64(final(self).entry(l1), 0) ==> same_slot(va1, va)
                        || (old(self).walk_spec(va1, PtLevel::Normal) == final(self).walk_spec(va1, PtLevel::Normal)
                        && old(self).entry(l1) == final(self).entry(l1))),
            r is None ==> forall|l: PteLoc| old(self).has_loc(l) && (bit_u64(old(self).entry(l), 0) || leaf_of(old(self).entry(l)))
                ==> #[trigger] final(self).entry(l) == old(self).entry(l),
            final(self).subtables().len() >= old(self).subtables().len(),
            forall|k: int| 0 <= k < old(self).subtables().len() ==> #[trigger] final(self).subtables()[k].pa == old(self).subtables()[k].pa,
    {
        let pa = pg.pa;
        if !self.map(va, pa, PtLevel::Normal, perm, frames) {
            return None;
        }
        let ghost mid = *self;
        self.pages.push(pg);
        proof {
            assert(forall|l: PteLoc| #[trigger] self.entry(l) == mid.entry(l));
            assert(forall|p: u64| #[trigger] self.table_of(p) == mid.table_of(p));
            assert(forall|p: u64| #[trigger] self.owns_frame(p) == mid.owns_frame(p));
            lemma_walk_congruent(*self, mid, None, PtLevel::Giga, va, PtLevel::Normal);
            assert(user_leaves_4k(mid) ==> user_leaves_4k(*self));
            assert forall|va1: u64| #[trigger] self.walk_spec(va1, PtLevel::Normal) == mid.walk_spec(va1, PtLevel::Normal) by {
                lemma_walk_congruent(*self, mid, None, PtLevel::Giga, va1, PtLevel::Normal);
            }
            let loc = choose|loc: PteLoc| {
                &&& mid.has_loc(loc)
                &&& maps_to(#[trigger] mid.entry(loc), pa, perm)
                &&& forall|l: PteLoc| old(self).has_loc(l) && !Self::walk_may_change(l, va) && l != loc
                    ==> #[trigger] mid.entry(l) == old(self).entry(l)
                &&& perm & 7 != 0 ==> (mid.walk_spec(va, PtLevel::Normal) matches Some((l, _)) && l == loc)
                &&& perm & 7 != 0 && old(self).closed() && old(self).tree() ==> (mid.walk_spec(va, PtLevel::Normal) matches Some((_, lv))
                    && (lv == PtLevel::Normal || old(self).walk_spec(va, PtLevel::Normal) == mid.walk_spec(va, PtLevel::Normal)))
                &&& old(self).closed() && old(self).tree() ==> (mid.walk_spec(va, PtLevel::Normal) == Some((loc, PtLevel::Normal))
                    || (old(self).walk_spec(va, PtLevel::Normal) matches Some((l, lv)) && l == loc && lv != PtLevel::Normal))
                &&& forall|l: PteLoc| #![trigger old(self).entry(l)] old(self).has_loc(l) && (bit_u64(old(self).entry(l), 0)
                    || leaf_of(old(self).entry(l))) && l != loc ==> mid.entry(l) == old(self).entry(l)
                &&& old(self).closed() && old(self).tree() && perm & 7 != 0
                    ==> forall|va1: u64| #[trigger] old(self).walk_spec(va1, PtLevel::Normal) is Some
                        ==> mid.walk_spec(va1, PtLevel::Normal) == old(self).walk_spec(va1, PtLevel::Normal)
                &&& old(self).closed() && old(self).tree()
                    ==> forall|va1: u64| #[trigger] old(self).walk_spec(va1, PtLevel::Normal) == Some((loc, PtLevel::Normal))
                        ==> same_slot(va1, va)
            };
            assert(self.has_loc(loc));
            assert(maps_to(self.entry(loc), pg.pa, perm));
            assert forall|va1: u64| #[trigger] old(self).walk_spec(va1, PtLevel::Normal) is Some
                implies self.walk_spec(va1, PtLevel::Normal) == mid.walk_spec(va1, PtLevel::Normal) by {
                lemma_walk_congruent(*self, mid, None, PtLevel::Giga, va1, PtLevel::Normal);
            }
            assert forall|i: int| 0 <= i < frames@.len() implies !self.owns_page(#[trigger] frames@[i]) by {
                if self.owns_page(frames@[i]) {
                    let k = choose|k: int| 0 <= k < self.pages().len() && #[trigger] self.pages()[k].pa == frames@[i];
                    if k < mid.pages().len() {
                        assert(mid.owns_page(frames@[i]));
                    } else {
                        assert(old(frames)@.contains(pa)) by {
                            assert(old(frames)@[i] == frames@[i]);
                        }
                    }
                }
            }
        }
        Some(())
    }
}

} // verus!
