//! Loading of 64-bit ELF executables into a page table.
use vstd::prelude::*;
use crate::arch::vm::{Pagetable, PteLoc, PtLevel, maps_to, same_slot, lemma_mapped_valid, user_leaves_4k, lemma_user_walk_4k, vpn_of, lemma_map_step};
use crate::kalloc::Page;
use crate::vm::{perm, PageMap, maps_owned};

verus! {

/// "\x7fELF" read as a little-endian `u32`.
pub const MAGIC: u32 = 0x464C457F;

/// Program header type of a loadable segment.
pub const PROG_LOAD: u32 = 1;

/// Size of the ELF file header.
pub const FILE_HEADER_SIZE: usize = 64;

/// Size of an ELF program header.
pub const PROG_HEADER_SIZE: usize = 56;

/// The fields of the ELF file header that loading uses.
#[derive(Copy, Clone)]
pub struct FileHeader64 {
    pub magic: u32,
    pub entry: u64,
    pub phoff: u64,
    pub phnum: u16,
}

/// An ELF program header.
#[derive(Copy, Clone)]
pub struct ProgHeader64 {
    pub type_: u32,
    pub flags: u32,
    pub offset: u64,
    pub vaddr: u64,
    pub paddr: u64,
    pub filesz: u64,
    pub memsz: u64,
    pub align: u64,
}

/// The little-endian `u16` at `off` in `b`.
pub open spec fn le_u16(b: Seq<u8>, off: int) -> u16 {
    (b[off] as u16) | ((b[off + 1] as u16) << 8u16)
}

/// The little-endian `u32` at `off` in `b`.
pub open spec fn le_u32(b: Seq<u8>, off: int) -> u32 {
    (b[off] as u32) | ((b[off + 1] as u32) << 8u32) | ((b[off + 2] as u32) << 16u32) | ((b[off + 3] as u32) << 24u32)
}

/// The little-endian `u64` at `off` in `b`.
pub open spec fn le_u64(b: Seq<u8>, off: int) -> u64 {
    (b[off] as u64) | ((b[off + 1] as u64) << 8u64) | ((b[off + 2] as u64) << 16u64)
        | ((b[off + 3] as u64) << 24u64) | ((b[off + 4] as u64) << 32u64)
        | ((b[off + 5] as u64) << 40u64) | ((b[off + 6] as u64) << 48u64)
        | ((b[off + 7] as u64) << 56u64)
}

/// The file header at the start of `b`.
pub open spec fn header_of(b: Seq<u8>) -> FileHeader64 {
    FileHeader64 { magic: le_u32(b, 0), entry: le_u64(b, 24), phoff: le_u64(b, 32), phnum: le_u16(b, 56) }
}

/// Byte offset of program header `i`.
pub open spec fn ph_off(b: Seq<u8>, i: int) -> int {
    header_of(b).phoff + i * 56
}

/// Program header `i` of `b`.
pub open spec fn ph_of(b: Seq<u8>, i: int) -> ProgHeader64 {
    let o = ph_off(b, i);
    ProgHeader64 {
        type_: le_u32(b, o),
        flags: le_u32(b, o + 4),
        offset: le_u64(b, o + 8),
        vaddr: le_u64(b, o + 16),
        paddr: le_u64(b, o + 24),
        filesz: le_u64(b, o + 32),
        memsz: le_u64(b, o + 40),
        align: le_u64(b, o + 48),
    }
}

/// Whether a segment is loaded: a loadable segment that takes memory.
pub open spec fn loaded(ph: ProgHeader64) -> bool {
    ph.type_ == PROG_LOAD && ph.memsz != 0
}

/// Offset of the segment's start within its first page.
pub open spec fn seg_pad(ph: ProgHeader64) -> int {
    (ph.vaddr % 4096) as int
}

/// Number of pages the segment covers: its memory size plus the offset in its first page,
/// rounded up to pages, and at least one page.
pub open spec fn seg_npages(ph: ProgHeader64) -> int {
    let sz = if ph.memsz + seg_pad(ph) > 4096 { ph.memsz + seg_pad(ph) } else { 4096 };
    (sz + 4095) / 4096
}

/// Whether the segment can be loaded: its file part fits in its memory part, and its pages lie
/// below 2^64.
pub open spec fn seg_ok(ph: ProgHeader64) -> bool {
    &&& ph.filesz <= ph.memsz
    &&& ph.vaddr + ph.memsz <= u64::MAX
    &&& ph.vaddr - seg_pad(ph) + seg_npages(ph) * 4096 <= u64::MAX + 1
}

/// Byte `j` of page `k` of a segment: the file byte at that position of the segment, or zero
/// past the segment's file part and before its start.
pub open spec fn page_byte(b: Seq<u8>, ph: ProgHeader64, k: int, j: int) -> u8 {
    let pos = k * 4096 + j - seg_pad(ph);
    if 0 <= pos < ph.filesz { b[ph.offset + pos] } else { 0 }
}

/// What a loaded page holds, by position in the segment: the byte at `pos` bytes from the
/// segment's start (its `offset` in the file) while `pos` is below the segment's file size, and
/// zero before the segment starts and from the end of its file part on (the `.bss` part up to
/// its memory size included), whatever the file holds after the segment.
pub proof fn lemma_page_byte(b: Seq<u8>, ph: ProgHeader64, k: int, j: int)
    ensures
        ({
            let pos = k * 4096 + j - (ph.vaddr % 4096) as int;
            &&& 0 <= pos < ph.filesz ==> page_byte(b, ph, k, j) == b[ph.offset + pos]
            &&& pos < 0 ==> page_byte(b, ph, k, j) == 0
            &&& ph.filesz <= pos ==> page_byte(b, ph, k, j) == 0
        }),
{
}

/// Whether the file `b` holds its headers, and the file part of each loaded segment.
pub open spec fn in_bounds(b: Seq<u8>) -> bool {
    &&& b.len() >= 64
    &&& forall|i: int| 0 <= i < header_of(b).phnum ==> #[trigger] ph_off(b, i) + 56 <= b.len()
    &&& forall|i: int| 0 <= i < header_of(b).phnum && loaded(#[trigger] ph_of(b, i)) && ph_of(b, i).filesz <= ph_of(b, i).memsz
        ==> ph_of(b, i).offset + ph_of(b, i).filesz <= b.len()
}

/// Whether the first `n` program headers of `b` can all be loaded.
pub open spec fn segs_ok(b: Seq<u8>, n: int) -> bool {
    forall|i: int| 0 <= i < n && loaded(#[trigger] ph_of(b, i)) ==> seg_ok(ph_of(b, i))
}

/// A page that loading maps: its virtual address and its bytes.
pub struct PagePlan {
    pub va: u64,
    pub data: Seq<u8>,
}

/// The pages of a loaded segment, in address order.
pub open spec fn seg_pages(b: Seq<u8>, ph: ProgHeader64) -> Seq<PagePlan> {
    Seq::new(seg_npages(ph) as nat, |k: int| PagePlan {
        va: (ph.vaddr - seg_pad(ph) + k * 4096) as u64,
        data: Seq::new(4096, |j: int| page_byte(b, ph, k, j)),
    })
}

/// The pages that loading the first `n` program headers of `b` maps, in order.
pub open spec fn plan_upto(b: Seq<u8>, n: int) -> Seq<PagePlan>
    decreases n,
{
    if n <= 0 {
        Seq::empty()
    } else if loaded(ph_of(b, n - 1)) {
        plan_upto(b, n - 1) + seg_pages(b, ph_of(b, n - 1))
    } else {
        plan_upto(b, n - 1)
    }
}

/// The highest end address of the loaded segments among the first `n` program headers (0 when
/// there is none).
pub open spec fn brk_upto(b: Seq<u8>, n: int) -> u64
    decreases n,
{
    if n <= 0 {
        0
    } else if loaded(ph_of(b, n - 1)) {
        let e = (ph_of(b, n - 1).vaddr + ph_of(b, n - 1).memsz) as u64;
        if e > brk_upto(b, n - 1) { e } else { brk_upto(b, n - 1) }
    } else {
        brk_upto(b, n - 1)
    }
}

/// The break is the highest end of a loaded segment: at least `vaddr + memsz` of every loaded
/// segment among the first `n` program headers, and equal to one of them (0 when none is
/// loaded).
pub proof fn lemma_brk_upto(b: Seq<u8>, n: int)
    requires
        segs_ok(b, n),
    ensures
        forall|i: int| 0 <= i < n && loaded(#[trigger] ph_of(b, i)) ==> ph_of(b, i).vaddr + ph_of(b, i).memsz <= brk_upto(b, n),
        brk_upto(b, n) == 0 || exists|i: int| 0 <= i < n && loaded(#[trigger] ph_of(b, i))
            && brk_upto(b, n) == ph_of(b, i).vaddr + ph_of(b, i).memsz,
        (forall|i: int| 0 <= i < n ==> !loaded(#[trigger] ph_of(b, i))) ==> brk_upto(b, n) == 0,
    decreases n,
{
    if n > 0 {
        assert(segs_ok(b, n - 1));
        lemma_brk_upto(b, n - 1);
        if loaded(ph_of(b, n - 1)) {
            assert(seg_ok(ph_of(b, n - 1)));
        }
        if brk_upto(b, n) != 0 && brk_upto(b, n) == brk_upto(b, n - 1) {
            let i = choose|i: int| 0 <= i < n - 1 && loaded(#[trigger] ph_of(b, i))
                && brk_upto(b, n - 1) == ph_of(b, i).vaddr + ph_of(b, i).memsz;
            assert(0 <= i < n && loaded(ph_of(b, i)));
        }
        if forall|i: int| 0 <= i < n ==> !loaded(#[trigger] ph_of(b, i)) {
            assert(!loaded(ph_of(b, n - 1)));
        }
    }
}

fn rd_u16(b: &[u8], off: usize) -> (r: u16)
    requires
        off + 2 <= b@.len(),
    ensures
        r == le_u16(b@, off as int),
{
    (b[off] as u16) | ((b[off + 1] as u16) << 8)
}

pub(crate) fn rd_u32(b: &[u8], off: usize) -> (r: u32)
    requires
        off + 4 <= b@.len(),
    ensures
        r == le_u32(b@, off as int),
{
    (b[off] as u32) | ((b[off + 1] as u32) << 8) | ((b[off + 2] as u32) << 16) | ((b[off + 3] as u32) << 24)
}

pub(crate) fn rd_u64(b: &[u8], off: usize) -> (r: u64)
    requires
        off + 8 <= b@.len(),
    ensures
        r == le_u64(b@, off as int),
{
    (b[off] as u64) | ((b[off + 1] as u64) << 8) | ((b[off + 2] as u64) << 16)
        | ((b[off + 3] as u64) << 24) | ((b[off + 4] as u64) << 32)
        | ((b[off + 5] as u64) << 40) | ((b[off + 6] as u64) << 48)
        | ((b[off + 7] as u64) << 56)
}

impl FileHeader64 {
    /// The file header at the start of `b`.
    pub fn parse(b: &[u8]) -> (r: FileHeader64)
        requires
            b@.len() >= 64,
        ensures
            r == header_of(b@),
    {
        FileHeader64 { magic: rd_u32(b, 0), entry: rd_u64(b, 24), phoff: rd_u64(b, 32), phnum: rd_u16(b, 56) }
    }
}

impl ProgHeader64 {
    /// The program header at byte offset `off` of `b`.
    pub fn parse(b: &[u8], off: usize) -> (r: ProgHeader64)
        requires
            off + 56 <= b@.len(),
        ensures
            r == (ProgHeader64 {
                type_: le_u32(b@, off as int),
                flags: le_u32(b@, off + 4),
                offset: le_u64(b@, off + 8),
                vaddr: le_u64(b@, off + 16),
                paddr: le_u64(b@, off + 24),
                filesz: le_u64(b@, off + 32),
                memsz: le_u64(b@, off + 40),
                align: le_u64(b@, off + 48),
            }),
    {
        let _n = b.len();
        ProgHeader64 {
            type_: rd_u32(b, off),
            flags: rd_u32(b, off + 4),
            offset: rd_u64(b, off + 8),
            vaddr: rd_u64(b, off + 16),
            paddr: rd_u64(b, off + 24),
            filesz: rd_u64(b, off + 32),
            memsz: rd_u64(b, off + 40),
            align: rd_u64(b, off + 48),
        }
    }
}


/// Builds page `k` of the segment `ph` of `elfdat`: zeros before the segment's start, the
/// segment's file bytes, and zeros after them.
fn fill_page(elfdat: &[u8], ph: &ProgHeader64, k: u64, pad: u64) -> (data: Vec<u8>)
    requires
        pad == seg_pad(*ph),
        ph.filesz <= ph.memsz,
        ph.offset + ph.filesz <= elfdat@.len(),
        k * 4096 + 4095 <= u64::MAX,
    ensures
        data@ == Seq::new(4096, |j: int| page_byte(elfdat@, *ph, k as int, j)),
        forall|j: int| 0 <= j < 4096 && 0 <= k * 4096 + j - pad < ph.filesz
            ==> #[trigger] data@[j] == elfdat@[ph.offset + k * 4096 + j - pad],
        forall|j: int| 0 <= j < 4096 && !(0 <= k * 4096 + j - pad < ph.filesz) ==> #[trigger] data@[j] == 0,
{
    proof {
        assert forall|j: int| 0 <= j < 4096 implies #[trigger] page_byte(elfdat@, *ph, k as int, j) == (if 0 <= k * 4096 + j - pad < ph.filesz {
            elfdat@[ph.offset + k * 4096 + j - pad]
        } else {
            0
        }) by {
            lemma_page_byte(elfdat@, *ph, k as int, j);
        }
    }
    let len = elfdat.len();
    assert(pad < 4096);
    let mut mem: Vec<u8> = Vec::new();
    // Zero the part of the page before the segment starts.
    let first = if k == 0 { pad as usize } else { 0 };
    while mem.len() < first
        invariant
            first <= 4095,
            mem@.len() <= first,
            forall|j: int| 0 <= j < mem@.len() ==> #[trigger] mem@[j] == page_byte(elfdat@, *ph, k as int, j),
            pad == seg_pad(*ph),
            k == 0 ==> first == pad,
            k != 0 ==> first == 0,
        decreases first - mem@.len(),
    {
        mem.push(0);
    }
    let mut written: usize = first;
    // Position in the segment of the byte at `written`.
    let soff: u64 = k * 4096 + (written as u64) - pad;
    if ph.filesz > soff {
        let left = (ph.filesz - soff) as usize;
        let n = min(4096 - written, left);
        let data_start = (ph.offset + soff) as usize;
        let mut c: usize = 0;
        while c < n
            invariant
                c <= n,
                n <= 4096 - first,
                first + c == mem@.len(),
                data_start == ph.offset + soff,
                soff == k * 4096 + first - pad,
                soff + n <= ph.filesz,
                ph.offset + ph.filesz <= elfdat@.len(),
                len == elfdat@.len(),
                pad == seg_pad(*ph),
                forall|j: int| 0 <= j < mem@.len() ==> #[trigger] mem@[j] == page_byte(elfdat@, *ph, k as int, j),
            decreases n - c,
        {
            mem.push(elfdat[data_start + c]);
            c += 1;
        }
        written = written + n;
    }
    // Zero the rest of the page.
    while mem.len() < 4096
        invariant
            mem@.len() <= 4096,
            mem@.len() >= written,
            written >= first,
            pad == seg_pad(*ph),
            soff == k * 4096 + first - pad,
            written > first ==> soff + (written - first) == ph.filesz || written == 4096,
            written == first ==> soff >= ph.filesz || written == 4096,
            forall|j: int| 0 <= j < mem@.len() ==> #[trigger] mem@[j] == page_byte(elfdat@, *ph, k as int, j),
        decreases 4096 - mem@.len(),
    {
        mem.push(0);
    }
    assert(mem@ =~= Seq::new(4096, |j: int| page_byte(elfdat@, *ph, k as int, j)));
    mem
}


/// The plan of the first `i` headers is a prefix of the plan of the first `n`.
proof fn lemma_plan_prefix(b: Seq<u8>, i: int, n: int)
    requires
        0 <= i <= n,
    ensures
        plan_upto(b, i).len() <= plan_upto(b, n).len(),
        forall|k: int| 0 <= k < plan_upto(b, i).len() ==> #[trigger] plan_upto(b, n)[k] == plan_upto(b, i)[k],
    decreases n - i,
{
    if i < n {
        lemma_plan_prefix(b, i, n - 1);
    }
}

/// Loads the ELF executable `elfdat` into `pt`, and returns its entry point and its break (the
/// end of its highest loaded segment).
///
/// Each loaded segment is mapped page by page, readable, writable and executable from user
/// mode: a page holds zeros before the segment starts, then the segment's file bytes, then
/// zeros. Pages and the lower tables their mappings need are taken from the end of `frames`.
/// Every planned page's address then has a walk, and it ends at an entry mapping that page
/// unless a later page of the plan took the same slot (or the walk stops at a larger leaf).
/// The walk stops at a larger leaf only where it already did before the call: every page whose
/// walk in the old table was not cut short that way ends at a 4 KiB entry. The new mappings
/// are on the pages it adds, so a table whose 4 KiB mappings were all on owned pages stays so
/// (see `maps_owned`).
/// The headers and bytes are read one byte at a time, so `elfdat` may start at any address; it
/// need not be 8-byte aligned.
/// Returns `None` when the magic number is wrong, when a loaded segment's file size exceeds its
/// memory size or its pages would end past 2^64, or when `frames` runs out; segments before the
/// failing one stay mapped.
#[verifier::spinoff_prover]
#[verifier::rlimit(40)]
pub fn load64(pt: &mut Pagetable, elfdat: &[u8], frames: &mut Vec<u64>) -> (r: Option<(u64, u64)>)
    requires
        old(pt).wf(),
        old(pt).closed(),
        old(pt).tree(),
        old(pt).fresh_frames(old(frames)@),
        in_bounds(elfdat@),
    ensures
        final(pt).wf(),
        final(pt).closed(),
        final(pt).tree(),
        user_leaves_4k(*old(pt)) ==> user_leaves_4k(*final(pt)),
        final(pt).fresh_frames(final(frames)@),
        final(frames)@ == old(frames)@.subrange(0, final(frames)@.len() as int),
        header_of(elfdat@).magic != MAGIC ==> r is None && *final(pt) == *old(pt) && final(frames)@ == old(frames)@,
        r is Some ==> header_of(elfdat@).magic == MAGIC && segs_ok(elfdat@, header_of(elfdat@).phnum as int),
        (header_of(elfdat@).magic == MAGIC && segs_ok(elfdat@, header_of(elfdat@).phnum as int)
            && old(frames)@.len() >= 3 * plan_upto(elfdat@, header_of(elfdat@).phnum as int).len()) ==> r is Some,
        r matches Some((entry, brk)) ==> ({
            let plan = plan_upto(elfdat@, header_of(elfdat@).phnum as int);
            &&& entry == header_of(elfdat@).entry
            &&& brk == brk_upto(elfdat@, header_of(elfdat@).phnum as int)
            &&& forall|i: int| 0 <= i < header_of(elfdat@).phnum && loaded(#[trigger] ph_of(elfdat@, i))
                ==> ph_of(elfdat@, i).vaddr + ph_of(elfdat@, i).memsz <= brk
            &&& brk == 0 || exists|i: int| 0 <= i < header_of(elfdat@).phnum && loaded(#[trigger] ph_of(elfdat@, i))
                && brk == ph_of(elfdat@, i).vaddr + ph_of(elfdat@, i).memsz
            &&& final(pt).pages().len() == old(pt).pages().len() + plan.len()
            &&& final(frames)@.len() + 3 * plan.len() >= old(frames)@.len()
            &&& forall|k: int| 0 <= k < plan.len() ==> #[trigger] final(pt).pages()[old(pt).pages().len() + k].data@ == plan[k].data
            &&& forall|k: int| 0 <= k < plan.len() ==> (#[trigger] final(pt).walk_spec(plan[k].va, PtLevel::Normal)) is Some
            &&& user_leaves_4k(*old(pt)) ==> forall|k: int| 0 <= k < plan.len() && vpn_of(2, plan[k].va) < 256
                ==> (final(pt).walk_spec(#[trigger] plan[k].va, PtLevel::Normal) matches Some((_, lv)) && lv == PtLevel::Normal)
            &&& forall|k: int| 0 <= k < plan.len() && (forall|k2: int| k < k2 < plan.len() ==> !same_slot(#[trigger] plan[k2].va, plan[k].va))
                ==> (final(pt).walk_spec(#[trigger] plan[k].va, PtLevel::Normal) matches Some((l, lv)) && (lv == PtLevel::Normal
                    ==> maps_to(final(pt).entry(l), final(pt).pages()[old(pt).pages().len() + k].pa, perm::URWX)))
            &&& forall|k: int| 0 <= k < plan.len() && !(old(pt).walk_spec(#[trigger] plan[k].va, PtLevel::Normal) matches Some((_, lv))
                && lv != PtLevel::Normal) ==> (final(pt).walk_spec(plan[k].va, PtLevel::Normal) matches Some((_, lv)) && lv == PtLevel::Normal)
        }),
        r is Some && maps_owned(*old(pt)) ==> maps_owned(*final(pt)),
        r is Some ==> forall|va1: u64| (#[trigger] final(pt).walk_spec(va1, PtLevel::Normal) matches Some((_, lv))
            && lv != PtLevel::Normal) ==> old(pt).walk_spec(va1, PtLevel::Normal) == final(pt).walk_spec(va1, PtLevel::Normal),
{
    let elf = FileHeader64::parse(elfdat);
    if elf.magic != MAGIC {
        return None;
    }
    let ghost b = elfdat@;
    let ghost base = old(pt).pages().len();
    let ghost total = plan_upto(b, elf.phnum as int);
    let ghost enough = old(frames)@.len() >= 3 * total.len();
    let len = elfdat.len();
    let mut brk: u64 = 0;
    let mut i: u16 = 0;
    let ghost mut locs: Seq<PteLoc> = Seq::empty();
    let ghost mut lvls: Seq<PtLevel> = Seq::empty();
    while i < elf.phnum
        invariant
            elf == header_of(b),
            elf.magic == MAGIC,
            b == elfdat@,
            len == b.len(),
            in_bounds(b),
            i <= elf.phnum,
            total == plan_upto(b, elf.phnum as int),
            pt.wf(),
            pt.closed(),
            pt.fresh_frames(frames@),
            frames@.len() <= old(frames)@.len(),
            frames@ == old(frames)@.subrange(0, frames@.len() as int),
            segs_ok(b, i as int),
            brk == brk_upto(b, i as int),
            base == old(pt).pages().len(),
            pt.pages().len() == base + plan_upto(b, i as int).len(),
            forall|k: int| 0 <= k < plan_upto(b, i as int).len() ==> #[trigger] pt.pages()[base + k].data@ == plan_upto(b, i as int)[k].data,
            enough == (old(frames)@.len() >= 3 * total.len()),
            enough ==> frames@.len() >= 3 * (total.len() - plan_upto(b, i as int).len()),
            frames@.len() + 3 * plan_upto(b, i as int).len() >= old(frames)@.len(),
            plan_upto(b, i as int).len() <= total.len(),
            pt.tree(),
            user_leaves_4k(*old(pt)) ==> user_leaves_4k(*pt),
            maps_owned(*old(pt)) ==> maps_owned(*pt),
            forall|va1: u64| (#[trigger] pt.walk_spec(va1, PtLevel::Normal) matches Some((_, lv)) && lv != PtLevel::Normal)
                ==> old(pt).walk_spec(va1, PtLevel::Normal) == pt.walk_spec(va1, PtLevel::Normal),
            locs.len() == plan_upto(b, i as int).len(),
            lvls.len() == plan_upto(b, i as int).len(),
            forall|j: int| 0 <= j < locs.len() ==> pt.has_loc(#[trigger] locs[j]),
            forall|j: int| 0 <= j < locs.len() ==> #[trigger] pt.walk_spec(plan_upto(b, i as int)[j].va, PtLevel::Normal)
                == Some((locs[j], lvls[j])),
            forall|j: int| 0 <= j < locs.len() && lvls[j] == PtLevel::Normal && (forall|j2: int| j < j2 < locs.len()
                ==> !same_slot(#[trigger] plan_upto(b, i as int)[j2].va, plan_upto(b, i as int)[j].va))
                ==> maps_to(#[trigger] pt.entry(locs[j]), pt.pages()[base + j].pa, perm::URWX),
        decreases elf.phnum - i,
    {
        proof {
            lemma_plan_prefix(b, i as int, elf.phnum as int);
            lemma_plan_prefix(b, i + 1, elf.phnum as int);
        }
        let off = (elf.phoff as usize) + (i as usize) * PROG_HEADER_SIZE;
        let ph = ProgHeader64::parse(elfdat, off);
        assert(ph == ph_of(b, i as int));
        if ph.type_ != PROG_LOAD || ph.memsz == 0 {
            assert(plan_upto(b, i + 1) == plan_upto(b, i as int));
            i += 1;
            continue;
        }
        if ph.memsz < ph.filesz {
            return None;
        }
        if ph.vaddr > u64::MAX - ph.memsz {
            return None;
        }
        let pad = ph.vaddr % 4096;
        let va_start = ph.vaddr - pad;
        let sz = max(ph.memsz + pad, 4096);
        let npages = sz / 4096 + if sz % 4096 != 0 { 1 } else { 0 };
        assert(npages == seg_npages(ph));
        if npages > (u64::MAX - va_start) / 4096 + 1 {
            return None;
        }
        assert(seg_ok(ph));
        let ghost before = plan_upto(b, i as int);
        let ghost pages = seg_pages(b, ph);
        assert(plan_upto(b, i + 1) == before + pages);
        proof {
            let pp = before + pages;
            assert forall|j: int| 0 <= j < locs.len() implies #[trigger] pt.walk_spec(pp[j].va, PtLevel::Normal)
                == Some((locs[j], lvls[j])) by {
                assert(pp[j] == before[j]);
            }
            assert forall|j: int| 0 <= j < locs.len() && lvls[j] == PtLevel::Normal && (forall|j2: int| j < j2 < locs.len()
                ==> !same_slot(#[trigger] pp[j2].va, pp[j].va))
                implies maps_to(#[trigger] pt.entry(locs[j]), pt.pages()[base + j].pa, perm::URWX) by {
                assert forall|j2: int| j < j2 < locs.len() implies !same_slot(#[trigger] before[j2].va, before[j].va) by {
                    assert(pp[j2] == before[j2]);
                    assert(pp[j] == before[j]);
                }
            }
        }
        let mut k: u64 = 0;
        while k < npages
            invariant
                elf == header_of(b),
                elf.magic == MAGIC,
                b == elfdat@,
                in_bounds(b),
                i < elf.phnum,
                ph == ph_of(b, i as int),
                loaded(ph),
                seg_ok(ph),
                pad == seg_pad(ph),
                va_start == ph.vaddr - pad,
                npages == seg_npages(ph),
                pages == seg_pages(b, ph),
                before == plan_upto(b, i as int),
                plan_upto(b, i + 1) == before + pages,
                total == plan_upto(b, elf.phnum as int),
                k <= npages,
                pt.wf(),
                pt.closed(),
                pt.fresh_frames(frames@),
                frames@.len() <= old(frames)@.len(),
                frames@ == old(frames)@.subrange(0, frames@.len() as int),
                base == old(pt).pages().len(),
                pt.pages().len() == base + before.len() + k,
                forall|j: int| 0 <= j < before.len() + k ==> #[trigger] pt.pages()[base + j].data@ == (before + pages)[j].data,
                enough == (old(frames)@.len() >= 3 * total.len()),
                enough ==> frames@.len() >= 3 * (total.len() - before.len() - k),
                frames@.len() + 3 * (before.len() + k) >= old(frames)@.len(),
                before.len() + pages.len() <= total.len(),
                pt.tree(),
                user_leaves_4k(*old(pt)) ==> user_leaves_4k(*pt),
                maps_owned(*old(pt)) ==> maps_owned(*pt),
                forall|va1: u64| (#[trigger] pt.walk_spec(va1, PtLevel::Normal) matches Some((_, lv)) && lv != PtLevel::Normal)
                    ==> old(pt).walk_spec(va1, PtLevel::Normal) == pt.walk_spec(va1, PtLevel::Normal),
                locs.len() == before.len() + k,
                lvls.len() == before.len() + k,
                forall|j: int| 0 <= j < locs.len() ==> pt.has_loc(#[trigger] locs[j]),
                forall|j: int| 0 <= j < locs.len() ==> #[trigger] pt.walk_spec((before + pages)[j].va, PtLevel::Normal)
                    == Some((locs[j], lvls[j])),
                forall|j: int| 0 <= j < locs.len() && lvls[j] == PtLevel::Normal && (forall|j2: int| j < j2 < locs.len()
                    ==> !same_slot(#[trigger] (before + pages)[j2].va, (before + pages)[j].va))
                    ==> maps_to(#[trigger] pt.entry(locs[j]), pt.pages()[base + j].pa, perm::URWX),
            decreases npages - k,
        {
            let va = va_start + k * 4096;
            let ghost f0 = frames@;
            let pa = match frames.pop() {
                None => {
                    return None;
                },
                Some(f) => f,
            };
            let data = fill_page(elfdat, &ph, k, pad);
            assert(data@ == pages[k as int].data);
            let pg = Page { pa, data };
            let ghost pre = pt.pages();
            let ghost mid_frames = frames@;
            proof {
                assert(!frames@.contains(pa)) by {
                    if frames@.contains(pa) {
                        let j = choose|j: int| 0 <= j < frames@.len() && frames@[j] == pa;
                        assert(old(frames)@[j] == old(frames)@[frames@.len() as int]);
                    }
                }
            }
            proof {
                crate::arch::vm::lemma_zero_entry();
            }
            let ghost opt = *pt;
            let res = pt.mappg(va, pg, perm::URWX, frames);
            assert(frames@ =~= old(frames)@.subrange(0, frames@.len() as int)) by {
                assert forall|j: int| 0 <= j < frames@.len() implies frames@[j] == old(frames)@[j] by {
                    assert(frames@[j] == mid_frames[j]);
                    assert(mid_frames[j] == f0[j]);
                    assert(f0[j] == old(frames)@[j]);
                }
            }
            if res.is_none() {
                return None;
            }
            proof {
                assert forall|j: int| 0 <= j < before.len() + k + 1 implies #[trigger] pt.pages()[base + j].data@ == (before + pages)[j].data by {
                    if j < before.len() + k {
                        assert(pt.pages()[base + j] == pre[base + j]);
                    }
                }
                let n = *pt;
                let pp = before + pages;
                let cnt = before.len() + k;
                assert(pp[cnt].va == va);
                let loc = choose|loc: PteLoc| {
                    &&& n.has_loc(loc)
                    &&& maps_to(#[trigger] n.entry(loc), pa, perm::URWX)
                    &&& perm::URWX & 7 != 0 ==> (n.walk_spec(va, PtLevel::Normal) matches Some((l, _)) && l == loc)
                    &&& forall|l: PteLoc| #![trigger opt.entry(l)] opt.has_loc(l) && (crate::bit::bit_u64(opt.entry(l), 0)
                        || crate::arch::vm::leaf_of(opt.entry(l))) && l != loc ==> n.entry(l) == opt.entry(l)
                    &&& opt.closed() && opt.tree() && perm::URWX & 7 != 0
                        ==> forall|va1: u64| #[trigger] opt.walk_spec(va1, PtLevel::Normal) is Some
                            ==> n.walk_spec(va1, PtLevel::Normal) == opt.walk_spec(va1, PtLevel::Normal)
                    &&& opt.closed() && opt.tree()
                        ==> forall|va1: u64| #[trigger] opt.walk_spec(va1, PtLevel::Normal) == Some((loc, PtLevel::Normal))
                            ==> same_slot(va1, va)
                };
                let lvl = n.walk_spec(va, PtLevel::Normal).unwrap().1;
                assert(n.pages()[base + cnt].pa == pa);
                if maps_owned(*old(pt)) {
                    assert(crate::arch::vm::frame_ok(pa)) by {
                        assert(f0[f0.len() - 1] == pa);
                    }
                    crate::arch::vm::lemma_zero_entry();
                    crate::vm::lemma_map_owned(opt, n, va, pa, perm::URWX, loc);
                }
                assert forall|j: int| 0 <= j < opt.pages().len() implies #[trigger] n.pages()[j] == opt.pages()[j] by {}
                let vas = Seq::new(pp.len(), |j: int| pp[j].va);
                let perms = Seq::new(pp.len(), |j: int| perm::URWX);
                assert forall|j: int| 0 <= j < locs.len() implies #[trigger] opt.walk_spec(vas[j], PtLevel::Normal)
                    == Some((locs[j], lvls[j])) by {
                    assert(vas[j] == pp[j].va);
                }
                assert forall|j: int| 0 <= j < locs.len() && lvls[j] == PtLevel::Normal && (forall|j2: int| j < j2 < locs.len()
                    ==> !same_slot(#[trigger] vas[j2], vas[j]))
                    implies maps_to(#[trigger] opt.entry(locs[j]), opt.pages()[base + j].pa, perms[j]) by {
                    assert forall|j2: int| j < j2 < locs.len() implies !same_slot(#[trigger] pp[j2].va, pp[j].va) by {
                        assert(vas[j2] == pp[j2].va && vas[j] == pp[j].va);
                    }
                }
                lemma_map_step(opt, n, vas, perms, locs, lvls, base as int, loc, lvl);
                assert forall|j: int| 0 <= j < cnt + 1 implies #[trigger] n.walk_spec(pp[j].va, PtLevel::Normal)
                    == Some((locs.push(loc)[j], lvls.push(lvl)[j])) by {
                    assert(vas[j] == pp[j].va);
                }
                assert forall|j: int| 0 <= j < cnt + 1 && lvls.push(lvl)[j] == PtLevel::Normal && (forall|j2: int| j < j2 < cnt + 1
                    ==> !same_slot(#[trigger] pp[j2].va, pp[j].va))
                    implies maps_to(#[trigger] n.entry(locs.push(loc)[j]), n.pages()[base + j].pa, perm::URWX) by {
                    assert forall|j2: int| j < j2 < cnt + 1 implies !same_slot(#[trigger] vas[j2], vas[j]) by {
                        assert(vas[j2] == pp[j2].va && vas[j] == pp[j].va);
                    }
                    assert(perms[j] == perm::URWX);
                }
                locs = locs.push(loc);
                lvls = lvls.push(lvl);
            }
            k += 1;
        }
        brk = max(ph.vaddr + ph.memsz, brk);
        i += 1;
    }
    proof {
        if user_leaves_4k(*old(pt)) {
            assert forall|k: int| 0 <= k < total.len() && vpn_of(2, total[k].va) < 256
                implies (pt.walk_spec(#[trigger] total[k].va, PtLevel::Normal) matches Some((_, lv)) && lv == PtLevel::Normal) by {
                lemma_user_walk_4k(*pt, total[k].va);
            }
        }
        lemma_brk_upto(b, elf.phnum as int);
        assert forall|k: int| 0 <= k < total.len() && !(old(pt).walk_spec(#[trigger] total[k].va, PtLevel::Normal) matches Some((_, lv))
            && lv != PtLevel::Normal) implies (pt.walk_spec(total[k].va, PtLevel::Normal) matches Some((_, lv)) && lv == PtLevel::Normal) by {
            assert(pt.walk_spec(total[k].va, PtLevel::Normal) == Some((locs[k], lvls[k])));
        }
    }
    Some((elf.entry, brk))
}

/// The smaller of two sizes.
pub fn min(a: usize, b: usize) -> (r: usize)
    ensures
        r == if a < b { a } else { b },
{
    if a < b {
        a
    } else {
        b
    }
}

/// The larger of two values.
pub fn max(a: u64, b: u64) -> (r: u64)
    ensures
        r == if a > b { a } else { b },
{
    if a > b {
        a
    } else {
        b
    }
}

} // verus!
