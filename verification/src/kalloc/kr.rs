use vstd::prelude::*;
use crate::sys::PAGESIZE;

verus! {

/// Bytes in one allocation unit, the size of a block header.
pub const UNIT: u64 = 16;

/// The fewest units that the arena grows by at a time.
pub const NALLOC: usize = 1;

/// The header at the start of every block: the next free block (a unit
/// number; 0 is the list head) and the block's length in units, header
/// included.
#[derive(Copy, Clone)]
pub struct Header {
    pub next: usize,
    pub size: usize,
}

/// A first-fit allocator in the style of Kernighan and Ritchie over an arena
/// of 16-byte units. The free blocks form a circular list, sorted by address
/// and headed by a sentinel of size 0; a roving pointer marks where the next
/// search starts. Blocks are carved from the end of the first block that fits,
/// and freed blocks are merged with free neighbours.
///
/// Unit `u` (from 1) is the 16 bytes at `heap + 16 * (u - 1)`; the header of a
/// block that starts at unit `b` is stored there, and the caller's memory
/// starts at `heap + 16 * b`. The arena grows unit by unit, like `sbrk`.
pub struct KrAlloc {
    /// Byte address of the arena; 0 until `init`.
    heap: u64,
    /// Length of the arena in units.
    end: usize,
    /// Units taken from the arena so far: units `1..=brk`.
    brk: usize,
    /// `mem[0]` is the list head; `mem[u]` is the header stored at unit `u`.
    mem: Vec<Header>,
    /// Whether the free list has been set up (it is, by the first `allocate`).
    ready: bool,
    /// Where the next search starts: the head (0) or a free block.
    freep: usize,
    /// The free blocks, by ascending unit.
    free: Ghost<Seq<int>>,
    /// The position of `freep` among the head and the free blocks.
    fpos: Ghost<int>,
    /// The live allocations: first unit to length in units.
    used: Ghost<Map<int, int>>,
}

/// The units `b..b + n`.
pub open spec fn span(b: int, n: int) -> Set<int> {
    Set::new(|u: int| b <= u < b + n)
}

/// Units that a request of `size` bytes takes: the bytes rounded up to whole
/// units, and one unit for the header.
pub open spec fn units_for(size: int) -> int {
    (size + 15) / 16 + 1
}

impl KrAlloc {
    /// The size field of the header at unit `u`.
    pub closed spec fn sz(&self, u: int) -> int {
        self.mem@[u].size as int
    }

    /// The next field of the header at unit `u`.
    pub closed spec fn nx(&self, u: int) -> int {
        self.mem@[u].next as int
    }

    /// The free blocks, by ascending first unit.
    pub closed spec fn free_list(&self) -> Seq<int> {
        self.free@
    }

    /// The live allocations: first unit of each block to its length in units.
    pub closed spec fn live(&self) -> Map<int, int> {
        self.used@
    }

    /// Byte address of the arena.
    pub closed spec fn base(&self) -> int {
        self.heap as int
    }

    /// Units of the arena.
    pub closed spec fn limit(&self) -> int {
        self.end as int
    }

    /// Units taken from the arena so far.
    pub closed spec fn taken(&self) -> int {
        self.brk as int
    }

    /// Whether `init` has given the allocator an arena.
    pub closed spec fn has_arena(&self) -> bool {
        self.heap != 0
    }

    /// Whether unit `u` lies in a free block.
    pub closed spec fn in_free(&self, u: int) -> bool {
        exists|i: int|
            0 <= i < self.free@.len() && #[trigger] self.free@[i] <= u < self.free@[i] + self.sz(
                self.free@[i],
            )
    }

    /// The free units.
    pub closed spec fn free_units(&self) -> Set<int> {
        Set::new(|u: int| self.in_free(u))
    }

    /// Whether some free block is at least `n` units long.
    pub closed spec fn fits(&self, n: int) -> bool {
        exists|i: int| 0 <= i < self.free@.len() && self.sz(#[trigger] self.free@[i]) >= n
    }

    /// The length in units of the block that starts at unit `b`, as its
    /// header records it.
    pub closed spec fn block_len(&self, b: int) -> int {
        self.sz(b)
    }

    /// The first block, from walk position `w` up to `stop`, at least `n`
    /// units long; 0 when there is none.
    spec fn scan_from(&self, n: int, w: int, stop: int) -> int
        decreases stop + 1 - w,
    {
        if w > stop {
            0
        } else if self.sz(self.at(w)) >= n {
            self.at(w)
        } else {
            self.scan_from(n, w + 1, stop)
        }
    }

    /// The free block that a request for `n` units is carved from when one
    /// fits: the first block at least that long, going round the list from the
    /// one after the roving pointer up to the roving pointer itself.
    pub closed spec fn first_fit(&self, n: int) -> int {
        self.scan_from(n, self.fpos@ + 1, self.fpos@ + self.free@.len() + 1)
    }

    /// Where the next search starts: 0 (the list head) or a free block.
    pub closed spec fn rover(&self) -> int {
        self.freep as int
    }

    /// The last free block that starts below unit `u`, or 0 (the list head)
    /// when there is none.
    pub closed spec fn pred_of(&self, u: int) -> int {
        self.cyc(self.pred_pos(u, self.free@.len() as int))
    }

    /// The first unit of the free block that ends just before unit `u`, or
    /// `u` when no free block does.
    spec fn merged_start(&self, u: int) -> int {
        if exists|i: int| 0 <= i < self.free@.len() && #[trigger] self.free@[i] + self.sz(self.free@[i]) == u {
            choose|c: int| self.free@.contains(c) && c + self.sz(c) == u
        } else {
            u
        }
    }

    /// The first unit of the free block that units taken from the arena next
    /// join: the free block that ends at the break, or the first unit past it.
    pub closed spec fn grow_block(&self) -> int {
        self.merged_start(self.brk + 1)
    }

    /// The address handed out for the block that starts at unit `b`.
    pub open spec fn addr_of(&self, b: int) -> int {
        self.base() + 16 * b
    }

    /// The head (position 0) and the free blocks (positions 1..), in list order.
    spec fn cyc(&self, i: int) -> int {
        if i == 0 {
            0
        } else {
            self.free@[i - 1]
        }
    }

    /// Position `u` of a walk round the list, for `0 <= u` below twice the length.
    spec fn at(&self, u: int) -> int {
        let l = self.free@.len() + 1;
        if u < l {
            self.cyc(u)
        } else {
            self.cyc(u - l)
        }
    }

    spec fn list_ok(&self) -> bool {
        let f = self.free@;
        &&& self.mem@[0].size == 0
        &&& forall|i: int|
            0 <= i < f.len() ==> 1 <= #[trigger] f[i] && self.sz(f[i]) >= 1 && f[i] + self.sz(f[i])
                <= self.brk + 1
        &&& forall|i: int, j: int|
            #![trigger f[i], f[j]]
            0 <= i < j < f.len() ==> f[i] + self.sz(f[i]) < f[j]
        &&& forall|i: int|
            0 <= i < f.len() ==> #[trigger] self.nx(f[i]) == if i + 1 < f.len() {
                f[i + 1]
            } else {
                0
            }
        &&& self.nx(0) == if f.len() > 0 {
            f[0]
        } else {
            0
        }
        &&& 0 <= self.fpos@ <= f.len()
        &&& self.freep == self.cyc(self.fpos@)
    }

    spec fn used_ok(&self) -> bool {
        let f = self.free@;
        let m = self.used@;
        &&& m.dom().finite()
        &&& forall|b: int|
            #[trigger] m.dom().contains(b) ==> 1 <= b && m[b] >= 1 && b + m[b] <= self.brk + 1
                && self.sz(b) == m[b]
        &&& forall|a: int, b: int|
            #![trigger m.dom().contains(a), m.dom().contains(b)]
            m.dom().contains(a) && m.dom().contains(b) && a != b ==> a + m[a] <= b || b + m[b] <= a
        &&& forall|b: int, i: int|
            #![trigger m.dom().contains(b), f[i]]
            m.dom().contains(b) && 0 <= i < f.len() ==> b + m[b] <= f[i] || f[i] + self.sz(f[i])
                <= b
    }

    /// The allocator's invariant.
    pub closed spec fn wf(&self) -> bool {
        &&& self.mem@.len() == self.brk + 1
        &&& self.brk <= self.end
        &&& self.heap + 16 * (self.end + 1) <= u64::MAX
        &&& self.heap == 0 ==> self.end == 0
        &&& self.ready ==> self.list_ok()
        &&& !self.ready ==> self.free@.len() == 0 && self.brk == 0 && self.freep == 0
        &&& self.used_ok()
    }

    /// An allocator with no arena yet; `init` gives it one.
    pub fn new_uninit() -> (r: KrAlloc)
        ensures
            r.wf(),
            !r.has_arena(),
            r.free_units() == Set::<int>::empty(),
            r.live() == Map::<int, int>::empty(),
            r.taken() == 0,
    {
        let mut mem: Vec<Header> = Vec::new();
        mem.push(Header { next: 0, size: 0 });
        let r = KrAlloc {
            heap: 0,
            end: 0,
            brk: 0,
            mem,
            ready: false,
            freep: 0,
            free: Ghost(Seq::empty()),
            fpos: Ghost(0),
            used: Ghost(Map::empty()),
        };
        assert(r.free_units() =~= Set::<int>::empty());
        r
    }

    /// Gives the allocator the arena of `size` bytes at `start`: a whole
    /// number of pages at a 16-byte aligned, non-null address.
    pub fn init(&mut self, start: u64, size: u64)
        requires
            old(self).wf(),
            !old(self).has_arena(),
            size != 0,
            size % PAGESIZE == 0,
            start != 0,
            start % 16 == 0,
            start + size + 16 <= u64::MAX,
            size / 16 < usize::MAX,
        ensures
            final(self).wf(),
            final(self).has_arena(),
            final(self).base() == start,
            final(self).limit() == size / 16,
            final(self).taken() == old(self).taken(),
            final(self).free_units() == old(self).free_units(),
            final(self).live() == old(self).live(),
            final(self).free_list() == old(self).free_list(),
    {
        self.heap = start;
        self.end = (size / 16) as usize;
    }

    /// Takes `nu` units from the arena: the first of them, or `None` when the
    /// arena has fewer left.
    fn sbrk(&mut self, nu: usize) -> (r: Option<usize>)
        requires
            old(self).wf(),
            old(self).ready,
            nu >= 1,
        ensures
            final(self).wf(),
            final(self).heap == old(self).heap && final(self).end == old(self).end,
            final(self).ready == old(self).ready && final(self).freep == old(self).freep,
            final(self).free == old(self).free && final(self).fpos == old(self).fpos,
            final(self).used == old(self).used,
            forall|u: int| 0 <= u <= old(self).brk ==> #[trigger] final(self).mem@[u] == old(self).mem@[u],
            old(self).brk + nu > old(self).end ==> r is None && *final(self) == *old(self),
            old(self).brk + nu <= old(self).end ==> r == Some((old(self).brk + 1) as usize)
                && final(self).brk == old(self).brk + nu,
    {
        if nu > self.end - self.brk {
            return None;
        }
        let b = self.brk + 1;
        let ghost m0 = self.mem@;
        let mut i: usize = 0;
        while i < nu
            invariant
                i <= nu,
                self.mem@.len() == m0.len() + i,
                forall|u: int| 0 <= u < m0.len() ==> #[trigger] self.mem@[u] == m0[u],
                m0 == old(self).mem@,
                self.brk == old(self).brk && self.end == old(self).end && self.heap == old(self).heap,
                self.ready == old(self).ready && self.freep == old(self).freep,
                self.free == old(self).free && self.fpos == old(self).fpos && self.used == old(self).used,
                nu <= self.end - self.brk,
            decreases nu - i,
        {
            self.mem.push(Header { next: 0, size: 0 });
            i = i + 1;
        }
        self.brk = self.brk + nu;
        proof {
            let o = old(self);
            assert forall|u: int| 0 <= u <= o.brk implies #[trigger] self.mem@[u] == o.mem@[u] by {}
            assert forall|u: int| 0 <= u <= o.brk implies self.sz(u) == o.sz(u) && self.nx(u) == o.nx(u) by {
                assert(self.mem@[u] == o.mem@[u]);
            }
            if self.ready {
                assert forall|i: int| 0 <= i < self.free@.len() implies self.sz(#[trigger] self.free@[i])
                    == o.sz(self.free@[i]) && self.nx(self.free@[i]) == o.nx(self.free@[i]) by {
                    assert(self.free@[i] <= o.brk);
                }
                assert(self.mem@[0] == o.mem@[0]);
                assert(self.list_ok());
            }
            assert(self.used_ok());
            assert(self.mem@.len() == self.brk + 1);
            assert forall|b: int| #[trigger] self.used@.dom().contains(b) implies self.sz(b) == o.sz(b) by {
                assert(b <= o.brk);
            }
        }
        Some(b)
    }

    proof fn lemma_cyc_order(&self, i: int, j: int)
        requires
            self.wf(),
            self.ready,
            0 <= i < j <= self.free@.len(),
        ensures
            self.cyc(i) < self.cyc(j),
            1 <= self.cyc(j) <= self.brk,
    {
        if i > 0 {
            assert(self.free@[i - 1] + self.sz(self.free@[i - 1]) < self.free@[j - 1]);
        }
        assert(1 <= self.free@[j - 1]);
    }

    proof fn lemma_at_next(&self, u: int)
        requires
            self.wf(),
            self.ready,
            0 <= u,
            u + 1 < 2 * (self.free@.len() + 1),
        ensures
            self.nx(self.at(u)) == self.at(u + 1),
            0 <= self.at(u) <= self.brk,
    {
        let l = self.free@.len() + 1;
        let i = if u < l { u } else { u - l };
        if i > 0 {
            assert(self.nx(self.free@[i - 1]) == if i < self.free@.len() { self.free@[i] } else { 0 });
            self.lemma_cyc_order(0, i);
        }
    }

    /// Looks once round the list, from the block after the roving pointer up to
    /// and including the roving pointer itself, for the first block of at least
    /// `n` units: that block and the one before it.
    fn find_fit(&self, n: usize) -> (r: Option<(usize, usize)>)
        requires
            self.wf(),
            self.ready,
            n >= 1,
        ensures
            r is None <==> !self.fits(n as int),
            r matches Some((q, p)) ==> exists|u: int|
                self.fpos@ < u <= self.fpos@ + self.free@.len() + 1 && p == #[trigger] self.at(u) && q == self.at(u - 1)
                    && self.sz(p as int) >= n && p != 0 && p <= self.brk
                    && forall|w: int| self.fpos@ < w < u ==> self.sz(#[trigger] self.at(w)) < n,
            r matches Some((q, p)) ==> p == self.first_fit(n as int),
            r matches Some((q, p)) ==> exists|j: int|
                0 <= j < self.free@.len() && p == #[trigger] self.free@[j] && q == self.cyc(j) && self.sz(
                    p as int,
                ) >= n,
    {
        let ghost l = self.free@.len() + 1;
        let ghost f = self.fpos@;
        let mut q = self.freep;
        proof {
            self.lemma_at_next(f);
            assert(self.at(f) == self.cyc(f));
        }
        let mut p = self.mem[q].next;
        let ghost mut u = f + 1;
        loop
            invariant
                self.wf(),
                self.ready,
                n >= 1,
                l == self.free@.len() + 1,
                f == self.fpos@,
                f < u <= f + l,
                p == self.at(u),
                q == self.at(u - 1),
                0 <= p <= self.brk,
                forall|w: int| f < w < u ==> self.sz(#[trigger] self.at(w)) < n,
            decreases f + l - u,
        {
            if self.mem[p].size >= n {
                proof {
                    if p == 0 {
                        assert(self.sz(0) == 0);
                    }
                    let i = if u < l { u } else { u - l };
                    assert(i > 0);
                    assert(self.free@[i - 1] == p);
                    assert(q == self.cyc(i - 1));
                    self.lemma_scan(n as int, f + 1, f + l, u);
                }
                return Some((q, p));
            }
            if p == self.freep {
                proof {
                    let iu = if u < l { u } else { u - l };
                    if iu != f {
                        if iu < f {
                            self.lemma_cyc_order(iu, f);
                        } else {
                            self.lemma_cyc_order(f, iu);
                        }
                    }
                    assert(u == f + l);
                    assert forall|i: int| 0 <= i < self.free@.len() implies self.sz(
                        #[trigger] self.free@[i],
                    ) < n by {
                        let w = if i + 1 > f { i + 1 } else { i + 1 + l };
                        assert(self.at(w) == self.free@[i]);
                    }
                }
                return None;
            }
            proof {
                self.lemma_at_next(u);
            }
            q = p;
            p = self.mem[p].next;
            proof {
                u = u + 1;
            }
        }
    }

    /// The last position, among the first `i + 1`, of the head or a free block
    /// that starts below unit `bp`.
    spec fn pred_pos(&self, bp: int, i: int) -> int
        decreases i,
    {
        if i <= 0 {
            0
        } else if self.cyc(i) < bp {
            i
        } else {
            self.pred_pos(bp, i - 1)
        }
    }

    proof fn lemma_pred_pos(&self, bp: int, i: int)
        requires
            self.wf(),
            self.ready,
            0 <= i <= self.free@.len(),
            bp >= 1,
        ensures
            0 <= self.pred_pos(bp, i) <= i,
            self.cyc(self.pred_pos(bp, i)) < bp,
            forall|j: int| self.pred_pos(bp, i) < j <= i ==> self.cyc(j) >= bp,
        decreases i,
    {
        if i > 0 && self.cyc(i) >= bp {
            self.lemma_pred_pos(bp, i - 1);
        }
    }

    /// `c` is the last free block below `u` (or the head, when none is) exactly
    /// when it is what `pred_of` names.
    proof fn lemma_pred_of(&self, u: int, c: int)
        requires
            self.wf(),
            self.ready,
            u >= 1,
            c < u,
            c == 0 || self.free@.contains(c),
            forall|i: int| 0 <= i < self.free@.len() && #[trigger] self.free@[i] < u ==> self.free@[i] <= c,
        ensures
            self.pred_of(u) == c,
    {
        let len = self.free@.len() as int;
        let t = self.pred_pos(u, len);
        self.lemma_pred_pos(u, len);
        if t > 0 {
            assert(self.free@[t - 1] < u);
            assert(self.free@[t - 1] <= c);
            assert(c != 0);
        }
        if c == 0 {
            if t > 0 {
                assert(self.free@[t - 1] >= 1);
            }
            assert(t == 0);
        } else {
            let k = choose|k: int| 0 <= k < len && self.free@[k] == c;
            assert(self.cyc(k + 1) == c);
            if k + 1 > t {
                assert(self.cyc(k + 1) >= u);
            }
            if k + 1 < t {
                self.lemma_cyc_order(k + 1, t);
                assert(self.free@[t - 1] > c);
            }
            assert(t == k + 1);
        }
    }

    /// What `pred_of(u)` is: below `u`, the head or a free block, and no free
    /// block below `u` comes after it.
    pub proof fn lemma_pred_of_facts(&self, u: int)
        requires
            self.wf(),
            u >= 1,
        ensures
            self.pred_of(u) < u,
            self.pred_of(u) == 0 || self.free_list().contains(self.pred_of(u)),
            forall|i: int| 0 <= i < self.free_list().len() && #[trigger] self.free_list()[i] < u
                ==> self.free_list()[i] <= self.pred_of(u),
    {
        if !self.ready {
            assert(self.pred_of(u) == 0);
            return;
        }
        let len = self.free@.len() as int;
        let t = self.pred_pos(u, len);
        self.lemma_pred_pos(u, len);
        if t > 0 {
            assert(self.free@.contains(self.free@[t - 1]));
        }
        assert forall|i: int| 0 <= i < len && #[trigger] self.free@[i] < u implies self.free@[i] <= self.pred_of(u) by {
            if i + 1 > t {
                assert(self.cyc(i + 1) >= u);
            } else if i + 1 < t {
                self.lemma_cyc_order(i + 1, t);
            }
        }
    }

    /// The free block that ends just before `u` is the one `merged_start(u)`
    /// names.
    proof fn lemma_merged_start(&self, u: int, c: int)
        requires
            self.wf(),
            self.ready,
            self.free@.contains(c),
            c + self.sz(c) == u,
        ensures
            self.merged_start(u) == c,
    {
        let fo = self.free@;
        let a = choose|a: int| 0 <= a < fo.len() && fo[a] == c;
        assert(fo[a] + self.sz(fo[a]) == u);
        let c2 = choose|c2: int| fo.contains(c2) && c2 + self.sz(c2) == u;
        let b = choose|b: int| 0 <= b < fo.len() && fo[b] == c2;
        if a < b {
            assert(fo[a] + self.sz(fo[a]) < fo[b]);
        }
        if b < a {
            assert(fo[b] + self.sz(fo[b]) < fo[a]);
        }
    }

    /// What `grow_block` is: the free block that ends at the break, when one
    /// does, else the first unit past the break.
    pub proof fn lemma_grow_block(&self)
        requires
            self.wf(),
        ensures
            (exists|c: int| self.free_list().contains(c) && c + #[trigger] self.block_len(c) == self.taken() + 1) ==> ({
                &&& self.free_list().contains(self.grow_block())
                &&& self.grow_block() + self.block_len(self.grow_block()) == self.taken() + 1
            }),
            !(exists|c: int| self.free_list().contains(c) && c + #[trigger] self.block_len(c) == self.taken() + 1)
                ==> self.grow_block() == self.taken() + 1,
    {
        let fo = self.free@;
        if exists|c: int| self.free_list().contains(c) && c + #[trigger] self.block_len(c) == self.taken() + 1 {
            let c = choose|c: int| self.free_list().contains(c) && c + #[trigger] self.block_len(c) == self.taken() + 1;
            let k = choose|k: int| 0 <= k < fo.len() && fo[k] == c;
            assert(fo[k] + self.sz(fo[k]) == self.brk + 1);
            assert(self.ready);
            self.lemma_merged_start(self.brk + 1, c);
        } else {
            assert forall|k: int| 0 <= k < fo.len() implies #[trigger] fo[k] + self.sz(fo[k]) != self.brk + 1 by {
                assert(fo.contains(fo[k]));
                if fo[k] + self.sz(fo[k]) == self.brk + 1 {
                    assert(self.free_list().contains(fo[k]) && fo[k] + self.block_len(fo[k]) == self.taken() + 1);
                }
            }
        }
    }

    /// Two allocators with the same free blocks below `u` agree on `pred_of(u)`.
    proof fn lemma_pred_of_same(&self, o: KrAlloc, u: int)
        requires
            self.wf(),
            self.ready,
            o.wf(),
            o.ready,
            u >= 1,
            forall|x: int| x < u ==> (self.free@.contains(x) <==> o.free@.contains(x)),
        ensures
            self.pred_of(u) == o.pred_of(u),
    {
        o.lemma_pred_of_facts(u);
        let c = o.pred_of(u);
        assert forall|i: int| 0 <= i < self.free@.len() && #[trigger] self.free@[i] < u implies self.free@[i] <= c by {
            let x = self.free@[i];
            assert(self.free@.contains(x));
            let k = choose|k: int| 0 <= k < o.free@.len() && o.free@[k] == x;
            assert(o.free_list()[k] < u);
        }
        self.lemma_pred_of(u, c);
    }

    /// Whether the `s` units from `bp` lie in the part of the arena taken so
    /// far, clear of every free block and every live allocation.
    spec fn is_clear(&self, bp: int, s: int) -> bool {
        &&& 1 <= bp
        &&& s >= 1
        &&& bp + s <= self.brk + 1
        &&& forall|i: int|
            0 <= i < self.free@.len() ==> bp + s <= #[trigger] self.free@[i] || self.free@[i] + self.sz(
                self.free@[i],
            ) <= bp
        &&& forall|b: int|
            #[trigger] self.used@.dom().contains(b) ==> b + self.used@[b] <= bp || bp + s <= b
    }

    /// Puts the block at unit `bp` (its header holds its length) on the free
    /// list, merged with a free block that ends where it starts and with one
    /// that starts where it ends; the roving pointer moves to the block before.
    #[verifier::rlimit(40)]
    fn free_block(&mut self, bp: usize)
        requires
            old(self).wf(),
            old(self).ready,
            old(self).is_clear(bp as int, old(self).sz(bp as int)),
        ensures
            final(self).wf(),
            final(self).ready,
            final(self).heap == old(self).heap && final(self).end == old(self).end,
            final(self).brk == old(self).brk,
            final(self).used == old(self).used,
            final(self).free_units() == old(self).free_units().union(span(bp as int, old(self).sz(bp as int))),
            final(self).rover() == old(self).pred_of(bp as int),
            final(self).pred_of(old(self).merged_start(bp as int)) == old(self).pred_of(old(self).merged_start(bp as int)),
            exists|i: int|
                0 <= i < final(self).free@.len() && #[trigger] final(self).free@[i] <= bp && bp + old(self).sz(
                    bp as int,
                ) <= final(self).free@[i] + final(self).sz(final(self).free@[i])
                && final(self).free@[i] == old(self).merged_start(bp as int) && forall|k: int|
                    0 <= k < final(self).free@.len() && k != i ==> old(self).free@.contains(
                        #[trigger] final(self).free@[k],
                    ) && old(self).sz(final(self).free@[k]) == final(self).sz(final(self).free@[k]),
    {
        let ghost o = *self;
        let ghost fo = o.free@;
        let ghost l = fo.len() + 1;
        let ghost t = o.pred_pos(bp as int, l - 1);
        proof {
            o.lemma_pred_pos(bp as int, l - 1);
        }
        let s = self.mem[bp].size;
        let mut p = self.freep;
        let ghost f = o.fpos@;
        let ghost ut = if t >= f { t } else { t + l };
        let ghost mut u = f;
        loop
            invariant
                *self == o,
                o.wf(),
                o.ready,
                o.is_clear(bp as int, s as int),
                s == o.sz(bp as int),
                fo == o.free@,
                l == fo.len() + 1,
                f == o.fpos@,
                0 <= t < l,
                o.cyc(t) < bp,
                forall|j: int| t < j < l ==> o.cyc(j) >= bp,
                ut == if t >= f { t } else { t + l },
                f <= u <= ut,
                p == o.at(u),
            ensures
                p == o.cyc(t),
            decreases ut - u,
        {
            proof {
                o.lemma_at_next(u);
                if t + 1 < l {
                    assert(fo[t] == o.cyc(t + 1));
                    assert(o.cyc(t + 1) != bp);
                }
            }
            let nxt = self.mem[p].next;
            if bp > p && bp < nxt {
                proof {
                    let pi = if u < l { u } else { u - l };
                    if pi < t {
                        o.lemma_cyc_order(pi + 1, t);
                    }
                }
                break;
            }
            if p >= nxt && (bp > p || bp < nxt) {
                proof {
                    let pi = if u < l { u } else { u - l };
                    if pi + 1 < l {
                        o.lemma_cyc_order(pi, pi + 1);
                    }
                }
                break;
            }
            proof {
                let pi = if u < l { u } else { u - l };
                if pi == t {
                    if t + 1 < l {
                        assert(o.cyc(t + 1) > bp);
                    }
                    assert(false);
                }
                assert(u != ut);
            }
            p = nxt;
            proof {
                u = u + 1;
            }
        }
        proof {
            if t > 0 {
                o.lemma_cyc_order(0, t);
                assert(fo[t - 1] == o.cyc(t));
            }
            if t + 1 < l {
                assert(fo[t] == o.cyc(t + 1));
                assert(o.cyc(t + 1) != bp);
                assert(fo[t] > bp);
                assert(bp + s <= fo[t]);
            }
            if t > 0 {
                assert(fo[t - 1] + o.sz(fo[t - 1]) <= bp);
            }
        }
        let nxt = self.mem[p].next;
        proof {
            if t == 0 {
                assert(nxt == if fo.len() > 0 { fo[0] } else { 0 });
            } else {
                assert(o.nx(fo[t - 1]) == if t < fo.len() { fo[t] } else { 0 });
            }
        }
        let mlen = self.mem.len();
        assert(bp + s <= mlen);
        let up = bp + s == nxt;
        let bsz: usize;
        let bnext: usize;
        if up {
            bsz = s + self.mem[nxt].size;
            bnext = self.mem[nxt].next;
        } else {
            bsz = s;
            bnext = nxt;
        }
        self.mem.set(bp, Header { next: bnext, size: bsz });
        let psz = self.mem[p].size;
        let low = p + psz == bp;
        if low {
            self.mem.set(p, Header { next: bnext, size: psz + bsz });
        } else {
            self.mem.set(p, Header { next: bp, size: psz });
        }
        self.freep = p;
        proof {
            self.fpos@ = t;
            if up && low {
                self.free@ = fo.remove(t);
            } else if up {
                self.free@ = fo.update(t, bp as int);
            } else if !low {
                self.free@ = fo.insert(t, bp as int);
            }
            assert(self.freed_from(o, bp as int, t, up, low));
            if up && low {
                self.lemma_fb_both(o, bp as int, t);
            } else if up {
                self.lemma_fb_up(o, bp as int, t);
            } else if low {
                self.lemma_fb_low(o, bp as int, t);
            } else {
                self.lemma_fb_insert(o, bp as int, t);
            }
            self.lemma_fb_kept(o, bp as int, t, up, low);
            let i = if low { t - 1 } else { t };
            assert(0 <= i < self.free@.len() && self.free@[i] <= bp && bp + o.sz(bp as int) <= self.free@[i]
                + self.sz(self.free@[i]));
            self.lemma_fb_merged(o, bp as int, t, up, low);
        }
    }

    /// `self` is `o` after the block at `bp`, whose predecessor on the list is
    /// at position `t`, has been put on the free list, merged above when `up`
    /// and below when `low`.
    spec fn freed_from(&self, o: KrAlloc, bp: int, t: int, up: bool, low: bool) -> bool {
        let fo = o.free@;
        let n = fo.len();
        let s = o.sz(bp);
        let p = o.cyc(t);
        let nxt = if t < n { fo[t] } else { 0 };
        let bsz = if up { s + o.sz(nxt) } else { s };
        let bnext = if up { o.nx(nxt) } else { nxt };
        &&& o.wf()
        &&& o.ready
        &&& o.is_clear(bp, s)
        &&& 0 <= t <= n
        &&& p < bp
        &&& forall|j: int| t < j <= n ==> o.cyc(j) >= bp
        &&& up == (bp + s == nxt)
        &&& low == (p + o.sz(p) == bp)
        &&& self.mem@.len() == o.mem@.len()
        &&& forall|x: int|
            0 <= x < self.mem@.len() && x != p && x != bp ==> #[trigger] self.mem@[x] == o.mem@[x]
        &&& self.sz(bp) == bsz
        &&& self.nx(bp) == bnext
        &&& self.sz(p) == if low { o.sz(p) + bsz } else { o.sz(p) }
        &&& self.nx(p) == if low { bnext } else { bp }
        &&& self.heap == o.heap && self.end == o.end && self.brk == o.brk && self.used == o.used
        &&& self.ready
        &&& self.freep == p
        &&& self.fpos@ == t
        &&& self.free@ == if up && low {
            fo.remove(t)
        } else if up {
            fo.update(t, bp)
        } else if low {
            fo
        } else {
            fo.insert(t, bp)
        }
    }

    /// After a block is freed: the block that holds it starts where the free
    /// block ending at it started (or at it), the free blocks below that start
    /// are those of before, and the roving pointer is the block before it.
    #[verifier::rlimit(40)]
    proof fn lemma_fb_merged(&self, o: KrAlloc, bp: int, t: int, up: bool, low: bool)
        requires
            self.freed_from(o, bp, t, up, low),
            self.wf(),
            t == o.pred_pos(bp, o.free@.len() as int),
        ensures
            self.rover() == o.pred_of(bp),
            self.free@[if low { t - 1 } else { t }] == o.merged_start(bp),
            self.pred_of(o.merged_start(bp)) == o.pred_of(o.merged_start(bp)),
    {
        let fo = o.free@;
        let n = fo.len() as int;
        let p = o.cyc(t);
        o.lemma_pred_pos(bp, n);
        assert(o.mem@[0].size == 0);
        let m = if low { p } else { bp };
        if low {
            assert(t > 0);
            assert(fo[t - 1] + o.sz(fo[t - 1]) == bp);
            assert(fo.contains(fo[t - 1]));
            let c = choose|c: int| fo.contains(c) && c + o.sz(c) == bp;
            let k = choose|k: int| 0 <= k < n && fo[k] == c;
            if k < t - 1 {
                o.lemma_cyc_order(k + 1, t);
                assert(fo[k] + o.sz(fo[k]) < fo[t - 1]);
            }
            if k > t - 1 {
                assert(o.cyc(k + 1) >= bp);
            }
            assert(o.merged_start(bp) == p);
        } else {
            assert forall|k: int| 0 <= k < n implies #[trigger] fo[k] + o.sz(fo[k]) != bp by {
                if k < t - 1 {
                    o.lemma_cyc_order(k + 1, t);
                    assert(fo[k] + o.sz(fo[k]) < fo[t - 1]);
                } else if k > t - 1 {
                    assert(o.cyc(k + 1) >= bp);
                    assert(o.sz(fo[k]) >= 1);
                }
            }
            assert(o.merged_start(bp) == bp);
        }
        assert(m >= 1) by {
            if low {
                assert(p >= 1);
            }
        }
        assert forall|x: int| x < m implies (self.free@.contains(x) <==> fo.contains(x)) by {
            if fo.contains(x) {
                let k = choose|k: int| 0 <= k < n && fo[k] == x;
                if k >= t {
                    assert(o.cyc(k + 1) >= bp);
                }
                assert(k < t);
                if up && low {
                    assert(fo.remove(t)[k] == x);
                } else if up {
                    assert(fo.update(t, bp)[k] == x);
                } else if !low {
                    assert(fo.insert(t, bp)[k] == x);
                }
                assert(self.free@[k] == x);
            }
            if self.free@.contains(x) {
                let k = choose|k: int| 0 <= k < self.free@.len() && self.free@[k] == x;
                if up && low {
                    if k < t {
                        assert(fo[k] == x);
                    } else {
                        assert(fo[k + 1] == x);
                    }
                } else if up {
                    if k != t {
                        assert(fo[k] == x);
                    }
                } else if !low {
                    if k < t {
                        assert(fo[k] == x);
                    } else if k > t {
                        assert(fo[k - 1] == x);
                    }
                } else {
                    assert(fo[k] == x);
                }
            }
        }
        self.lemma_pred_of_same(o, m);
    }

    #[verifier::rlimit(80)]
    proof fn lemma_fb_common(&self, o: KrAlloc, bp: int, t: int, up: bool, low: bool)
        requires
            self.freed_from(o, bp, t, up, low),
        ensures
            ({
                let fo = o.free@;
                let n = fo.len();
                let s = o.sz(bp);
                let p = o.cyc(t);
                &&& s >= 1 && bp >= 1 && bp + s <= o.brk + 1
                &&& t > 0 ==> fo[t - 1] == p && p >= 1 && o.sz(p) >= 1 && p + o.sz(p) <= bp
                &&& t == 0 ==> p == 0 && o.sz(p) == 0 && !low
                &&& forall|i: int| 0 <= i < t ==> #[trigger] fo[i] <= p && fo[i] + o.sz(fo[i]) <= bp
                &&& forall|i: int| 0 <= i < t - 1 ==> #[trigger] fo[i] + o.sz(fo[i]) < p
                &&& forall|i: int| t <= i < n ==> #[trigger] fo[i] > bp && bp + s <= fo[i]
                &&& forall|i: int| t < i < n ==> #[trigger] fo[i] > fo[t] + o.sz(fo[t])
                &&& up ==> t < n
                &&& low ==> t > 0
                &&& forall|x: int| 0 <= x <= o.brk && x != p && x != bp ==> self.sz(x) == o.sz(x) && self.nx(x) == o.nx(x)
                &&& forall|b: int| #[trigger] o.used@.dom().contains(b) ==> b != p && b != bp && b >= 1
            }),
    {
        let fo = o.free@;
        let n = fo.len();
        let s = o.sz(bp);
        let p = o.cyc(t);
        if t > 0 {
            o.lemma_cyc_order(0, t);
            assert(fo[t - 1] == p);
        }
        assert forall|i: int| 0 <= i < t implies #[trigger] fo[i] <= p && fo[i] + o.sz(fo[i]) <= bp by {
            if i < t - 1 {
                assert(fo[i] + o.sz(fo[i]) < fo[t - 1]);
            }
        }
        assert forall|i: int| 0 <= i < t - 1 implies #[trigger] fo[i] + o.sz(fo[i]) < p by {
            assert(fo[i] + o.sz(fo[i]) < fo[t - 1]);
        }
        assert forall|i: int| t <= i < n implies #[trigger] fo[i] > bp && bp + s <= fo[i] by {
            assert(o.cyc(i + 1) == fo[i]);
        }
        assert forall|i: int| t < i < n implies #[trigger] fo[i] > fo[t] + o.sz(fo[t]) by {
            assert(fo[t] + o.sz(fo[t]) < fo[i]);
        }
        assert forall|x: int| 0 <= x <= o.brk && x != p && x != bp implies self.sz(x) == o.sz(x) && self.nx(x)
            == o.nx(x) by {
            assert(self.mem@[x] == o.mem@[x]);
        }
        assert forall|b: int| #[trigger] o.used@.dom().contains(b) implies b != p && b != bp && b >= 1 by {
            if t > 0 {
                assert(b + o.used@[b] <= fo[t - 1] || fo[t - 1] + o.sz(fo[t - 1]) <= b);
            }
        }
    }

    /// The block goes on the list on its own.
    #[verifier::rlimit(100)]
    #[verifier::spinoff_prover]
    proof fn lemma_fb_insert(&self, o: KrAlloc, bp: int, t: int)
        requires
            self.freed_from(o, bp, t, false, false),
        ensures
            self.list_ok(),
            self.used_ok(),
            self.free_units() == o.free_units().union(span(bp, o.sz(bp))),
            t < self.free@.len() && self.free@[t] == bp && self.sz(bp) == o.sz(bp),
    {
        self.lemma_fb_common(o, bp, t, false, false);
        let fo = o.free@;
        let g = self.free@;
        let n = fo.len();
        let s = o.sz(bp);
        let p = o.cyc(t);
        assert forall|i: int| 0 <= i < g.len() implies self.sz(#[trigger] g[i]) == o.sz(g[i]) && g[i]
            == if i < t { fo[i] } else if i == t { bp } else { fo[i - 1] } by {
            if i < t {
                assert(g[i] == fo[i]);
            } else if i > t {
                assert(g[i] == fo[i - 1]);
            }
        }
        assert forall|i: int| 0 <= i < g.len() implies 1 <= #[trigger] g[i] && self.sz(g[i]) >= 1 && g[i]
            + self.sz(g[i]) <= self.brk + 1 by {
            if i < t {
                assert(g[i] == fo[i]);
            } else if i > t {
                assert(g[i] == fo[i - 1]);
            }
        }
        assert forall|i: int, j: int| #![trigger g[i], g[j]] 0 <= i < j < g.len() implies g[i] + self.sz(g[i]) < g[j] by {
            assert(self.sz(g[i]) == o.sz(g[i]));
            if j < t {
                assert(fo[i] + o.sz(fo[i]) < fo[j]);
            } else if j == t {
                if i < t - 1 {
                    assert(fo[i] + o.sz(fo[i]) < p);
                }
            } else if i == t {
                assert(g[j] == fo[j - 1]);
                if j - 1 > t {
                    assert(fo[j - 1] > fo[t] + o.sz(fo[t]));
                }
            } else if i < t {
                assert(g[j] == fo[j - 1]);
                assert(fo[i] + o.sz(fo[i]) <= bp);
            } else {
                assert(fo[i - 1] + o.sz(fo[i - 1]) < fo[j - 1]);
            }
        }
        assert forall|i: int| 0 <= i < g.len() implies #[trigger] self.nx(g[i]) == if i + 1 < g.len() {
            g[i + 1]
        } else {
            0
        } by {
            if i < t - 1 {
                assert(g[i] == fo[i] && g[i + 1] == fo[i + 1]);
                assert(o.nx(fo[i]) == fo[i + 1]);
            } else if i == t - 1 {
            } else if i == t {
                if t < n {
                    assert(g[t + 1] == fo[t]);
                }
            } else {
                assert(g[i] == fo[i - 1]);
                assert(o.nx(fo[i - 1]) == if i < n { fo[i] } else { 0 });
                if i + 1 < g.len() {
                    assert(g[i + 1] == fo[i]);
                }
            }
        }
        if t > 0 {
            assert(self.nx(0) == o.nx(0));
            assert(g[0] == fo[0]);
        }
        assert(self.mem@[0].size == 0) by {
            if t > 0 {
                assert(self.mem@[0] == o.mem@[0]);
            }
        }
        assert(self.freep == self.cyc(self.fpos@)) by {
            if t > 0 {
                assert(g[t - 1] == fo[t - 1]);
            }
        }
        assert forall|b: int| #[trigger] self.used@.dom().contains(b) implies self.sz(b) == self.used@[b] by {
            assert(o.sz(b) == o.used@[b]);
        }
        assert forall|b: int, i: int|
            #![trigger self.used@.dom().contains(b), g[i]]
            self.used@.dom().contains(b) && 0 <= i < g.len() implies b + self.used@[b] <= g[i] || g[i]
            + self.sz(g[i]) <= b by {
            if i < t {
                assert(g[i] == fo[i]);
            } else if i > t {
                assert(g[i] == fo[i - 1]);
            }
        }
        assert forall|x: int| self.in_free(x) <==> o.in_free(x) || (bp <= x < bp + s) by {
            if o.in_free(x) {
                let i = choose|i: int| 0 <= i < n && #[trigger] fo[i] <= x < fo[i] + o.sz(fo[i]);
                let i2 = if i < t { i } else { i + 1 };
                assert(g[i2] == fo[i]);
            }
            if bp <= x < bp + s {
                assert(g[t] == bp);
            }
            if self.in_free(x) {
                let i = choose|i: int| 0 <= i < g.len() && #[trigger] g[i] <= x < g[i] + self.sz(g[i]);
                if i < t {
                    assert(fo[i] == g[i]);
                } else if i > t {
                    assert(fo[i - 1] == g[i]);
                }
            }
        }
        assert(self.free_units() =~= o.free_units().union(span(bp, s)));
    }

    /// The block joins the free block that ends where it starts.
    proof fn lemma_fb_low(&self, o: KrAlloc, bp: int, t: int)
        requires
            self.freed_from(o, bp, t, false, true),
        ensures
            self.list_ok(),
            self.used_ok(),
            self.free_units() == o.free_units().union(span(bp, o.sz(bp))),
            0 < t <= self.free@.len() && self.free@[t - 1] <= bp && bp + o.sz(bp) <= self.free@[t - 1]
                + self.sz(self.free@[t - 1]),
    {
        self.lemma_fb_common(o, bp, t, false, true);
        let fo = o.free@;
        let g = self.free@;
        let n = fo.len();
        let s = o.sz(bp);
        let p = o.cyc(t);
        assert forall|i: int| 0 <= i < n implies #[trigger] g[i] == fo[i] && fo[i] != bp && self.sz(fo[i]) == if i
            == t - 1 { o.sz(p) + s } else { o.sz(fo[i]) } && self.nx(fo[i]) == o.nx(fo[i]) by {
            if i >= t {
                assert(fo[i] > bp);
            }
        }
        assert forall|i: int| 0 <= i < g.len() implies 1 <= #[trigger] g[i] && self.sz(g[i]) >= 1 && g[i]
            + self.sz(g[i]) <= self.brk + 1 by {}
        assert forall|i: int, j: int| #![trigger g[i], g[j]] 0 <= i < j < g.len() implies g[i] + self.sz(g[i]) < g[j] by {
            if i == t - 1 {
                if j > t {
                    assert(fo[j] > fo[t]);
                }
            } else if j == t - 1 {
            } else {
                assert(fo[i] + o.sz(fo[i]) < fo[j]);
            }
        }
        assert forall|i: int| 0 <= i < g.len() implies #[trigger] self.nx(g[i]) == if i + 1 < g.len() {
            g[i + 1]
        } else {
            0
        } by {
            assert(o.nx(fo[i]) == if i + 1 < n { fo[i + 1] } else { 0 });
        }
        assert(self.nx(0) == o.nx(0));
        assert(self.mem@[0] == o.mem@[0]);
        assert forall|b: int| #[trigger] self.used@.dom().contains(b) implies self.sz(b) == self.used@[b] by {
            assert(o.sz(b) == o.used@[b]);
        }
        assert forall|b: int, i: int|
            #![trigger self.used@.dom().contains(b), g[i]]
            self.used@.dom().contains(b) && 0 <= i < g.len() implies b + self.used@[b] <= g[i] || g[i]
            + self.sz(g[i]) <= b by {
            assert(b + o.used@[b] <= fo[i] || fo[i] + o.sz(fo[i]) <= b);
        }
        assert forall|x: int| self.in_free(x) <==> o.in_free(x) || (bp <= x < bp + s) by {
            if o.in_free(x) {
                let i = choose|i: int| 0 <= i < n && #[trigger] fo[i] <= x < fo[i] + o.sz(fo[i]);
                assert(g[i] == fo[i]);
            }
            if bp <= x < bp + s {
                assert(g[t - 1] == p);
            }
            if self.in_free(x) {
                let i = choose|i: int| 0 <= i < g.len() && #[trigger] g[i] <= x < g[i] + self.sz(g[i]);
                assert(fo[i] == g[i]);
            }
        }
        assert(self.free_units() =~= o.free_units().union(span(bp, s)));
    }

    /// The block joins the free block that starts where it ends.
    proof fn lemma_fb_up(&self, o: KrAlloc, bp: int, t: int)
        requires
            self.freed_from(o, bp, t, true, false),
        ensures
            self.list_ok(),
            self.used_ok(),
            self.free_units() == o.free_units().union(span(bp, o.sz(bp))),
            t < self.free@.len() && self.free@[t] == bp && bp + o.sz(bp) <= bp + self.sz(bp),
    {
        self.lemma_fb_common(o, bp, t, true, false);
        let fo = o.free@;
        let g = self.free@;
        let n = fo.len();
        let s = o.sz(bp);
        let p = o.cyc(t);
        let nxt = fo[t];
        assert(self.sz(bp) == s + o.sz(nxt));
        assert forall|i: int| 0 <= i < g.len() implies #[trigger] g[i] == (if i == t { bp } else { fo[i] })
            && self.sz(g[i]) == (if i == t { s + o.sz(nxt) } else { o.sz(fo[i]) }) by {
            if i > t {
                assert(fo[i] > bp);
            }
        }
        assert forall|i: int| 0 <= i < g.len() implies 1 <= #[trigger] g[i] && self.sz(g[i]) >= 1 && g[i]
            + self.sz(g[i]) <= self.brk + 1 by {}
        assert forall|i: int, j: int| #![trigger g[i], g[j]] 0 <= i < j < g.len() implies g[i] + self.sz(g[i]) < g[j] by {
            if i == t {
                assert(fo[j] > fo[t] + o.sz(fo[t]));
            } else if j == t {
                if i < t - 1 {
                    assert(fo[i] + o.sz(fo[i]) < p);
                }
            } else {
                assert(fo[i] + o.sz(fo[i]) < fo[j]);
            }
        }
        assert forall|i: int| 0 <= i < g.len() implies #[trigger] self.nx(g[i]) == if i + 1 < g.len() {
            g[i + 1]
        } else {
            0
        } by {
            if i == t {
                assert(o.nx(fo[t]) == if t + 1 < n { fo[t + 1] } else { 0 });
            } else if i == t - 1 {
            } else {
                assert(o.nx(fo[i]) == if i + 1 < n { fo[i + 1] } else { 0 });
                if i > t {
                    assert(fo[i] > bp);
                }
            }
        }
        if t > 0 {
            assert(self.nx(0) == o.nx(0));
            assert(self.mem@[0] == o.mem@[0]);
        }
        assert(self.freep == self.cyc(self.fpos@));
        assert forall|b: int| #[trigger] self.used@.dom().contains(b) implies self.sz(b) == self.used@[b] by {
            assert(o.sz(b) == o.used@[b]);
        }
        assert forall|b: int, i: int|
            #![trigger self.used@.dom().contains(b), g[i]]
            self.used@.dom().contains(b) && 0 <= i < g.len() implies b + self.used@[b] <= g[i] || g[i]
            + self.sz(g[i]) <= b by {
            assert(b + o.used@[b] <= fo[i] || fo[i] + o.sz(fo[i]) <= b);
        }
        assert forall|x: int| self.in_free(x) <==> o.in_free(x) || (bp <= x < bp + s) by {
            if o.in_free(x) {
                let i = choose|i: int| 0 <= i < n && #[trigger] fo[i] <= x < fo[i] + o.sz(fo[i]);
                assert(g[i] == (if i == t { bp } else { fo[i] }));
            }
            if bp <= x < bp + s {
                assert(g[t] == bp);
            }
            if self.in_free(x) {
                let i = choose|i: int| 0 <= i < g.len() && #[trigger] g[i] <= x < g[i] + self.sz(g[i]);
                if i != t {
                    assert(fo[i] == g[i]);
                } else {
                    assert(fo[t] == nxt);
                }
            }
        }
        assert(self.free_units() =~= o.free_units().union(span(bp, s)));
    }

    /// The block joins both free neighbours into one.
    #[verifier::rlimit(100)]
    #[verifier::spinoff_prover]
    proof fn lemma_fb_both(&self, o: KrAlloc, bp: int, t: int)
        requires
            self.freed_from(o, bp, t, true, true),
        ensures
            self.list_ok(),
            self.used_ok(),
            self.free_units() == o.free_units().union(span(bp, o.sz(bp))),
            0 < t <= self.free@.len() && self.free@[t - 1] <= bp && bp + o.sz(bp) <= self.free@[t - 1]
                + self.sz(self.free@[t - 1]),
    {
        self.lemma_fb_common(o, bp, t, true, true);
        let fo = o.free@;
        let g = self.free@;
        let n = fo.len();
        let s = o.sz(bp);
        let p = o.cyc(t);
        let nxt = fo[t];
        assert forall|i: int| 0 <= i < g.len() implies #[trigger] g[i] == (if i < t { fo[i] } else { fo[i + 1] })
            && self.sz(g[i]) == (if i == t - 1 { o.sz(p) + s + o.sz(nxt) } else if i < t { o.sz(fo[i]) } else {
            o.sz(fo[i + 1]) }) by {
            if i >= t {
                assert(fo[i + 1] > bp);
            }
        }
        assert forall|i: int| 0 <= i < g.len() implies 1 <= #[trigger] g[i] && self.sz(g[i]) >= 1 && g[i]
            + self.sz(g[i]) <= self.brk + 1 by {}
        assert forall|i: int, j: int| #![trigger g[i], g[j]] 0 <= i < j < g.len() implies g[i] + self.sz(g[i]) < g[j] by {
            if i == t - 1 {
                assert(fo[j + 1] > fo[t] + o.sz(fo[t]));
            } else if j == t - 1 {
            } else if j < t {
                assert(fo[i] + o.sz(fo[i]) < fo[j]);
            } else if i < t {
                assert(fo[i] + o.sz(fo[i]) < fo[j + 1]);
            } else {
                assert(fo[i + 1] + o.sz(fo[i + 1]) < fo[j + 1]);
            }
        }
        assert forall|i: int| 0 <= i < g.len() implies #[trigger] self.nx(g[i]) == if i + 1 < g.len() {
            g[i + 1]
        } else {
            0
        } by {
            if i == t - 1 {
                assert(o.nx(fo[t]) == if t + 1 < n { fo[t + 1] } else { 0 });
            } else if i < t - 1 {
                assert(o.nx(fo[i]) == fo[i + 1]);
            } else {
                assert(o.nx(fo[i + 1]) == if i + 2 < n { fo[i + 2] } else { 0 });
                assert(fo[i + 1] > bp);
            }
        }
        assert(self.nx(0) == o.nx(0));
        assert(self.mem@[0] == o.mem@[0]);
        assert(self.freep == self.cyc(self.fpos@));
        assert forall|b: int| #[trigger] self.used@.dom().contains(b) implies self.sz(b) == self.used@[b] by {
            assert(o.sz(b) == o.used@[b]);
        }
        assert forall|b: int, i: int|
            #![trigger self.used@.dom().contains(b), g[i]]
            self.used@.dom().contains(b) && 0 <= i < g.len() implies b + self.used@[b] <= g[i] || g[i]
            + self.sz(g[i]) <= b by {
            if i < t {
                assert(b + o.used@[b] <= fo[i] || fo[i] + o.sz(fo[i]) <= b);
            }
            if i >= t - 1 {
                assert(b + o.used@[b] <= fo[i + 1] || fo[i + 1] + o.sz(fo[i + 1]) <= b);
            }
        }
        assert forall|x: int| self.in_free(x) <==> o.in_free(x) || (bp <= x < bp + s) by {
            if o.in_free(x) {
                let i = choose|i: int| 0 <= i < n && #[trigger] fo[i] <= x < fo[i] + o.sz(fo[i]);
                let i2 = if i < t { i } else if i == t { t - 1 } else { i - 1 };
                assert(g[i2] == (if i2 < t { fo[i2] } else { fo[i2 + 1] }));
            }
            if bp <= x < bp + s {
                assert(g[t - 1] == p);
            }
            if self.in_free(x) {
                let i = choose|i: int| 0 <= i < g.len() && #[trigger] g[i] <= x < g[i] + self.sz(g[i]);
                if i < t - 1 {
                    assert(fo[i] == g[i]);
                } else if i == t - 1 {
                    assert(fo[t - 1] == g[i]);
                    assert(fo[t] == nxt);
                } else {
                    assert(fo[i + 1] == g[i]);
                }
            }
        }
        assert(self.free_units() =~= o.free_units().union(span(bp, s)));
    }

    /// Grows the arena by `nu` units (at least `NALLOC`) and frees them, so
    /// that some free block is at least that long; `false`, with nothing
    /// changed, when the arena has fewer units left.
    #[verifier::rlimit(60)]
    #[verifier::spinoff_prover]
    fn morecore(&mut self, nu: usize) -> (r: bool)
        requires
            old(self).wf(),
            old(self).ready,
            nu >= NALLOC,
        ensures
            final(self).wf(),
            final(self).ready,
            final(self).heap == old(self).heap && final(self).end == old(self).end,
            final(self).used == old(self).used,
            r == (old(self).brk + nu <= old(self).end),
            !r ==> *final(self) == *old(self),
            r ==> final(self).brk == old(self).brk + nu && final(self).fits(nu as int)
                && final(self).free_units() == old(self).free_units().union(span(old(self).brk + 1, nu as int)),
            r ==> final(self).pred_of(old(self).grow_block()) == old(self).pred_of(old(self).grow_block()),
            r ==> exists|i: int|
                0 <= i < final(self).free@.len() && #[trigger] final(self).free@[i] + final(self).sz(
                    final(self).free@[i],
                ) == final(self).brk + 1 && final(self).sz(final(self).free@[i]) >= nu
                && final(self).free@[i] == old(self).grow_block() && forall|k: int|
                    0 <= k < final(self).free@.len() && k != i ==> old(self).free@.contains(
                        #[trigger] final(self).free@[k],
                    ) && old(self).sz(final(self).free@[k]) == final(self).sz(final(self).free@[k]),
    {
        let mut nu = nu;
        if nu < NALLOC {
            nu = NALLOC;
        }
        match self.sbrk(nu) {
            None => false,
            Some(up) => {
                let ghost o1 = *self;
                let h = self.mem[up];
                self.mem.set(up, Header { next: h.next, size: nu });
                proof {
                    let o = old(self);
                    assert forall|x: int| 0 <= x <= o.brk implies self.sz(x) == o.sz(x) && self.nx(x) == o.nx(x) by {
                        assert(self.mem@[x] == o1.mem@[x]);
                        assert(o1.mem@[x] == o.mem@[x]);
                    }
                    assert forall|i: int| 0 <= i < self.free@.len() implies #[trigger] self.free@[i] <= o.brk by {}
                    assert forall|i: int| 0 <= i < self.free@.len() implies #[trigger] self.nx(self.free@[i]) == o.nx(self.free@[i]) by {
                        assert(self.free@[i] <= o.brk);
                    }
                    assert(self.mem@[0] == o.mem@[0]);
                    assert(self.list_ok());
                    assert forall|b: int| #[trigger] self.used@.dom().contains(b) implies self.sz(b) == self.used@[b] by {
                        assert(b <= o.brk);
                    }
                    assert(self.used_ok());
                    assert(self.is_clear(up as int, nu as int));
                }
                let ghost o2 = *self;
                self.free_block(up);
                proof {
                    assert(self.free_units() =~= old(self).free_units().union(span(old(self).brk + 1, nu as int)));
                    let i = choose|i: int|
                        0 <= i < self.free@.len() && #[trigger] self.free@[i] <= up && up + o2.sz(up as int)
                            <= self.free@[i] + self.sz(self.free@[i])
                            && self.free@[i] == o2.merged_start(up as int) && forall|k: int|
                            0 <= k < self.free@.len() && k != i ==> o2.free@.contains(#[trigger] self.free@[k])
                                && o2.sz(self.free@[k]) == self.sz(self.free@[k]);
                    assert(self.free@[i] + self.sz(self.free@[i]) <= self.brk + 1);
                    assert(self.sz(self.free@[i]) >= nu);
                    assert forall|k: int| 0 <= k < self.free@.len() && k != i implies old(self).free@.contains(
                        #[trigger] self.free@[k],
                    ) && old(self).sz(self.free@[k]) == self.sz(self.free@[k]) by {
                        assert(o2.free@.contains(self.free@[k]));
                        let j = choose|j: int| 0 <= j < o2.free@.len() && o2.free@[j] == self.free@[k];
                        assert(o2.free@[j] <= old(self).brk);
                        assert(o2.mem@[o2.free@[j]] == old(self).mem@[o2.free@[j]]);
                    }
                    assert(self.fits(nu as int));
                    let o = *old(self);
                    assert(o2.merged_start(up as int) == o.grow_block() && o2.pred_of(o.grow_block()) == o.pred_of(
                        o.grow_block(),
                    )) by {
                        let fo = o.free@;
                        assert forall|x: int| 0 <= x <= o.brk implies o2.sz(x) == o.sz(x) by {
                            assert(o2.mem@[x] == o1.mem@[x]);
                            assert(o1.mem@[x] == o.mem@[x]);
                        }
                        if exists|k: int| 0 <= k < fo.len() && #[trigger] fo[k] + o.sz(fo[k]) == o.brk + 1 {
                            let k = choose|k: int| 0 <= k < fo.len() && #[trigger] fo[k] + o.sz(fo[k]) == o.brk + 1;
                            assert(fo.contains(fo[k]));
                            o.lemma_merged_start(o.brk + 1, fo[k]);
                            assert(o2.sz(fo[k]) == o.sz(fo[k]));
                            o2.lemma_merged_start(up as int, fo[k]);
                        } else {
                            assert forall|k: int| 0 <= k < o2.free@.len() implies #[trigger] o2.free@[k] + o2.sz(
                                o2.free@[k],
                            ) != up by {
                                assert(o2.sz(fo[k]) == o.sz(fo[k]));
                            }
                        }
                        o2.lemma_pred_of_same(o, o.grow_block());
                    }
                }
                true
            },
        }
    }

    /// Hands out the last `n` units of the free block `p`, the `j`-th free
    /// block, which follows `q` on the list: the whole block leaves the list
    /// when it is exactly that long; the search will start at `q` next time.
    #[verifier::rlimit(60)]
    fn take(&mut self, q: usize, p: usize, n: usize, Ghost(j): Ghost<int>) -> (r: u64)
        requires
            old(self).wf(),
            old(self).ready,
            n >= 1,
            0 <= j < old(self).free@.len(),
            p == old(self).free@[j],
            q == old(self).cyc(j),
            old(self).sz(p as int) >= n,
        ensures
            final(self).wf(),
            final(self).ready,
            final(self).heap == old(self).heap && final(self).end == old(self).end,
            final(self).brk == old(self).brk,
            final(self).rover() == old(self).pred_of(p as int),
            ({
                let b = p + old(self).sz(p as int) - n;
                &&& r == old(self).addr_of(b)
                &&& final(self).used@ == old(self).used@.insert(b, n as int)
                &&& span(b, n as int).subset_of(old(self).free_units())
                &&& final(self).free_units() == old(self).free_units().difference(span(b, n as int))
            }),
    {
        let ghost o = *self;
        let ghost fo = o.free@;
        proof {
            o.lemma_cyc_order(j, j + 1);
            assert(o.cyc(j + 1) == p);
            assert(p + o.sz(p as int) <= o.brk + 1);
            assert(o.nx(q as int) == p) by {
                if j > 0 {
                    assert(o.nx(fo[j - 1]) == fo[j]);
                }
            }
        }
        let psz = self.mem[p].size;
        let b: usize;
        if psz == n {
            let pn = self.mem[p].next;
            let qh = self.mem[q];
            self.mem.set(q, Header { next: pn, size: qh.size });
            b = p;
            proof {
                self.free@ = fo.remove(j);
            }
        } else {
            let ph = self.mem[p];
            self.mem.set(p, Header { next: ph.next, size: psz - n });
            b = p + (psz - n);
            let bh = self.mem[b];
            self.mem.set(b, Header { next: bh.next, size: n });
        }
        self.freep = q;
        proof {
            self.fpos@ = j;
            self.used@ = o.used@.insert(b as int, n as int);
            assert(self.taken_from(o, q as int, p as int, n as int, j));
            if psz == n {
                self.lemma_take_whole(o, q as int, p as int, n as int, j);
            } else {
                self.lemma_take_tail(o, q as int, p as int, n as int, j);
            }
            assert forall|i: int| 0 <= i < fo.len() && #[trigger] fo[i] < p implies fo[i] <= o.cyc(j) by {
                if i > j {
                    o.lemma_cyc_order(j + 1, i + 1);
                } else if i < j - 1 {
                    o.lemma_cyc_order(i + 1, j);
                }
            }
            if j > 0 {
                assert(o.free@.contains(fo[j - 1]));
            }
            o.lemma_pred_of(p as int, q as int);
        }
        self.heap + (b as u64) * 16
    }

    /// `self` is `o` after the last `n` units of the `j`-th free block `p`,
    /// which follows `q`, have been handed out.
    spec fn taken_from(&self, o: KrAlloc, q: int, p: int, n: int, j: int) -> bool {
        let fo = o.free@;
        let exact = o.sz(p) == n;
        let b = p + o.sz(p) - n;
        &&& o.wf()
        &&& o.ready
        &&& 0 <= j < fo.len()
        &&& p == fo[j]
        &&& q == o.cyc(j)
        &&& q < p
        &&& o.nx(q) == p
        &&& 1 <= n <= o.sz(p)
        &&& self.mem@.len() == o.mem@.len()
        &&& forall|x: int|
            0 <= x < self.mem@.len() && x != q && x != p && x != b ==> #[trigger] self.mem@[x]
                == o.mem@[x]
        &&& exact ==> self.nx(q) == o.nx(p) && self.sz(q) == o.sz(q) && self.mem@[p] == o.mem@[p]
        &&& !exact ==> self.sz(p) == o.sz(p) - n && self.nx(p) == o.nx(p) && self.sz(b) == n
            && self.mem@[q] == o.mem@[q]
        &&& self.free@ == if exact { fo.remove(j) } else { fo }
        &&& self.fpos@ == j
        &&& self.freep == q
        &&& self.ready
        &&& self.heap == o.heap && self.end == o.end && self.brk == o.brk
        &&& self.used@ == o.used@.insert(b, n)
    }

    /// The whole block leaves the free list.
    #[verifier::rlimit(60)]
    proof fn lemma_take_whole(&self, o: KrAlloc, q: int, p: int, n: int, j: int)
        requires
            self.taken_from(o, q, p, n, j),
            o.sz(p) == n,
        ensures
            self.list_ok(),
            self.used_ok(),
            span(p, n).subset_of(o.free_units()),
            self.free_units() == o.free_units().difference(span(p, n)),
    {
        let fo = o.free@;
        let g = self.free@;
        let nn = fo.len();
        if j > 0 {
            o.lemma_cyc_order(0, j);
        }
        assert forall|i: int| 0 <= i < g.len() implies #[trigger] g[i] == (if i < j { fo[i] } else { fo[i + 1] })
            && self.sz(g[i]) == o.sz(g[i]) && g[i] != p by {
            if i < j {
                assert(fo[i] + o.sz(fo[i]) < fo[j]);
                assert(self.mem@[fo[i]] == o.mem@[fo[i]] || fo[i] == q);
            } else {
                assert(fo[j] + o.sz(fo[j]) < fo[i + 1]);
                assert(self.mem@[fo[i + 1]] == o.mem@[fo[i + 1]]);
            }
        }
        assert forall|i: int| 0 <= i < g.len() implies 1 <= #[trigger] g[i] && self.sz(g[i]) >= 1 && g[i]
            + self.sz(g[i]) <= self.brk + 1 by {}
        assert forall|i: int, k: int| #![trigger g[i], g[k]] 0 <= i < k < g.len() implies g[i] + self.sz(g[i]) < g[k] by {
            let i2 = if i < j { i } else { i + 1 };
            let k2 = if k < j { k } else { k + 1 };
            assert(fo[i2] + o.sz(fo[i2]) < fo[k2]);
        }
        assert forall|i: int| 0 <= i < g.len() implies #[trigger] self.nx(g[i]) == if i + 1 < g.len() {
            g[i + 1]
        } else {
            0
        } by {
            if i < j - 1 {
                assert(o.nx(fo[i]) == fo[i + 1]);
                assert(self.mem@[fo[i]] == o.mem@[fo[i]]);
            } else if i == j - 1 {
                assert(o.nx(fo[j]) == if j + 1 < nn { fo[j + 1] } else { 0 });
            } else {
                assert(o.nx(fo[i + 1]) == if i + 2 < nn { fo[i + 2] } else { 0 });
                assert(self.mem@[fo[i + 1]] == o.mem@[fo[i + 1]]);
            }
        }
        if j == 0 {
            assert(o.nx(fo[0]) == if 1 < nn { fo[1] } else { 0 });
        } else {
            assert(self.mem@[0] == o.mem@[0]);
        }
        assert(self.freep == self.cyc(self.fpos@)) by {
            if j > 0 {
                assert(g[j - 1] == fo[j - 1]);
            }
        }
        let m = self.used@;
        assert forall|b: int| #[trigger] m.dom().contains(b) implies 1 <= b && m[b] >= 1 && b + m[b] <= self.brk + 1
            && self.sz(b) == m[b] by {
            if b != p {
                assert(b + o.used@[b] <= fo[j] || fo[j] + o.sz(fo[j]) <= b);
                if j > 0 {
                    assert(b + o.used@[b] <= fo[j - 1] || fo[j - 1] + o.sz(fo[j - 1]) <= b);
                }
                assert(self.mem@[b] == o.mem@[b]);
            }
        }
        assert forall|a: int, b: int|
            #![trigger m.dom().contains(a), m.dom().contains(b)]
            m.dom().contains(a) && m.dom().contains(b) && a != b implies a + m[a] <= b || b + m[b] <= a by {
            if a == p {
                assert(b + o.used@[b] <= fo[j] || fo[j] + o.sz(fo[j]) <= b);
            } else if b == p {
                assert(a + o.used@[a] <= fo[j] || fo[j] + o.sz(fo[j]) <= a);
            }
        }
        assert forall|b: int, i: int|
            #![trigger m.dom().contains(b), g[i]]
            m.dom().contains(b) && 0 <= i < g.len() implies b + m[b] <= g[i] || g[i] + self.sz(g[i]) <= b by {
            let i2 = if i < j { i } else { i + 1 };
            if b == p {
                if i2 < j {
                    assert(fo[i2] + o.sz(fo[i2]) < fo[j]);
                } else {
                    assert(fo[j] + o.sz(fo[j]) < fo[i2]);
                }
            } else {
                assert(b + o.used@[b] <= fo[i2] || fo[i2] + o.sz(fo[i2]) <= b);
            }
        }
        assert(span(p, n).subset_of(o.free_units())) by {
            assert forall|x: int| span(p, n).contains(x) implies o.free_units().contains(x) by {
                assert(fo[j] <= x < fo[j] + o.sz(fo[j]));
            }
        }
        assert forall|x: int| self.in_free(x) <==> o.in_free(x) && !(p <= x < p + n) by {
            if self.in_free(x) {
                let i = choose|i: int| 0 <= i < g.len() && #[trigger] g[i] <= x < g[i] + self.sz(g[i]);
                let i2 = if i < j { i } else { i + 1 };
                assert(fo[i2] == g[i]);
                if i2 < j {
                    assert(fo[i2] + o.sz(fo[i2]) < fo[j]);
                } else {
                    assert(fo[j] + o.sz(fo[j]) < fo[i2]);
                }
            }
            if o.in_free(x) && !(p <= x < p + n) {
                let i = choose|i: int| 0 <= i < nn && #[trigger] fo[i] <= x < fo[i] + o.sz(fo[i]);
                assert(i != j);
                let i2 = if i < j { i } else { i - 1 };
                assert(g[i2] == fo[i]);
            }
        }
        assert(self.free_units() =~= o.free_units().difference(span(p, n)));
    }

    /// The block stays on the list, shorter by `n` units.
    #[verifier::rlimit(60)]
    proof fn lemma_take_tail(&self, o: KrAlloc, q: int, p: int, n: int, j: int)
        requires
            self.taken_from(o, q, p, n, j),
            o.sz(p) != n,
        ensures
            self.list_ok(),
            self.used_ok(),
            span(p + o.sz(p) - n, n).subset_of(o.free_units()),
            self.free_units() == o.free_units().difference(span(p + o.sz(p) - n, n)),
    {
        let fo = o.free@;
        let g = self.free@;
        let nn = fo.len();
        let b = p + o.sz(p) - n;
        if j > 0 {
            o.lemma_cyc_order(0, j);
        }
        assert forall|i: int| 0 <= i < nn implies #[trigger] g[i] == fo[i] && self.sz(fo[i]) == (if i == j {
            o.sz(p) - n } else { o.sz(fo[i]) }) && self.nx(fo[i]) == o.nx(fo[i]) && fo[i] != b by {
            if i < j {
                assert(fo[i] + o.sz(fo[i]) < fo[j]);
            } else if i > j {
                assert(fo[j] + o.sz(fo[j]) < fo[i]);
            }
            if i != j && fo[i] != q {
                assert(self.mem@[fo[i]] == o.mem@[fo[i]]);
            }
        }
        assert forall|i: int| 0 <= i < g.len() implies 1 <= #[trigger] g[i] && self.sz(g[i]) >= 1 && g[i]
            + self.sz(g[i]) <= self.brk + 1 by {}
        assert forall|i: int, k: int| #![trigger g[i], g[k]] 0 <= i < k < g.len() implies g[i] + self.sz(g[i]) < g[k] by {
            assert(fo[i] + o.sz(fo[i]) < fo[k]);
        }
        assert forall|i: int| 0 <= i < g.len() implies #[trigger] self.nx(g[i]) == if i + 1 < g.len() {
            g[i + 1]
        } else {
            0
        } by {
            assert(o.nx(fo[i]) == if i + 1 < nn { fo[i + 1] } else { 0 });
        }
        assert(self.mem@[0] == o.mem@[0]);
        let m = self.used@;
        assert forall|c: int| #[trigger] m.dom().contains(c) implies 1 <= c && m[c] >= 1 && c + m[c] <= self.brk + 1
            && self.sz(c) == m[c] by {
            if c != b {
                assert(c + o.used@[c] <= fo[j] || fo[j] + o.sz(fo[j]) <= c);
                if j > 0 {
                    assert(c + o.used@[c] <= fo[j - 1] || fo[j - 1] + o.sz(fo[j - 1]) <= c);
                }
                assert(self.mem@[c] == o.mem@[c]);
            }
        }
        assert forall|a: int, c: int|
            #![trigger m.dom().contains(a), m.dom().contains(c)]
            m.dom().contains(a) && m.dom().contains(c) && a != c implies a + m[a] <= c || c + m[c] <= a by {
            if a == b {
                assert(c + o.used@[c] <= fo[j] || fo[j] + o.sz(fo[j]) <= c);
            } else if c == b {
                assert(a + o.used@[a] <= fo[j] || fo[j] + o.sz(fo[j]) <= a);
            }
        }
        assert forall|c: int, i: int|
            #![trigger m.dom().contains(c), g[i]]
            m.dom().contains(c) && 0 <= i < g.len() implies c + m[c] <= g[i] || g[i] + self.sz(g[i]) <= c by {
            if c == b {
                if i < j {
                    assert(fo[i] + o.sz(fo[i]) < fo[j]);
                } else if i > j {
                    assert(fo[j] + o.sz(fo[j]) < fo[i]);
                }
            } else {
                assert(c + o.used@[c] <= fo[i] || fo[i] + o.sz(fo[i]) <= c);
            }
        }
        assert(span(b, n).subset_of(o.free_units())) by {
            assert forall|x: int| span(b, n).contains(x) implies o.free_units().contains(x) by {
                assert(fo[j] <= x < fo[j] + o.sz(fo[j]));
            }
        }
        assert forall|x: int| self.in_free(x) <==> o.in_free(x) && !(b <= x < b + n) by {
            if self.in_free(x) {
                let i = choose|i: int| 0 <= i < g.len() && #[trigger] g[i] <= x < g[i] + self.sz(g[i]);
                assert(fo[i] == g[i]);
                if i < j {
                    assert(fo[i] + o.sz(fo[i]) < fo[j]);
                } else if i > j {
                    assert(fo[j] + o.sz(fo[j]) < fo[i]);
                }
            }
            if o.in_free(x) && !(b <= x < b + n) {
                let i = choose|i: int| 0 <= i < nn && #[trigger] fo[i] <= x < fo[i] + o.sz(fo[i]);
                assert(g[i] == fo[i]);
            }
        }
        assert(self.free_units() =~= o.free_units().difference(span(b, n)));
    }

    /// Whether `ptr` is the address of a live allocation.
    pub open spec fn is_live_ptr(&self, ptr: int) -> bool {
        let b = (ptr - self.base()) / 16;
        &&& ptr == self.addr_of(b)
        &&& self.live().dom().contains(b)
    }

    /// Allocates `size` bytes. The block takes `units_for(size)` units, its
    /// header included, and is carved from the end of the first free block
    /// that is long enough, searching round the list from the roving pointer.
    /// When no free block is long enough the arena first grows by exactly that
    /// many units, which are freed; when the arena has too few units left the
    /// result is 0 and nothing changes. Otherwise the result is the address
    /// just past the block's header, and the roving pointer is left at the free
    /// block before the one the allocation was carved from (see
    /// `lemma_first_fit` for where the next search then goes).
    #[verifier::rlimit(60)]
    #[verifier::spinoff_prover]
    pub fn allocate(&mut self, size: usize) -> (r: u64)
        requires
            old(self).wf(),
            old(self).has_arena(),
            size > 0,
            size <= usize::MAX - 16,
        ensures
            final(self).wf(),
            final(self).has_arena(),
            final(self).base() == old(self).base(),
            final(self).limit() == old(self).limit(),
            r == 0 <==> !old(self).fits(units_for(size as int)) && old(self).taken() + units_for(size as int)
                > old(self).limit(),
            r == 0 ==> final(self).free_units() == old(self).free_units() && final(self).live() == old(
                self,
            ).live() && final(self).taken() == old(self).taken() && final(self).rover() == old(self).rover(),
            r != 0 ==> final(self).rover() == old(self).pred_of(
                if old(self).fits(units_for(size as int)) {
                    old(self).first_fit(units_for(size as int))
                } else {
                    old(self).grow_block()
                },
            ),
            r != 0 ==> ({
                let n = units_for(size as int);
                let grown = if old(self).fits(n) { 0 } else { n };
                let avail = old(self).free_units().union(span(old(self).taken() + 1, grown));
                let b = (r - old(self).base()) / 16;
                let ff = old(self).first_fit(n);
                &&& r == old(self).addr_of(b)
                &&& old(self).fits(n) ==> b == ff + old(self).block_len(ff) - n
                &&& !old(self).fits(n) ==> b == old(self).taken() + 1
                &&& final(self).taken() == old(self).taken() + grown
                &&& span(b, n).subset_of(avail)
                &&& final(self).live() == old(self).live().insert(b, n)
                &&& final(self).free_units() == avail.difference(span(b, n))
            }),
    {
        let nunits = (size + 15) / 16 + 1;
        if !self.ready {
            self.mem.set(0, Header { next: 0, size: 0 });
            self.freep = 0;
            self.ready = true;
            proof {
                self.fpos@ = 0;
                assert(self.free_units() =~= old(self).free_units());
            }
        }
        let ghost s0 = *self;
        proof {
            if old(self).ready {
                assert(s0.free == old(self).free && s0.fpos == old(self).fpos && s0.mem == old(self).mem);
                assert(s0.first_fit(nunits as int) == old(self).first_fit(nunits as int));
                assert(s0.fits(nunits as int) == old(self).fits(nunits as int));
            } else {
                assert(!old(self).fits(nunits as int));
                assert(!s0.fits(nunits as int));
            }
        }
        let (q, p) = match self.find_fit(nunits) {
            Some(x) => x,
            None => {
                if !self.morecore(nunits) {
                    return 0;
                }
                match self.find_fit(nunits) {
                    Some(x) => x,
                    None => {
                        return 0;
                    },
                }
            },
        };
        let ghost s1 = *self;
        let ghost j = choose|j: int|
            0 <= j < s1.free@.len() && p == #[trigger] s1.free@[j] && q == s1.cyc(j) && s1.sz(p as int)
                >= nunits;
        proof {
            assert(s0.grow_block() == old(self).grow_block() && s0.pred_of(s0.grow_block()) == old(self).pred_of(
                old(self).grow_block(),
            ) && (s0.fits(nunits as int) ==> s0.pred_of(p as int) == old(self).pred_of(p as int))) by {
                if old(self).ready {
                    assert(s0 == *old(self));
                } else {
                    assert(s0.free@.len() == 0 && old(self).free@.len() == 0);
                    assert(s0.grow_block() == 1);
                    assert(old(self).grow_block() == 1);
                }
            }
        }
        let ghost b = p + s1.sz(p as int) - nunits;
        let r = self.take(q, p, nunits, Ghost(j));
        proof {
            assert((r - self.heap) / 16 == b);
            if !s0.fits(nunits as int) {
                let i = choose|i: int|
                    0 <= i < s1.free@.len() && #[trigger] s1.free@[i] + s1.sz(s1.free@[i]) == s1.brk + 1
                        && s1.sz(s1.free@[i]) >= nunits && s1.free@[i] == s0.grow_block() && forall|k: int|
                        0 <= k < s1.free@.len() && k != i ==> s0.free@.contains(#[trigger] s1.free@[k])
                            && s0.sz(s1.free@[k]) == s1.sz(s1.free@[k]);
                if j != i {
                    assert(s0.free@.contains(s1.free@[j]));
                    let j0 = choose|j0: int| 0 <= j0 < s0.free@.len() && s0.free@[j0] == s1.free@[j];
                    assert(s0.sz(s0.free@[j0]) >= nunits);
                    assert(false);
                }
            }
            if s0.fits(nunits as int) {
                assert(span(old(self).brk + 1, 0) =~= Set::<int>::empty());
                assert(s0.free_units().union(Set::<int>::empty()) =~= s0.free_units());
            }
        }
        r
    }

    /// Frees the block at `ptr`, the address of a live allocation; 0 is
    /// ignored. The block's units become free, merged with any free block
    /// just before or after it, and it is no longer live; the roving pointer
    /// moves to the last free block below it, or to the list head.
    pub fn dealloc(&mut self, ptr: u64)
        requires
            old(self).wf(),
            ptr != 0 ==> old(self).is_live_ptr(ptr as int),
        ensures
            final(self).wf(),
            final(self).has_arena() == old(self).has_arena(),
            final(self).base() == old(self).base(),
            final(self).limit() == old(self).limit(),
            final(self).taken() == old(self).taken(),
            ptr == 0 ==> final(self).free_units() == old(self).free_units() && final(self).live() == old(
                self,
            ).live() && final(self).rover() == old(self).rover(),
            ptr != 0 ==> ({
                let b = (ptr - old(self).base()) / 16;
                &&& final(self).live() == old(self).live().remove(b)
                &&& final(self).rover() == old(self).pred_of(b)
                &&& final(self).free_units() == old(self).free_units().union(span(b, old(self).live()[b]))
            }),
    {
        if ptr == 0 {
            return;
        }
        let ghost b = (ptr - self.heap) / 16;
        proof {
            assert(self.used@.dom().contains(b));
            assert(self.ready);
            assert(b <= self.brk);
        }
        let bp = ((ptr - self.heap) / 16) as usize;
        proof {
            let o = old(self);
            self.used@ = o.used@.remove(b);
            assert(self.used_ok());
            KrAlloc::lemma_list_frame(*o, *self);
            assert(self.wf());
            assert(self.sz(b) == o.used@[b]);
            assert forall|i: int| 0 <= i < self.free@.len() implies bp + self.sz(b) <= #[trigger] self.free@[i]
                || self.free@[i] + self.sz(self.free@[i]) <= bp by {
                assert(o.used@.dom().contains(b));
            }
            assert forall|c: int| #[trigger] self.used@.dom().contains(c) implies c + self.used@[c] <= bp || bp
                + self.sz(b) <= c by {
                assert(o.used@.dom().contains(c) && c != b);
            }
        }
        let ghost mid = *self;
        self.free_block(bp);
        proof {
            mid.lemma_pred_of_same(*old(self), b);
        }
    }

    /// A live allocation is never free, and two live allocations never share
    /// a unit; every live allocation lies in the part of the arena taken.
    pub proof fn lemma_live_disjoint(&self, a: int, b: int)
        requires
            self.wf(),
            self.live().dom().contains(a),
        ensures
            1 <= a && a + self.live()[a] <= self.taken() + 1 <= self.limit() + 1,
            span(a, self.live()[a]).disjoint(self.free_units()),
            self.live().dom().contains(b) && a != b ==> span(a, self.live()[a]).disjoint(span(b, self.live()[b])),
    {
        assert forall|x: int| span(a, self.used@[a]).contains(x) implies !self.free_units().contains(x) by {
            if self.in_free(x) {
                let i = choose|i: int|
                    0 <= i < self.free@.len() && #[trigger] self.free@[i] <= x < self.free@[i] + self.sz(
                        self.free@[i],
                    );
                assert(a + self.used@[a] <= self.free@[i] || self.free@[i] + self.sz(self.free@[i]) <= a);
            }
        }
        if self.used@.dom().contains(b) && a != b {
            assert(a + self.used@[a] <= b || b + self.used@[b] <= a);
        }
    }

    /// Free units `b..b + n` lie in one free block, so a request for up to `n` units fits: after
    /// `dealloc` of a block, `allocate` of a size that needs no more units succeeds.
    pub proof fn lemma_free_span_fits(&self, b: int, n: int)
        requires
            self.wf(),
            n >= 1,
            span(b, n).subset_of(self.free_units()),
        ensures
            forall|m: int| 1 <= m <= n ==> self.fits(m),
    {
        let f = self.free@;
        assert(span(b, n).contains(b));
        assert(self.in_free(b));
        let i = choose|i: int| 0 <= i < f.len() && #[trigger] f[i] <= b < f[i] + self.sz(f[i]);
        let e = f[i] + self.sz(f[i]);
        if e < b + n {
            assert(span(b, n).contains(e));
            assert(self.in_free(e));
            let j = choose|j: int| 0 <= j < f.len() && #[trigger] f[j] <= e < f[j] + self.sz(f[j]);
            if j > i {
                assert(f[i] + self.sz(f[i]) < f[j]);
            } else if j < i {
                assert(f[j] + self.sz(f[j]) < f[i]);
            }
            assert(false);
        }
        assert forall|m: int| 1 <= m <= n implies self.fits(m) by {
            assert(self.sz(f[i]) >= m);
        }
    }

    /// Freeing what `allocate` handed out, when the arena did not grow for it,
    /// gives back exactly the free units and live allocations of before.
    pub proof fn lemma_alloc_then_dealloc(a0: KrAlloc, a1: KrAlloc, a2: KrAlloc, b: int, n: int)
        requires
            a0.wf(),
            n >= 1,
            span(b, n).subset_of(a0.free_units()),
            a1.live() == a0.live().insert(b, n),
            a1.free_units() == a0.free_units().difference(span(b, n)),
            a2.live() == a1.live().remove(b),
            a2.free_units() == a1.free_units().union(span(b, a1.live()[b])),
        ensures
            a2.free_units() == a0.free_units(),
            a2.live() == a0.live(),
    {
        if a0.live().dom().contains(b) {
            a0.lemma_live_disjoint(b, b);
            assert(span(b, a0.live()[b]).contains(b));
            assert(a0.free_units().contains(b));
        }
        assert(a2.live() =~= a0.live());
        assert(a2.free_units() =~= a0.free_units());
    }

    proof fn lemma_list_frame(a: KrAlloc, c: KrAlloc)
        requires
            a.list_ok(),
            c.free == a.free,
            c.mem == a.mem,
            c.brk == a.brk,
            c.fpos == a.fpos,
            c.freep == a.freep,
        ensures
            c.list_ok(),
    {
        assert forall|i: int| 0 <= i < c.free@.len() implies c.sz(#[trigger] c.free@[i]) == a.sz(a.free@[i])
            && c.nx(c.free@[i]) == a.nx(a.free@[i]) by {}
        assert(c.mem@[0] == a.mem@[0]);
    }

    /// Every free block but the one that took in the freed block was free
    /// before, with the same length.
    #[verifier::rlimit(40)]
    proof fn lemma_fb_kept(&self, o: KrAlloc, bp: int, t: int, up: bool, low: bool)
        requires
            self.freed_from(o, bp, t, up, low),
        ensures
            ({
                let i = if low { t - 1 } else { t };
                forall|k: int|
                    0 <= k < self.free@.len() && k != i ==> o.free@.contains(#[trigger] self.free@[k]) && o.sz(
                        self.free@[k],
                    ) == self.sz(self.free@[k])
            }),
    {
        self.lemma_fb_common(o, bp, t, up, low);
        let fo = o.free@;
        let g = self.free@;
        let i = if low { t - 1 } else { t };
        assert forall|k: int| 0 <= k < g.len() && k != i implies o.free@.contains(#[trigger] g[k]) && o.sz(g[k])
            == self.sz(g[k]) by {
            let k2 = if up && low {
                if k < t { k } else { k + 1 }
            } else if up || low {
                k
            } else {
                if k < t { k } else { k - 1 }
            };
            assert(g[k] == fo[k2]);
            if k2 >= t {
                assert(fo[k2] > bp);
            }
        }
    }

    /// What a scan of the walk positions `w..=stop` finds: 0 when no block
    /// there is `n` long, else the block at the first position that is.
    proof fn lemma_scan_result(&self, n: int, w: int, stop: int)
        requires
            self.wf(),
            self.ready,
            n >= 1,
            0 <= w,
            stop < 2 * (self.free@.len() + 1),
        ensures
            self.scan_from(n, w, stop) == 0 ==> forall|v: int| w <= v <= stop ==> self.sz(#[trigger] self.at(v)) < n,
            self.scan_from(n, w, stop) != 0 ==> exists|u: int| w <= u <= stop && self.scan_from(n, w, stop) == #[trigger] self.at(u)
                && self.sz(self.at(u)) >= n && forall|v: int| w <= v < u ==> self.sz(#[trigger] self.at(v)) < n,
        decreases stop + 1 - w,
    {
        if w <= stop {
            assert(self.mem@[0].size == 0);
            self.lemma_scan_result(n, w + 1, stop);
            if self.sz(self.at(w)) >= n {
                assert(self.at(w) != 0);
            } else if self.scan_from(n, w + 1, stop) != 0 {
                let u = choose|u: int| w + 1 <= u <= stop && self.scan_from(n, w + 1, stop) == #[trigger] self.at(u)
                    && self.sz(self.at(u)) >= n && forall|v: int| w + 1 <= v < u ==> self.sz(#[trigger] self.at(v)) < n;
                assert(forall|v: int| w <= v < u ==> self.sz(#[trigger] self.at(v)) < n);
            }
        }
    }

    /// First fit goes round the free list from the roving pointer: the block a
    /// request for `n` units is carved from is the lowest block at least `n`
    /// long above the roving pointer, or, when there is none, the lowest block
    /// at least `n` long.
    pub proof fn lemma_first_fit(&self, n: int)
        requires
            self.wf(),
            n >= 1,
            self.fits(n),
        ensures
            self.free_list().contains(self.first_fit(n)),
            self.block_len(self.first_fit(n)) >= n,
            (exists|c: int| self.free_list().contains(c) && c > self.rover() && #[trigger] self.block_len(c) >= n) ==> ({
                &&& self.first_fit(n) > self.rover()
                &&& forall|c: int| self.free_list().contains(c) && c > self.rover() && #[trigger] self.block_len(c) >= n
                    ==> self.first_fit(n) <= c
            }),
            !(exists|c: int| self.free_list().contains(c) && c > self.rover() && #[trigger] self.block_len(c) >= n)
                ==> forall|c: int| self.free_list().contains(c) && #[trigger] self.block_len(c) >= n ==> self.first_fit(n) <= c,
    {
        let fo = self.free@;
        let l = fo.len() + 1;
        let f = self.fpos@;
        let k0 = choose|k: int| 0 <= k < fo.len() && self.sz(#[trigger] fo[k]) >= n;
        assert(self.ready);
        self.lemma_scan_result(n, f + 1, f + l);
        assert(self.at(f + l) == self.cyc(f));
        let ff = self.first_fit(n);
        if ff == 0 {
            assert(self.sz(self.at(k0 + 1 + if k0 + 1 > f { 0 } else { l })) >= n);
            assert(false);
        }
        let u = choose|u: int| f + 1 <= u <= f + l && ff == #[trigger] self.at(u) && self.sz(self.at(u)) >= n
            && forall|v: int| f + 1 <= v < u ==> self.sz(#[trigger] self.at(v)) < n;
        assert(self.mem@[0].size == 0);
        assert(u != l);
        let iu = if u < l { u } else { u - l };
        assert(1 <= iu < l);
        assert(ff == fo[iu - 1]);
        assert(fo.contains(ff));
        if u < l {
            if f > 0 {
                self.lemma_cyc_order(f, u);
            }
            assert(ff > self.rover());
        }
        assert forall|c: int| self.free_list().contains(c) && c > self.rover() && #[trigger] self.block_len(c) >= n
            implies ff > self.rover() && ff <= c by {
            let k = choose|k: int| 0 <= k < fo.len() && fo[k] == c;
            if k + 1 <= f {
                if k + 1 < f {
                    self.lemma_cyc_order(k + 1, f);
                }
                assert(false);
            }
            assert(self.at(k + 1) == c);
            assert(u <= k + 1);
            assert(u < l);
            if u < k + 1 {
                self.lemma_cyc_order(u, k + 1);
            }
        }
        if !(exists|c: int| self.free_list().contains(c) && c > self.rover() && #[trigger] self.block_len(c) >= n) {
            assert forall|c: int| self.free_list().contains(c) && #[trigger] self.block_len(c) >= n implies ff <= c by {
                let k = choose|k: int| 0 <= k < fo.len() && fo[k] == c;
                if k + 1 > f {
                    if f > 0 {
                        self.lemma_cyc_order(f, k + 1);
                    }
                    assert(c > self.rover());
                    assert(false);
                }
                assert(self.at(k + 1 + l) == c);
                assert(u <= k + 1 + l);
                if u < l {
                    if f > 0 {
                        self.lemma_cyc_order(f, u);
                    }
                    assert(self.block_len(ff) >= n && fo.contains(ff) && ff > self.rover());
                    assert(false);
                }
                if u - l < k + 1 {
                    self.lemma_cyc_order(u - l, k + 1);
                }
            }
        }
    }

    proof fn lemma_scan(&self, n: int, w: int, stop: int, u: int)
        requires
            w <= u <= stop,
            self.sz(self.at(u)) >= n,
            forall|v: int| w <= v < u ==> self.sz(#[trigger] self.at(v)) < n,
        ensures
            self.scan_from(n, w, stop) == self.at(u),
        decreases u - w,
    {
        if w < u {
            self.lemma_scan(n, w + 1, stop, u);
        }
    }
}

} // verus!
