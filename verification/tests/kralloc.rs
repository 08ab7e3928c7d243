use rustiplix::kalloc::kr::KrAlloc;

const HEAP: u64 = 0x8000_0000;

fn fresh(size: u64) -> KrAlloc {
    let mut a = KrAlloc::new_uninit();
    a.init(HEAP, size);
    a
}

#[test]
fn first_block_comes_from_the_start_of_the_arena() {
    let mut a = fresh(4096);
    // 24 bytes take two data units and one header unit; the arena grows by
    // three units and the block starts just past its header.
    assert_eq!(a.allocate(24), HEAP + 16);
    assert_eq!(a.allocate(16), HEAP + 16 * 4);
}

#[test]
fn freed_block_is_reused() {
    let mut a = fresh(4096);
    let p = a.allocate(100);
    let q = a.allocate(100);
    assert_ne!(p, 0);
    assert_ne!(q, 0);
    a.dealloc(p);
    assert_eq!(a.allocate(100), p);
}

#[test]
fn smaller_request_is_carved_from_the_end_of_a_free_block() {
    let mut a = fresh(4096);
    let p = a.allocate(160); // 11 units: units 1 to 11
    let _q = a.allocate(16); // keeps p's block from joining the arena's end
    a.dealloc(p);
    // 16 bytes take 2 units: the last two units of the freed block, 10 and 11.
    assert_eq!(a.allocate(16), HEAP + 16 * 10);
}

#[test]
fn exhausted_arena_gives_null() {
    let mut a = fresh(4096);
    // 4096 bytes need 257 units, the arena holds 256.
    assert_eq!(a.allocate(4096), 0);
    // 4080 bytes need exactly 256 units.
    assert_eq!(a.allocate(4080), HEAP + 16);
    assert_eq!(a.allocate(1), 0);
}

#[test]
fn neighbours_coalesce_into_one_block() {
    let mut a = fresh(4096);
    let p = a.allocate(48); // 4 units
    let q = a.allocate(48); // 4 units
    let r = a.allocate(48); // 4 units
    let _guard = a.allocate(16);
    a.dealloc(p);
    a.dealloc(r);
    a.dealloc(q);
    // The three freed blocks make 12 contiguous units: 11 data units fit.
    assert_eq!(a.allocate(176), p);
}

#[test]
fn dealloc_of_null_does_nothing() {
    let mut a = fresh(4096);
    a.dealloc(0);
    assert_eq!(a.allocate(8), HEAP + 16);
}

#[test]
fn search_starts_after_the_roving_pointer() {
    let mut a = fresh(4096);
    // 16 bytes take two units: the blocks start at units 1, 3, 5 and 7.
    let p1 = a.allocate(16);
    let _p3 = a.allocate(16);
    let p5 = a.allocate(16);
    let _p7 = a.allocate(16);
    assert_eq!(p1, HEAP + 16);
    assert_eq!(p5, HEAP + 16 * 5);
    a.dealloc(p1);
    // The roving pointer is left at the free block below unit 5, unit 1.
    a.dealloc(p5);
    // So the next search finds the block at unit 5 before the one at unit 1.
    assert_eq!(a.allocate(16), p5);
    assert_eq!(a.allocate(16), p1);
}
