use rustiplix::arch::vm::{Pagetable, PtLevel};
use rustiplix::elf::{load64, max, min, FileHeader64, ProgHeader64, MAGIC};
use rustiplix::vm::perm;

fn put(b: &mut [u8], off: usize, v: &[u8]) {
    b[off..off + v.len()].copy_from_slice(v);
}

/// An executable with one loadable segment: 4 bytes of code at 0x10000,
/// 8 bytes of memory, entered at 0x10002.
fn tiny_elf() -> Vec<u8> {
    let mut b = vec![0u8; 124];
    put(&mut b, 0, &[0x7f, b'E', b'L', b'F']);
    put(&mut b, 24, &0x10002u64.to_le_bytes());
    put(&mut b, 32, &64u64.to_le_bytes());
    put(&mut b, 56, &1u16.to_le_bytes());
    put(&mut b, 64, &1u32.to_le_bytes());
    put(&mut b, 64 + 8, &120u64.to_le_bytes());
    put(&mut b, 64 + 16, &0x10000u64.to_le_bytes());
    put(&mut b, 64 + 32, &4u64.to_le_bytes());
    put(&mut b, 64 + 40, &8u64.to_le_bytes());
    put(&mut b, 120, &[1, 2, 3, 4]);
    b
}

#[test]
fn headers_parse() {
    let b = tiny_elf();
    let h = FileHeader64::parse(&b);
    assert_eq!(h.magic, MAGIC);
    assert_eq!(h.entry, 0x10002);
    assert_eq!(h.phoff, 64);
    assert_eq!(h.phnum, 1);
    let ph = ProgHeader64::parse(&b, 64);
    assert_eq!((ph.type_, ph.offset, ph.vaddr, ph.filesz, ph.memsz), (1, 120, 0x10000, 4, 8));
}

#[test]
fn load_maps_the_segment() {
    let b = tiny_elf();
    let mut pt = Pagetable::new();
    let mut frames: Vec<u64> = vec![0x8010_0000, 0x8010_1000, 0x8010_2000];
    let (entry, brk) = load64(&mut pt, &b, &mut frames).unwrap();
    assert_eq!(entry, 0x10002);
    assert_eq!(brk, 0x10008);
    let (loc, lvl) = pt.lookup(0x10000, PtLevel::Normal).unwrap();
    assert!(lvl == PtLevel::Normal);
    let pte = pt.pte_at(loc);
    assert!(pte.is_valid());
    assert_eq!(pte.perm(), perm::URWX);
    let page = pt.page(pte.pa()).unwrap();
    assert_eq!(&page.data[0..6], &[1, 2, 3, 4, 0, 0]);
    assert!(page.data[4..].iter().all(|&x| x == 0));
}

#[test]
fn wrong_magic_is_refused() {
    let mut b = tiny_elf();
    b[0] = 0;
    let mut pt = Pagetable::new();
    let mut frames: Vec<u64> = vec![0x8010_0000, 0x8010_1000, 0x8010_2000];
    assert!(load64(&mut pt, &b, &mut frames).is_none());
    assert_eq!(frames.len(), 3);
}

#[test]
fn too_few_frames_fails() {
    let b = tiny_elf();
    let mut pt = Pagetable::new();
    let mut frames: Vec<u64> = vec![0x8010_0000, 0x8010_1000];
    assert!(load64(&mut pt, &b, &mut frames).is_none());
}

#[test]
fn file_part_larger_than_memory_is_refused() {
    let mut b = tiny_elf();
    put(&mut b, 64 + 40, &2u64.to_le_bytes());
    let mut pt = Pagetable::new();
    let mut frames: Vec<u64> = vec![0x8010_0000, 0x8010_1000, 0x8010_2000];
    assert!(load64(&mut pt, &b, &mut frames).is_none());
}

#[test]
fn min_and_max() {
    assert_eq!(min(3, 9), 3);
    assert_eq!(max(3, 9), 9);
}
