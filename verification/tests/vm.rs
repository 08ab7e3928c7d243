use rustiplix::kalloc::Page;
use rustiplix::vm::PageMap;
use rustiplix::sync::irqlock::IrqLock;
use rustiplix::arch::vm::{Pagetable, PtLevel, Pte};
use rustiplix::vm::perm;
use rustiplix::vm::{ishka, pa2hka, hka2pa, PtIter};
use rustiplix::sys::HIGHMEM_BASE;

#[test]
fn pte_fields_roundtrip() {
    let mut pte = Pte::zero();
    assert_eq!(pte.raw(), 0);
    assert!(!pte.is_valid());
    pte.set_pa(0x8020_3000);
    assert_eq!(pte.pa(), 0x8020_3000);
    pte.set_perm(perm::URW);
    assert_eq!(pte.perm(), perm::URW);
    assert_eq!(pte.pa(), 0x8020_3000);
    pte.validate();
    assert!(pte.is_valid());
    assert_eq!(pte.raw() & 0xc1, 0xc1);
    pte.set_perm(perm::READ | perm::COW);
    assert_eq!(pte.perm(), perm::READ | perm::COW);
    assert!(pte.is_valid());
}

#[test]
fn set_pa_drops_offset_bits() {
    let mut pte = Pte::zero();
    pte.set_pa(0x1234_5678);
    assert_eq!(pte.pa(), 0x1234_5000);
}

#[test]
fn level_sizes() {
    assert_eq!(PtLevel::Giga.size(), 0x4000_0000);
    assert_eq!(PtLevel::Mega.size(), 0x20_0000);
    assert_eq!(PtLevel::Normal.size(), 0x1000);
    assert!(PtLevel::Giga.next() == PtLevel::Mega);
    assert!(PtLevel::Mega.next() == PtLevel::Normal);
}

#[test]
fn map_then_lookup_reads_back() {
    let mut pt = Pagetable::new();
    let mut frames: Vec<u64> = vec![0x8010_0000, 0x8010_1000];
    assert!(pt.map(0x1000, 0x8020_0000, PtLevel::Normal, perm::URW, &mut frames));
    assert!(frames.is_empty());
    let (loc, lvl) = pt.lookup(0x1000, PtLevel::Normal).unwrap();
    assert!(lvl == PtLevel::Normal);
    let pte = pt.pte_at(loc);
    assert!(pte.is_valid());
    assert_eq!(pte.pa(), 0x8020_0000);
    assert_eq!(pte.perm(), perm::URW);
    // A second page in the same 2 MiB region needs no new table.
    assert!(pt.map(0x3000, 0x8020_5000, PtLevel::Normal, perm::URWX, &mut frames));
    let (loc, _) = pt.lookup(0x3000, PtLevel::Normal).unwrap();
    assert_eq!(pt.pte_at(loc).pa(), 0x8020_5000);
}

#[test]
fn map_without_frames_fails() {
    let mut pt = Pagetable::new();
    let mut frames: Vec<u64> = vec![0x8010_0000];
    assert!(!pt.map(0x1000, 0x8020_0000, PtLevel::Normal, perm::URW, &mut frames));
}

#[test]
fn giga_mapping_needs_no_frames() {
    let mut pt = Pagetable::new();
    pt.map_giga(pa2hka(0x8000_0000), 0x8000_0000, perm::RWX);
    let (loc, lvl) = pt.lookup(HIGHMEM_BASE + 0x8000_1234, PtLevel::Normal).unwrap();
    assert!(lvl == PtLevel::Giga);
    assert_eq!(pt.pte_at(loc).pa(), 0x8000_0000);
    assert_eq!(pt.pte_at(loc).perm(), perm::RWX);
}

#[test]
fn satp_holds_mode_and_root() {
    let pt = Pagetable::new();
    assert_eq!(pt.satp(0x8040_0000), (8u64 << 60) | 0x80400);
}

#[test]
fn iterator_yields_user_pages_in_order() {
    let mut pt = Pagetable::new();
    let mut frames: Vec<u64> = vec![0x8010_0000, 0x8010_1000];
    assert!(pt.map(0x3000, 0x8020_5000, PtLevel::Normal, perm::URW, &mut frames));
    assert!(pt.map(0x1000, 0x8020_0000, PtLevel::Normal, perm::URWX, &mut frames));
    let mut it = PtIter::new(&pt);
    let a = it.next().unwrap();
    assert_eq!((a.va(), a.pa(), a.perm()), (0x1000, 0x8020_0000, perm::URWX));
    let b = it.next().unwrap();
    assert_eq!((b.va(), b.pa(), b.perm()), (0x3000, 0x8020_5000, perm::URW));
    assert!(it.next().is_none());
}

#[test]
fn free_gives_back_lower_tables() {
    let mut pt = Pagetable::new();
    let mut frames: Vec<u64> = vec![0x8010_0000, 0x8010_1000];
    assert!(pt.map(0x1000, 0x8020_0000, PtLevel::Normal, perm::URW, &mut frames));
    let freed = pt.free();
    assert_eq!(freed, vec![0x8010_1000, 0x8010_0000]);
    assert!(pt.lookup(0x1000, PtLevel::Normal).is_none());
}

#[test]
fn kernel_address_translation() {
    assert!(ishka(HIGHMEM_BASE));
    assert!(!ishka(HIGHMEM_BASE - 1));
    assert_eq!(pa2hka(0x8000_0000), HIGHMEM_BASE + 0x8000_0000);
    assert_eq!(hka2pa(pa2hka(0x1234)), 0x1234);
}

#[test]
fn images_give_the_tables_as_memory() {
    let mut pt = Pagetable::new();
    let mut frames: Vec<u64> = vec![0x8010_0000, 0x8010_1000];
    assert!(pt.map(0x1000, 0x8020_0000, PtLevel::Normal, perm::URW, &mut frames));
    let imgs = pt.images(0x8000_0000);
    assert_eq!(imgs.len(), 3);
    assert_eq!(imgs[0].pa, 0x8000_0000);
    assert!(imgs.iter().all(|t| t.words.len() == 512));
    // The root's first entry points to one of the two lower tables.
    let root0 = imgs[0].words[0];
    assert_eq!(root0 & 1, 1);
    let target = (root0 >> 10) << 12;
    assert!(imgs[1..].iter().any(|t| t.pa == target));
    // The leaf sits in the image of its table, at its index.
    let (loc, _) = pt.lookup(0x1000, PtLevel::Normal).unwrap();
    let k = loc.table.unwrap();
    assert_eq!(imgs[k + 1].words[loc.index], pt.pte_at(loc).raw());
    assert_eq!(imgs[k + 1].words[0], 0);
}

#[test]
fn free_gives_back_tables_then_pages() {
    let mut pt = Pagetable::new();
    let mut frames: Vec<u64> = vec![0x8010_0000, 0x8010_1000];
    let pg = Page { pa: 0x8030_0000, data: vec![5u8; 4096] };
    assert!(pt.mappg(0x4000, pg, perm::URW, &mut frames).is_some());
    assert_eq!(pt.npages(), 1);
    pt.set_page_data(0, vec![7u8; 4096]);
    assert_eq!(pt.page_at(0).pa, 0x8030_0000);
    assert_eq!(pt.page_at(0).data[4095], 7);
    let freed = pt.free();
    assert_eq!(freed, vec![0x8010_1000, 0x8010_0000, 0x8030_0000]);
    assert_eq!(pt.npages(), 0);
    assert!(pt.lookup(0x4000, PtLevel::Normal).is_none());
}

#[test]
fn irq_lock_disables_and_restores_interrupts() {
    let mut l = IrqLock::new(5u32);
    let (g, s) = l.lock(0x22);
    assert!(g.was_en);
    assert_eq!(s, 0x20);
    *l.value(&g) += 1;
    assert_eq!(l.unlock(g, s), 0x22);
    let (g, s) = l.lock(0x20);
    assert!(!g.was_en);
    assert_eq!(l.unlock(g, s), 0x20);
    assert_eq!(*l.value(&g), 6);
}

#[test]
fn scan_finds_every_small_page_past_a_large_leaf() {
    let mut pt = Pagetable::new();
    let mut frames: Vec<u64> = (0..8).map(|i| 0x8010_0000 + 0x1000 * i).collect();
    // A 2 MiB leaf at 2 MiB, and 4 KiB pages below and above it.
    assert!(pt.map(0x20_0000, 0x8040_0000, PtLevel::Mega, perm::URW, &mut frames));
    assert!(pt.map(0x1f_f000, 0x8020_0000, PtLevel::Normal, perm::URW, &mut frames));
    assert!(pt.map(0x40_0000, 0x8020_1000, PtLevel::Normal, perm::URW, &mut frames));
    let mut it = PtIter::new(&pt);
    let mut vas = vec![];
    while let Some(m) = it.next() {
        vas.push(m.va());
    }
    assert_eq!(vas, vec![0x1f_f000, 0x40_0000]);
}
