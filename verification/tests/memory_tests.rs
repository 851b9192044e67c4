use hobkey::memory::phys::PhysicalMemory;
use hobkey::memory::mmap::MmapTracker;
use hobkey::memory::pmm::{EntryType, MemoryMapEntry, PmmError, PMM};
use hobkey::memory::{get_containing_page, next_multiple_of_u64, next_multiple_of_usize, MemoryRange};

#[test]
fn containing_page_rounds_down() {
    assert_eq!(get_containing_page(0x1234), 0x1000);
    assert_eq!(get_containing_page(0x2000), 0x2000);
}

#[test]
fn next_multiple_rounds_up() {
    assert_eq!(next_multiple_of_u64(5, 4), 8);
    assert_eq!(next_multiple_of_u64(8, 4), 8);
    assert_eq!(next_multiple_of_usize(0, 4096), 0);
    assert_eq!(next_multiple_of_usize(4097, 4096), 8192);
}

#[test]
fn range_length_and_split() {
    let r = MemoryRange(0x1000..0x5000);
    assert_eq!(r.len(), 0x4000);
    let (a, b) = r.shrink(0x1000).unwrap();
    assert_eq!(a.0, 0x1000..0x2000);
    assert_eq!(b.0, 0x2000..0x5000);
    assert!(r.shrink(0x5000).is_none());
    assert_eq!(a.append(&b).unwrap().0, 0x1000..0x5000);
}

#[test]
fn ranges_join_only_when_touching() {
    let a = MemoryRange(0x1000..0x2000);
    let b = MemoryRange(0x3000..0x4000);
    assert!(a.append(&b).is_none());
    assert_eq!(a.copy().0, 0x1000..0x2000);
}

#[test]
fn mappings_come_from_the_front() {
    let mut t = MmapTracker::new(0x10_0000, 0x20_0000);
    let a = t.get_mapping(0x1800).unwrap();
    assert_eq!(a.0, 0x10_0000..0x10_2000);
    let b = t.get_mapping(0x1000).unwrap();
    assert_eq!(b.0, 0x10_2000..0x10_3000);
    assert!(t.get_mapping(0x20_0000).is_none());
}

#[test]
fn released_mapping_is_handed_out_again() {
    let mut t = MmapTracker::new(0x10_0000, 0x20_0000);
    let a = t.get_mapping(0x1000).unwrap();
    t.release_mapping(a);
    let b = t.get_mapping(0x1000).unwrap();
    assert_eq!(b.0, 0x10_0000..0x10_1000);
}

#[test]
fn release_restores_a_single_range() {
    let mut t = MmapTracker::new(0, 8192);
    let a = t.get_mapping(4096).unwrap();
    assert_eq!(a.0, 0..4096);
    t.release_mapping(a);
    let whole = t.get_mapping(8192).unwrap();
    assert_eq!(whole.0, 0..8192);
}

#[test]
fn release_merges_with_the_range_before() {
    let mut t = MmapTracker::new(0, 0x4000);
    let a = t.get_mapping(0x1000).unwrap();
    let b = t.get_mapping(0x1000).unwrap();
    let _c = t.get_mapping(0x1000).unwrap();
    t.release_mapping(a);
    t.release_mapping(b);
    let z = t.get_mapping(0x2000).unwrap();
    assert_eq!(z.0, 0..0x2000);
}

#[test]
fn release_merges_with_both_neighbours() {
    let mut u = MmapTracker::new(0x10_0000, 0x10_4000);
    let a = u.get_mapping(0x1000).unwrap();
    let b = u.get_mapping(0x1000).unwrap();
    let c = u.get_mapping(0x1000).unwrap();
    u.release_mapping(a);
    // `c` ends where the free tail begins: the two are joined
    u.release_mapping(c);
    assert!(u.get_mapping(0x3000).is_none());
    // `b` touches both free ranges and joins them into one
    u.release_mapping(b);
    let z = u.get_mapping(0x4000).unwrap();
    assert_eq!(z.0, 0x10_0000..0x10_4000);
}

fn entry(base: u64, length: u64, entry_type: EntryType) -> MemoryMapEntry {
    MemoryMapEntry { base, length, entry_type }
}

#[test]
fn pmm_init_links_usable_runs() {
    let map = vec![
        entry(0x1000, 0x3000, EntryType::Usable),
        entry(0x10000, 0x1000, EntryType::Reserved),
        entry(0x20000, 0x2000, EntryType::Usable),
    ];
    let mut mem = PhysicalMemory::new();
    let pmm = PMM::init(&map, &mut mem);
    assert_eq!(pmm.head(), 0x20000);
    assert_eq!(pmm.get_avaiable_memory(), 2 * 4096);
    assert_eq!(mem.read(0x1000), 0x20000);
    assert_eq!(mem.read(0x1008), 0x3000);
    assert_eq!(mem.read(0x20000), 0x1000);
    assert_eq!(mem.read(0x20008), 0x2000);
}

#[test]
fn pmm_pop_takes_from_the_head_run() {
    let map = vec![entry(0x1000, 0x3000, EntryType::Usable)];
    let mut mem = PhysicalMemory::new();
    let mut pmm = PMM::init(&map, &mut mem);
    mem.write(0x1800, 77);
    let page = pmm.pop_page(&mut mem);
    assert_eq!(page, 0x1000);
    // the page comes back cleared, the run's header moved one page up
    assert_eq!(mem.read(0x1000), 0);
    assert_eq!(mem.read(0x1008), 0);
    assert_eq!(mem.read(0x1800), 0);
    assert_eq!(mem.read(0x2008), 0x2000);
    assert_eq!(pmm.head(), 0x2000);
    assert_eq!(pmm.get_avaiable_memory(), 0);
    assert_eq!(pmm.pop_page(&mut mem), 0);
    assert_eq!(pmm.head(), 0x2000);
}

#[test]
fn pmm_push_then_pop_gives_the_page_back() {
    let map = vec![entry(0x10_0000, 0x1000, EntryType::Usable)];
    let mut mem = PhysicalMemory::new();
    let mut pmm = PMM::init(&map, &mut mem);
    pmm.push_page(0x50_0000, &mut mem);
    assert_eq!(pmm.head(), 0x50_0000);
    assert_eq!(mem.read(0x50_0000), 0x10_0000);
    assert_eq!(mem.read(0x50_0008), 4096);
    assert_eq!(pmm.pop_page(&mut mem), 0x50_0000);
    assert_eq!(pmm.head(), 0x10_0000);
}

#[test]
fn pmm_push_joins_the_head_run() {
    let map = vec![entry(0x10_0000, 0x1000, EntryType::Usable)];
    let mut mem = PhysicalMemory::new();
    let mut pmm = PMM::init(&map, &mut mem);
    pmm.push_page(0x10_1000, &mut mem);
    assert_eq!(pmm.head(), 0x10_0000);
    assert_eq!(mem.read(0x10_0008), 0x2000);
    pmm.push_page(0xf_f000, &mut mem);
    assert_eq!(pmm.head(), 0xf_f000);
    assert_eq!(mem.read(0xf_f008), 0x3000);
}

#[test]
fn pmm_reclaims_bootloader_memory_once() {
    let map = vec![
        entry(0x1000, 0x1000, EntryType::Usable),
        entry(0x8000, 0x2000, EntryType::BootloaderReclaimable),
    ];
    let mut mem = PhysicalMemory::new();
    let mut pmm = PMM::init(&map, &mut mem);
    assert_eq!(pmm.reclaim_bootloader(&map), Ok(vec![0x8000, 0x9000]));
    assert_eq!(pmm.reclaim_bootloader(&map), Err(PmmError::NonReclaimable));
}

#[test]
fn range_conversions() {
    let r: MemoryRange = (0x1000u64..0x3000u64).into();
    assert_eq!(r.len(), 0x2000);
    let back: core::ops::Range<u64> = r.into();
    assert_eq!(back, 0x1000..0x3000);
}
