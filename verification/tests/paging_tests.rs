use hobkey::memory::pmm::{EntryType, MemoryMapEntry, PMM};
use hobkey::memory::mmap::MmapTracker;
use hobkey::memory::paging::paging_flags::{PAGING_PRESENT, PAGING_RW};
use hobkey::memory::paging::{
    from_indexes, next_page, split_virtual, DumpToken, PageTableManager, PtmError, TableEntry,
    TableLayer,
};
use hobkey::memory::phys::PhysicalMemory;
use DumpToken::{Close, Comma, Entry, EntryClose, EntryOpen, LayerKey, Open};

const B: u8 = 48;

fn manager(root: u64) -> PageTableManager {
    PageTableManager::from_parts(root, 0xffff_ffff_9000_0000, 0xffff_ffff_9000_1000, 0, 0)
}

#[test]
fn split_higher_half_start() {
    let (idx, off) = split_virtual(0xffff_8000_0000_0000);
    assert_eq!(idx, [256, 0, 0, 0]);
    assert_eq!(off, 0);
}

#[test]
fn split_and_join_drop_bit_eleven_and_sign() {
    let v = 0x0000_7fff_ffff_ffff;
    let parts = split_virtual(v);
    assert_eq!(parts.0, [0xff, 0x1ff, 0x1ff, 0x1ff]);
    assert_eq!(parts.1, 0x7ff);
    assert_eq!(from_indexes(parts), 0x0000_7fff_ffff_f7ff);
}

#[test]
fn join_then_split_gives_parts_back() {
    let v = from_indexes(([1, 2, 3, 4], 5));
    assert_eq!(v, (1 << 39) | (2 << 30) | (3 << 21) | (4 << 12) | 5);
    assert_eq!(split_virtual(v), ([1, 2, 3, 4], 5));
}

#[test]
fn next_page_rounds_up() {
    assert_eq!(next_page(0x1001), 0x2000);
    assert_eq!(next_page(0x2000), 0x2000);
    assert_eq!(next_page(0), 0);
}

#[test]
fn phy_mask_covers_bits_eleven_up() {
    assert_eq!(TableEntry::generate_phy_mask(52), 0x0007_ffff_ffff_f800);
    assert_eq!(TableEntry::generate_phy_mask(48), 0x0000_7fff_ffff_f800);
}

#[test]
fn table_entry_fields() {
    let e = TableEntry::new(0x5, true, B);
    assert_eq!(e.0, 0x5002);
    assert_eq!(e.get_pointer(B), 0x5000);
    assert_eq!(e.get_flags(B), 2);
    assert!(!e.is_present());
    let mut e = e;
    e.set_pointer(0x9000, B);
    assert_eq!(e.get_pointer(B), 0x9000);
    e.set_flags(PAGING_PRESENT, B);
    assert_eq!(e.0, 0x9001);
    assert!(e.is_present());
}

#[test]
fn check_and_alloc_takes_a_page_for_an_absent_entry() {
    let mut frames = vec![0x7000, 0x8000];
    let mut e = TableEntry(0);
    e.check_and_alloc(PAGING_RW | PAGING_PRESENT, &mut frames, B);
    assert_eq!(e.0, 0x8003);
    assert_eq!(frames, vec![0x7000]);
    e.check_and_alloc(PAGING_PRESENT, &mut frames, B);
    assert_eq!(e.0, 0x8001);
    assert_eq!(frames, vec![0x7000]);
}

#[test]
fn map_then_get_physical() {
    let mut mem = PhysicalMemory::new();
    let mut frames = vec![0x5000, 0x4000, 0x3000];
    let mut ptm = manager(0x1000);
    let virt = 0x40_0000;
    assert!(ptm.map(&mut mem, &mut frames, 0x9000, virt, PAGING_RW | PAGING_PRESENT, false, B).is_ok());
    assert!(frames.is_empty());
    assert_eq!(mem.read(0x1000), 0x3003);
    assert_eq!(mem.read(0x3000), 0x4003);
    assert_eq!(mem.read(0x4000 + 8 * 2), 0x5003);
    assert_eq!(mem.read(0x5000), 0x9003);
    assert_eq!(ptm.get_physical(&mem, virt, false, B), Ok(0x9000));
    assert_eq!(ptm.crawl(&mem, virt, TableLayer::PT, false, B), Ok(0x5000));
    assert_eq!(ptm.crawl(&mem, virt, TableLayer::PDT, false, B), Ok(0x4010));
}

#[test]
fn missing_table_is_no_mapping() {
    let mut mem = PhysicalMemory::new();
    let mut frames = vec![0x5000, 0x4000, 0x3000];
    let mut ptm = manager(0x1000);
    assert!(ptm.map(&mut mem, &mut frames, 0x9000, 0x40_0000, 3, false, B).is_ok());
    assert_eq!(
        ptm.get_physical(&mem, 0x80_0000, false, B),
        Err(PtmError::NoMapping(0x80_0000))
    );
}

#[test]
fn unmap_clears_flags_and_frees_the_page() {
    let mut mem = PhysicalMemory::new();
    let mut frames = vec![0x5000, 0x4000, 0x3000];
    let mut ptm = manager(0x1000);
    assert!(ptm.map(&mut mem, &mut frames, 0x9000, 0x40_0000, 3, false, B).is_ok());
    let mut freed = Vec::new();
    assert!(ptm.unmap(&mut mem, 0x40_0000, true, &mut freed, false, B).is_ok());
    assert_eq!(freed, vec![0x9000]);
    assert_eq!(mem.read(0x5000), 0x9000);
    let mut none = Vec::new();
    assert_eq!(
        ptm.unmap(&mut mem, 0x80_0000, true, &mut none, false, B),
        Err(PtmError::NoMapping(0x80_0000))
    );
    assert!(none.is_empty());
}

#[test]
fn map_range_checks_its_ranges() {
    let mut mem = PhysicalMemory::new();
    let mut frames = vec![0x5000, 0x4000, 0x3000];
    let mut ptm = manager(0x1000);
    assert_eq!(
        ptm.map_range(&mut mem, &mut frames, (0x9000, 0xa000), (0x40_0000, 0x40_2000), 3, false, B),
        Err(PtmError::InvalidRange)
    );
    assert_eq!(
        ptm.map_range(&mut mem, &mut frames, (0x9000, 0x9800), (0x40_0000, 0x40_0800), 3, false, B),
        Err(PtmError::IncorrectPageSize)
    );
    assert_eq!(
        ptm.map_range(&mut mem, &mut frames, (0x9010, 0xa010), (0x40_0000, 0x40_1000), 3, false, B),
        Err(PtmError::UnallignedPage)
    );
    assert_eq!(frames.len(), 3);
}

#[test]
fn map_range_maps_its_end_page_too() {
    let mut mem = PhysicalMemory::new();
    let mut frames = vec![0x5000, 0x4000, 0x3000];
    let mut ptm = manager(0x1000);
    assert!(ptm
        .map_range(&mut mem, &mut frames, (0x9000, 0xa000), (0x40_0000, 0x40_1000), 3, false, B)
        .is_ok());
    assert_eq!(ptm.get_physical(&mem, 0x40_0000, false, B), Ok(0x9000));
    assert_eq!(ptm.get_physical(&mem, 0x40_1000, false, B), Ok(0xa000));
}

#[test]
fn map_temp_moves_the_window() {
    let mut ptm = manager(0x1000);
    assert_eq!(ptm.map_temp(0x7000, false, 0, B), Ok(0xffff_ffff_9000_0000));
    assert_eq!(ptm.get_temp(false, B), 0x7000);
    assert_eq!(ptm.tmp_entry.0, 0x7003);
    assert_eq!(ptm.map_temp(0x7000, true, 0xffff_8000_0000_0000, B), Ok(0xffff_8000_0000_7000));
    assert_eq!(ptm.get_temp(true, B), 0);
}

#[test]
fn mmap_backs_fresh_pages_and_munmap_gives_them_back() {
    let mut mem = PhysicalMemory::new();
    let map = vec![
        MemoryMapEntry { base: 0x20_0000, length: 0x3000, entry_type: EntryType::Usable },
        MemoryMapEntry { base: 0x30_0000, length: 0x1000, entry_type: EntryType::Usable },
    ];
    let mut pmm = PMM::init(&map, &mut mem);
    mem.write(0x20_0100, 5);
    let mut frames = vec![0x5000, 0x4000, 0x3000];
    let mut ptm = manager(0x1000);
    ptm.mmap_tracker = Some(MmapTracker::new(0x40_0000, 0x80_0000));
    let addr = ptm.mmap(&mut mem, &mut frames, &mut pmm, 0x1800, 3, false, B);
    assert_eq!(addr, Some(0x40_0000));
    assert_eq!(ptm.get_physical(&mem, 0x40_0000, false, B), Ok(0x30_0000));
    assert_eq!(ptm.get_physical(&mem, 0x40_1000, false, B), Ok(0x20_0000));
    // the pages come from the manager, cleared
    assert_eq!(mem.read(0x20_0100), 0);
    assert_eq!(mem.read(0x30_0008), 0);
    assert_eq!(pmm.get_avaiable_memory(), 0);
    assert!(frames.is_empty());
    let mut freed = Vec::new();
    ptm.munmap(&mut mem, 0x40_0000, 0x1800, &mut freed, false, B);
    // the range is walked inclusively of its end: the page after it goes too
    assert_eq!(freed, vec![0x30_0000, 0x20_0000, 0]);
    let again = ptm.mmap_tracker.as_mut().unwrap().get_mapping(0x1000);
    assert_eq!(again.map(|r| r.0.start), Some(0x40_0000));
}

#[test]
fn map_into_keeps_the_offset_page() {
    let mut mem = PhysicalMemory::new();
    let mut frames = vec![0x5000, 0x4000, 0x3000];
    let mut ptm = manager(0x1000);
    ptm.mmap_tracker = Some(MmapTracker::new(0x40_0000, 0x80_0000));
    let addr = ptm.map_into(&mut mem, &mut frames, 0x9010, 0x20, 3, false, B);
    assert_eq!(addr, Some(0x40_0000));
    assert_eq!(ptm.get_physical(&mem, 0x40_0000, false, B), Ok(0x9000));
}

#[test]
fn new_address_space_shares_the_higher_half() {
    let mut mem = PhysicalMemory::new();
    let mut frames = vec![0x6000, 0x5000, 0x4000, 0x3000];
    let mut ptm = manager(0x1000);
    assert!(ptm
        .map(&mut mem, &mut frames, 0x9000, 0xffff_8000_0000_0000, 3, false, B)
        .is_ok());
    let mut child = ptm.new(&mut mem, &mut frames, 0x1000, 0x2000, false, B).ok().unwrap();
    assert_eq!(child.phy_addr, 0x6000);
    assert_eq!(mem.read(0x6000 + 8 * 256), mem.read(0x1000 + 8 * 256));
    assert_eq!(child.get_physical(&mem, 0xffff_8000_0000_0000, false, B), Ok(0x9000));
}

fn bootstrap() -> (PageTableManager, u64, PhysicalMemory, Vec<u64>) {
    let mut mem = PhysicalMemory::new();
    let mut frames = vec![0x10000, 0xf000, 0xe000, 0xd000, 0xc000];
    let (ptm, heap) = PageTableManager::new_bootstrap(
        &mut mem,
        &mut frames,
        0xffff_ffff_8000_0000,
        0x20_0000,
        0xffff_ffff_8000_1234,
        B,
    )
    .ok()
    .unwrap();
    (ptm, heap, mem, frames)
}

#[test]
fn bootstrap_lays_out_window_and_heap() {
    let (mut ptm, heap, mem, frames) = bootstrap();
    assert_eq!(ptm.phy_addr, 0xc000);
    assert_eq!(ptm.tmp_address, 0xffff_ffff_8000_3000);
    assert_eq!(ptm.tmp_entry_address, 0xffff_ffff_8000_4000 + 24);
    assert_eq!(ptm.mmap_end, 0xffff_ffff_8000_0000);
    assert_eq!(heap, 0xffff_ffff_8000_5000);
    assert_eq!(frames, vec![0x10000]);
    assert_eq!(ptm.get_physical(&mem, 0xffff_ffff_8000_0000, false, B), Ok(0x20_0000));
    assert_eq!(ptm.get_physical(&mem, 0xffff_ffff_8000_2000, false, B), Ok(0x20_2000));
    assert_eq!(mem.read(0xf000 + 8 * 4), 0xf003);
}

#[test]
fn bootstrap_refuses_unaligned_kernel() {
    let mut mem = PhysicalMemory::new();
    let mut frames = vec![0xf000, 0xe000, 0xd000, 0xc000];
    let r = PageTableManager::new_bootstrap(
        &mut mem,
        &mut frames,
        0xffff_ffff_8000_0000,
        0x20_0010,
        0xffff_ffff_8000_1234,
        B,
    );
    assert!(matches!(r, Err(PtmError::UnallignedPage)));
}

#[test]
fn dump_lists_every_present_entry() {
    let (mut ptm, _, mem, _) = bootstrap();
    let tokens = ptm.dump_to_serial(&mem, 0xc000, false, 0, B);
    let leaf = |address: u64| vec![EntryOpen, Entry { flags: 3, address, depth: 3 }, EntryClose];
    let mut expected = vec![
        Open,
        EntryOpen,
        Entry { flags: 3, address: 0xd000, depth: 0 },
        LayerKey,
        Open,
        EntryOpen,
        Entry { flags: 3, address: 0xe000, depth: 1 },
        LayerKey,
        Open,
        EntryOpen,
        Entry { flags: 3, address: 0xf000, depth: 2 },
        LayerKey,
        Open,
    ];
    expected.extend(leaf(0x20_0000));
    expected.push(Comma);
    expected.extend(leaf(0x20_1000));
    expected.push(Comma);
    expected.extend(leaf(0x20_2000));
    expected.push(Comma);
    expected.extend(leaf(0xf000));
    expected.extend(vec![Close, EntryClose, Close, EntryClose, Close, EntryClose, Close]);
    assert_eq!(tokens, expected);
    assert_eq!(ptm.get_temp(false, B), 0);
    assert_eq!(ptm.tmp_entry.0, 3);
}

#[test]
fn map_system_call_checks_alignment() {
    let mut mem = PhysicalMemory::new();
    let mut frames = vec![0x5000, 0x4000, 0x3000];
    let mut ptm = manager(0x1000);
    assert_eq!(ptm.map_interrupt(&mut mem, &mut frames, 0x9010, 0x40_0000, 3, false, B), -1);
    assert_eq!(frames.len(), 3);
    assert_eq!(ptm.map_interrupt(&mut mem, &mut frames, 0x9000, 0x40_0000, 3, false, B), 0);
    assert_eq!(ptm.get_physical(&mem, 0x40_0000, false, B), Ok(0x9000));
}

#[test]
fn unmap_system_call_checks_alignment() {
    let mut mem = PhysicalMemory::new();
    let mut frames = vec![0x5000, 0x4000, 0x3000];
    let mut ptm = manager(0x1000);
    assert_eq!(ptm.map_interrupt(&mut mem, &mut frames, 0x9000, 0x40_0000, 3, false, B), 0);
    let mut freed = Vec::new();
    assert_eq!(ptm.unmap_interrupt(&mut mem, 0x40_0008, true, &mut freed, false, B), -1);
    assert!(freed.is_empty());
    assert_eq!(ptm.unmap_interrupt(&mut mem, 0x40_0000, true, &mut freed, false, B), 0);
    assert_eq!(freed, vec![0x9000]);
}

#[test]
fn unmap_temp_leaves_the_window() {
    let mut ptm = manager(0x1000);
    assert!(ptm.map_temp(0x7000, false, 0, B).is_ok());
    ptm.unmap_temp(B);
    assert_eq!(ptm.get_temp(false, B), 0x7000);
    assert_eq!(ptm.tmp_entry.0, 0x7003);
}

#[test]
fn entry_and_level_conversions() {
    assert_eq!(u64::from(TableEntry(0x5003)), 0x5003);
    assert_eq!(TableEntry::from(0x7001u64).0, 0x7001);
    assert_eq!(usize::from(TableLayer::PML4), 0);
    assert_eq!(usize::from(TableLayer::PDT), 2);
    assert_eq!(usize::from(TableLayer::PT), 3);
}

#[test]
fn walks_leave_the_window_on_the_last_table() {
    let mut mem = PhysicalMemory::new();
    let mut frames = vec![0x5000, 0x4000, 0x3000];
    let mut ptm = manager(0x1000);
    assert!(ptm.map(&mut mem, &mut frames, 0x9000, 0x40_0000, 3, false, B).is_ok());
    assert_eq!(ptm.tmp_entry.0, 0x5003);
    assert_eq!(ptm.crawl(&mem, 0x40_0000, TableLayer::PDT, false, B), Ok(0x4010));
    assert_eq!(ptm.get_temp(false, B), 0x4000);
    // the walk stops in the table at 0x4000, which stays shown
    assert!(ptm.get_physical(&mem, 0x80_0000, false, B).is_err());
    assert_eq!(ptm.get_temp(false, B), 0x4000);
    assert_eq!(ptm.crawl(&mem, 0x40_0000, TableLayer::PML4, false, B), Ok(0x1000));
    assert_eq!(ptm.get_temp(false, B), 0x1000);
}

#[test]
fn direct_map_walks_leave_the_window_alone() {
    let mut mem = PhysicalMemory::new();
    let mut frames = vec![0x5000, 0x4000, 0x3000];
    let mut ptm = manager(0x1000);
    assert!(ptm.map(&mut mem, &mut frames, 0x9000, 0x40_0000, 3, true, B).is_ok());
    assert_eq!(ptm.get_physical(&mem, 0x40_0000, true, B), Ok(0x9000));
    assert_eq!(ptm.tmp_entry.0, 0);
}
