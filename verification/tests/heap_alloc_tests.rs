use hobkey::memory::heap_alloc::{is_power_of_two, AllocStep, Layout, MetaAlloc, MetaData, NODE_SIZE};

fn layout(size: usize, align: usize) -> Layout {
    Layout::from_size_align(size, align).unwrap()
}

#[test]
fn power_of_two_detection() {
    assert!(is_power_of_two(1));
    assert!(is_power_of_two(2));
    assert!(is_power_of_two(4096));
    assert!(!is_power_of_two(0));
    assert!(!is_power_of_two(3));
    assert!(!is_power_of_two(6));
    assert!(!is_power_of_two(4097));
}

#[test]
fn layout_rejects_bad_alignment() {
    assert!(Layout::from_size_align(8, 0).is_none());
    assert!(Layout::from_size_align(8, 3).is_none());
    assert!(Layout::from_size_align(8, 12).is_none());
}

#[test]
fn layout_rejects_size_beyond_isize() {
    assert!(Layout::from_size_align(usize::MAX, 8).is_none());
    assert!(Layout::from_size_align(isize::MAX as usize, 1).is_some());
    assert!(Layout::from_size_align(isize::MAX as usize, 2).is_none());
}

#[test]
fn layout_keeps_size_and_align() {
    let l = layout(24, 16);
    assert_eq!(l.size(), 24);
    assert_eq!(l.align(), 16);
}

#[test]
fn metadata_locations_for_node_aligned_base() {
    let m = MetaData::new(0x1000, layout(16, 8));
    assert_eq!(m.extra_size(), 40);
    assert_eq!(m.total_size(), 56);
    assert_eq!(m.data_location(), 0x1028);
    assert_eq!(m.meta_location(), 0x1000);
}

#[test]
fn metadata_locations_for_unaligned_base() {
    let m = MetaData::new(0x1004, layout(16, 8));
    assert_eq!(m.extra_size(), 44);
    assert_eq!(m.data_location(), 0x1030);
    assert_eq!(m.meta_location(), 0x1008);
}

#[test]
fn metadata_locations_for_large_alignment() {
    let m = MetaData::new(0x1000, layout(16, 64));
    assert_eq!(m.extra_size(), 64);
    assert_eq!(m.data_location(), 0x1040);
    assert_eq!(m.data_location() % 64, 0);
    assert_eq!(m.meta_location(), 0x1018);
    assert_eq!(m.usable_size(), 40);
}

#[test]
fn default_meta_offset_pads_to_node_alignment() {
    assert_eq!(MetaData::default_meta_offset(0x1000), 0);
    assert_eq!(MetaData::default_meta_offset(0x1003), 5);
    assert_eq!(MetaData::default_meta_offset(0x1007), 1);
}

#[test]
fn compatibility_with_same_alignment_uses_usable_size() {
    let m = MetaData::new(0x1000, layout(100, 8));
    assert_eq!(m.usable_size(), 100);
    assert!(m.check_compatible(&layout(60, 8)));
    assert!(m.check_compatible(&layout(100, 4)));
    assert!(!m.check_compatible(&layout(101, 8)));
}

#[test]
fn compatibility_with_stricter_alignment_lays_out_again() {
    let m = MetaData::new(0x1000, layout(100, 8));
    assert_eq!(m.total_size(), 140);
    assert!(m.check_compatible(&layout(60, 64)));
    assert!(m.check_compatible(&layout(76, 64)));
    assert!(!m.check_compatible(&layout(77, 64)));
}

#[test]
fn blank_block_fills_its_page() {
    let m = MetaData::new_blank(0x2004, 4096);
    assert_eq!(m.base, 0x2004);
    assert_eq!(m.layout.size(), 4096 - 4 - 40);
    assert_eq!(m.layout.align(), 8);
    assert_eq!(m.total_size(), 4096);
}

#[test]
fn node_and_data_pointers_are_a_node_apart() {
    let m = MetaData::new(0x3000, layout(32, 8));
    let data = MetaAlloc::node_to_data_ptr(m);
    assert_eq!(data, 0x3028);
    assert_eq!(MetaAlloc::raw_to_existing_node(data), 0x3000);
    assert_eq!(MetaAlloc::raw_to_existing_node(data), m.meta_location());
    assert_eq!(NODE_SIZE, 40);
}

#[test]
fn empty_heap_asks_for_a_page() {
    let mut heap = MetaAlloc::new(0x10_0000, 0x10_0000);
    assert_eq!(heap.next_page_location(), Some(0x10_0000));
    assert!(matches!(heap.alloc_step(layout(32, 8)), AllocStep::NeedPage));
    assert_eq!(heap.free.len(), 0);
}

#[test]
fn first_allocation_splits_the_page() {
    let mut heap = MetaAlloc::new(0x10_0000, 0x10_0000);
    assert!(heap.try_add_page(true));
    assert_eq!(heap.offset, 4096);
    assert_eq!(heap.free.len(), 1);
    assert_eq!(heap.free[0].base, 0x10_0000);
    assert_eq!(heap.free[0].total_size(), 4096);
    match heap.alloc_step(layout(32, 8)) {
        AllocStep::Done(p) => assert_eq!(p, 0x10_0028),
        AllocStep::NeedPage => panic!("a page was added"),
    }
    assert_eq!(heap.free.len(), 1);
    assert_eq!(heap.free[0].base, 0x10_0048);
    assert_eq!(heap.free[0].layout.size(), 3984);
}

#[test]
fn freeing_everything_merges_back_into_one_page() {
    let mut heap = MetaAlloc::new(0x10_0000, 0x10_0000);
    assert!(heap.try_add_page(true));
    let a = match heap.alloc_step(layout(32, 8)) {
        AllocStep::Done(p) => p,
        AllocStep::NeedPage => panic!("a page was added"),
    };
    let b = match heap.alloc_step(layout(16, 8)) {
        AllocStep::Done(p) => p,
        AllocStep::NeedPage => panic!("the page has room"),
    };
    assert_eq!(b, 0x10_0070);
    assert_eq!(heap.free.len(), 1);
    assert_eq!(heap.free[0].base, 0x10_0080);
    heap.dealloc(a, layout(32, 8));
    assert_eq!(heap.free.len(), 2);
    assert_eq!(heap.free[0].base, 0x10_0000);
    assert_eq!(heap.free[1].base, 0x10_0080);
    heap.dealloc(b, layout(16, 8));
    assert_eq!(heap.free.len(), 1);
    assert_eq!(heap.free[0].base, 0x10_0000);
    assert_eq!(heap.free[0].total_size(), 4096);
    assert_eq!(heap.free[0].layout.size(), 4056);
}

#[test]
fn allocation_honours_alignment() {
    let mut heap = MetaAlloc::new(0x10_0000, 0x10_0000);
    assert!(heap.try_add_page(true));
    match heap.alloc_step(layout(100, 256)) {
        AllocStep::Done(p) => {
            assert_eq!(p % 256, 0);
            assert_eq!(p, 0x10_0100);
        },
        AllocStep::NeedPage => panic!("the page has room"),
    }
}

#[test]
fn too_large_request_needs_a_page() {
    let mut heap = MetaAlloc::new(0x10_0000, 0x10_0000);
    assert!(heap.try_add_page(true));
    assert!(matches!(heap.alloc_step(layout(5000, 8)), AllocStep::NeedPage));
    assert_eq!(heap.free.len(), 1);
}

#[test]
fn adjacent_pages_merge() {
    let mut heap = MetaAlloc::new(0x10_0000, 0x10_0000);
    assert!(heap.try_add_page(true));
    assert!(heap.try_add_page(true));
    assert_eq!(heap.free.len(), 1);
    assert_eq!(heap.free[0].total_size(), 8192);
}

#[test]
fn unmapped_page_is_skipped() {
    let mut heap = MetaAlloc::new(0x10_0000, 0x10_0000);
    assert!(!heap.try_add_page(false));
    assert_eq!(heap.offset, 4096);
    assert_eq!(heap.free.len(), 0);
    assert_eq!(heap.next_page_location(), Some(0x10_1000));
    assert!(heap.try_add_page(true));
    assert_eq!(heap.free[0].base, 0x10_1000);
}

#[test]
fn heap_stops_growing_at_its_maximum() {
    let mut heap = MetaAlloc::new(0x10_0000, 4096);
    assert!(heap.try_add_page(true));
    assert_eq!(heap.next_page_location(), None);
    assert!(!heap.try_add_page(true));
    assert_eq!(heap.get_page(true), None);
    assert_eq!(heap.offset, 4096);
}

#[test]
fn get_page_hands_out_consecutive_pages() {
    let mut heap = MetaAlloc::new(0x20_0000, 0x10_0000);
    assert_eq!(heap.get_page(true), Some(0x20_0000));
    assert_eq!(heap.get_page(false), None);
    assert_eq!(heap.get_page(true), Some(0x20_2000));
}

#[test]
fn set_base_moves_future_pages() {
    let mut heap = MetaAlloc::new(0x10_0000, 0x10_0000);
    heap.set_base(0x40_0000);
    assert_eq!(heap.heap_base, 0x40_0000);
    assert_eq!(heap.next_page_location(), Some(0x40_0000));
}

#[test]
fn stricter_block_alignment_can_make_a_split_underflow() {
    let mut heap = MetaAlloc::new(0x10_0000, 0x10_0000);
    assert!(heap.try_add_page(true));
    let p = match heap.alloc_step(layout(32, 16)) {
        AllocStep::Done(p) => p,
        AllocStep::NeedPage => panic!("the page has room"),
    };
    assert_eq!(p, 0x10_0030);
    heap.dealloc(p, layout(32, 16));
    assert_eq!(heap.free.len(), 1);
    assert_eq!(heap.free[0].layout.align(), 16);
    assert_eq!(heap.free[0].layout.size(), 4048);
    assert_eq!(heap.free[0].usable_size(), 4056);
    assert!(heap.free[0].check_compatible(&layout(4056, 16)));
    assert!(!heap.first_fit_splits(layout(4056, 16)));
    assert!(heap.first_fit_splits(layout(4048, 16)));
    assert!(heap.first_fit_splits(layout(5000, 8)));
}

#[test]
fn successive_allocations_do_not_overlap() {
    let mut heap = MetaAlloc::new(0x10_0000, 0x10_0000);
    assert!(heap.try_add_page(true));
    let mut blocks = Vec::new();
    for (size, align) in [(24, 8), (100, 64), (8, 8), (300, 16)] {
        match heap.alloc_step(layout(size, align)) {
            AllocStep::Done(p) => {
                assert_eq!(p % align, 0);
                blocks.push((p - NODE_SIZE, p + size));
            }
            AllocStep::NeedPage => panic!("the page has room"),
        }
    }
    for i in 0..blocks.len() {
        for j in i + 1..blocks.len() {
            let (a, b) = (blocks[i], blocks[j]);
            assert!(a.1 <= b.0 || b.1 <= a.0, "{:?} and {:?} overlap", a, b);
        }
    }
}
