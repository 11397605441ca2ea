use blog_os::addr::{Page, PhysAddr, PhysFrame, VirtAddr};
use blog_os::mapper::MapError;
use blog_os::memory::{
    create_example_mapping, init, translate_addr, translate_addr_inner, BootInfoFrameAllocator,
    EmptyFrameAllocator, FrameAllocator, OffsetPageTable,
};
use blog_os::page_table::{
    FrameError, PageTableFlags, PhysicalMemory, HUGE_PAGE, PRESENT, WRITABLE,
};
use bootloader::bootinfo::{FrameRange, MemoryMap, MemoryRegion, MemoryRegionType};

const ROOT: PhysFrame = PhysFrame { start: 0x1000 };

fn usable_map(start: u64, end: u64) -> MemoryMap {
    let mut map = MemoryMap::new();
    map.add_region(MemoryRegion {
        range: FrameRange::new(start, end),
        region_type: MemoryRegionType::Usable,
    });
    map
}

fn empty_hierarchy() -> OffsetPageTable {
    init(PhysicalMemory::new(), ROOT)
}

fn present_writable() -> PageTableFlags {
    PageTableFlags::from_bits_truncate(PRESENT | WRITABLE)
}

#[test]
fn virtual_address_indices() {
    let addr = VirtAddr::new(0x1000_0000_0000);
    assert_eq!(addr.p4_index(), 32);
    assert_eq!(addr.p3_index(), 0);
    assert_eq!(addr.p2_index(), 0);
    assert_eq!(addr.p1_index(), 0);
    assert_eq!(addr.page_offset(), 0);
    let addr = VirtAddr::new(0x0000_7fff_ffff_ffff);
    assert_eq!(addr.p4_index(), 255);
    assert_eq!(addr.p3_index(), 511);
    assert_eq!(addr.p2_index(), 511);
    assert_eq!(addr.p1_index(), 511);
    assert_eq!(addr.page_offset(), 4095);
    let addr = VirtAddr::new(0x0000_0080_4060_3005);
    assert_eq!(addr.p4_index(), 1);
    assert_eq!(addr.p3_index(), 1);
    assert_eq!(addr.p2_index(), 3);
    assert_eq!(addr.p1_index(), 3);
    assert_eq!(addr.page_offset(), 5);
}

#[test]
fn virtual_address_is_made_canonical() {
    assert_eq!(VirtAddr::try_new(0x1234), Some(VirtAddr { addr: 0x1234 }));
    assert_eq!(
        VirtAddr::try_new(0xffff_8000_0000_0000),
        Some(VirtAddr { addr: 0xffff_8000_0000_0000 })
    );
    assert_eq!(
        VirtAddr::try_new(0x0000_8000_0000_0000),
        Some(VirtAddr { addr: 0xffff_8000_0000_0000 })
    );
    assert_eq!(
        VirtAddr::try_new(0x0000_ffff_ffff_ffff),
        Some(VirtAddr { addr: 0xffff_ffff_ffff_ffff })
    );
    assert_eq!(VirtAddr::try_new(0x0001_0000_0000_0000), None);
    assert_eq!(VirtAddr::try_new(0x8000_0000_0000_0000), None);
}

#[test]
fn physical_address_has_fifty_two_bits() {
    assert_eq!(PhysAddr::try_new(0xf_ffff_ffff_ffff), Some(PhysAddr { addr: 0xf_ffff_ffff_ffff }));
    assert_eq!(PhysAddr::try_new(0x10_0000_0000_0000), None);
}

#[test]
fn frame_and_page_of_an_address() {
    assert_eq!(
        PhysFrame::containing_address(PhysAddr::new(0xb8fff)),
        PhysFrame { start: 0xb8000 }
    );
    assert_eq!(PhysFrame::from_start_address(PhysAddr::new(0xb8000)), Some(PhysFrame { start: 0xb8000 }));
    assert_eq!(PhysFrame::from_start_address(PhysAddr::new(0xb8008)), None);
    assert_eq!(Page::containing_address(VirtAddr::new(0x2fff)), Page { start: 0x2000 });
    assert_eq!(Page::from_start_address(VirtAddr::new(0x3000)), Some(Page { start: 0x3000 }));
    assert_eq!(Page::from_start_address(VirtAddr::new(0x3001)), None);
}

#[test]
fn flags_drop_address_bits() {
    let flags = PageTableFlags::from_bits_truncate(0xffff_ffff_ffff_ffff);
    assert_eq!(flags.bits(), 0xfff0_0000_0000_0fff);
    assert!(flags.contains(PRESENT | WRITABLE | HUGE_PAGE));
    assert!(!PageTableFlags::from_bits_truncate(PRESENT).contains(WRITABLE));
}

#[test]
fn nothing_is_mapped_in_an_empty_hierarchy() {
    let table = empty_hierarchy();
    assert_eq!(translate_addr(VirtAddr::new(0), &table), None);
    assert_eq!(translate_addr(VirtAddr::new(0x1000_0000_0000), &table), None);
    assert_eq!(
        translate_addr_inner(VirtAddr::new(0xb8000), &table),
        Err(FrameError::FrameNotPresent)
    );
}

#[test]
fn mapped_page_translates_to_its_frame() {
    let map = usable_map(0x10_0000, 0x20_0000);
    let mut allocator = BootInfoFrameAllocator::init(&map);
    let mut table = empty_hierarchy();
    let page = Page::containing_address(VirtAddr::new(0x1000_0000_0000));
    let frame = allocator.allocate_frame().unwrap();
    assert_eq!(frame, PhysFrame { start: 0x10_0000 });
    let mapping = table.map_to(page, frame, present_writable(), &mut allocator).unwrap();
    assert_eq!(mapping.flush(), page);
    assert_eq!(
        translate_addr(VirtAddr::new(0x1000_0000_0000 + 400 * 8), &table),
        Some(PhysAddr { addr: 0x10_0000 + 400 * 8 })
    );
    assert_eq!(
        translate_addr(VirtAddr::new(0x1000_0000_0000), &table),
        Some(PhysAddr { addr: 0x10_0000 })
    );
    assert_eq!(
        translate_addr(VirtAddr::new(0x1000_0000_0fff), &table),
        Some(PhysAddr { addr: 0x10_0fff })
    );
    assert_eq!(translate_addr(VirtAddr::new(0x1000_0000_1000), &table), None);
}

#[test]
fn mapping_adds_three_tables_from_the_allocator() {
    let map = usable_map(0x10_0000, 0x20_0000);
    let mut allocator = BootInfoFrameAllocator::init(&map);
    let mut table = empty_hierarchy();
    let page = Page { start: 0x1000_0000_0000 };
    table.map_to(page, PhysFrame { start: 0x5000 }, present_writable(), &mut allocator).unwrap().ignore();
    assert!(table.memory.contains_table(PhysFrame { start: 0x10_0000 }));
    assert!(table.memory.contains_table(PhysFrame { start: 0x10_1000 }));
    assert!(table.memory.contains_table(PhysFrame { start: 0x10_2000 }));
    assert!(!table.memory.contains_table(PhysFrame { start: 0x10_3000 }));
    assert_eq!(table.memory.entry_frame(ROOT, 32), Ok(PhysFrame { start: 0x10_0000 }));
    assert_eq!(
        table.memory.entry_frame(PhysFrame { start: 0x10_0000 }, 0),
        Ok(PhysFrame { start: 0x10_1000 })
    );
    assert_eq!(
        table.memory.entry_frame(PhysFrame { start: 0x10_1000 }, 0),
        Ok(PhysFrame { start: 0x10_2000 })
    );
    assert_eq!(
        table.memory.entry_frame(PhysFrame { start: 0x10_2000 }, 0),
        Ok(PhysFrame { start: 0x5000 })
    );
    assert_eq!(
        table.memory.entry_frame(PhysFrame { start: 0x10_2000 }, 1),
        Err(FrameError::FrameNotPresent)
    );
    assert_eq!(allocator.allocate_frame(), Some(PhysFrame { start: 0x10_3000 }));
}

#[test]
fn neighbouring_page_shares_the_tables() {
    let map = usable_map(0x10_0000, 0x20_0000);
    let mut allocator = BootInfoFrameAllocator::init(&map);
    let mut table = empty_hierarchy();
    table
        .map_to(Page { start: 0x4000_0000 }, PhysFrame { start: 0x7000 }, present_writable(), &mut allocator)
        .unwrap()
        .ignore();
    table
        .map_to(Page { start: 0x4000_1000 }, PhysFrame { start: 0x9000 }, present_writable(), &mut allocator)
        .unwrap()
        .ignore();
    assert_eq!(allocator.allocate_frame(), Some(PhysFrame { start: 0x10_3000 }));
    assert_eq!(
        translate_addr(VirtAddr::new(0x4000_0010), &table),
        Some(PhysAddr { addr: 0x7010 })
    );
    assert_eq!(
        translate_addr(VirtAddr::new(0x4000_1010), &table),
        Some(PhysAddr { addr: 0x9010 })
    );
}

#[test]
fn second_mapping_of_a_page_is_refused() {
    let map = usable_map(0x10_0000, 0x20_0000);
    let mut allocator = BootInfoFrameAllocator::init(&map);
    let mut table = empty_hierarchy();
    let page = Page { start: 0x1000_0000_0000 };
    table.map_to(page, PhysFrame { start: 0x5000 }, present_writable(), &mut allocator).unwrap().ignore();
    let again = table.map_to(page, PhysFrame { start: 0x6000 }, present_writable(), &mut allocator);
    assert_eq!(again.err(), Some(MapError::AlreadyMapped));
    assert_eq!(
        translate_addr(VirtAddr::new(0x1000_0000_0123), &table),
        Some(PhysAddr { addr: 0x5123 })
    );
    assert_eq!(allocator.allocate_frame(), Some(PhysFrame { start: 0x10_3000 }));
}

#[test]
fn mapping_fails_without_frames_for_tables() {
    let mut table = empty_hierarchy();
    let mut allocator = EmptyFrameAllocator;
    let page = Page { start: 0x1000_0000_0000 };
    let r = table.map_to(page, PhysFrame { start: 0x5000 }, present_writable(), &mut allocator);
    assert_eq!(r.err(), Some(MapError::FrameExhausted));
    assert_eq!(translate_addr(VirtAddr::new(0x1000_0000_0000), &table), None);
}

#[test]
fn mapping_fails_when_frames_run_out_half_way() {
    let map = usable_map(0x10_0000, 0x10_2000);
    let mut allocator = BootInfoFrameAllocator::init(&map);
    let mut table = empty_hierarchy();
    let page = Page { start: 0x1000_0000_0000 };
    let r = table.map_to(page, PhysFrame { start: 0x5000 }, present_writable(), &mut allocator);
    assert_eq!(r.err(), Some(MapError::FrameExhausted));
    assert_eq!(allocator.allocate_frame(), None);
    assert_eq!(translate_addr(VirtAddr::new(0x1000_0000_0000), &table), None);
}

#[test]
fn mapping_needs_no_frame_where_the_tables_exist() {
    let map = usable_map(0x10_0000, 0x20_0000);
    let mut allocator = BootInfoFrameAllocator::init(&map);
    let mut table = empty_hierarchy();
    table
        .map_to(Page { start: 0x4000_0000 }, PhysFrame { start: 0x7000 }, present_writable(), &mut allocator)
        .unwrap()
        .ignore();
    let mut none = EmptyFrameAllocator;
    let r = table.map_to(Page { start: 0x4000_2000 }, PhysFrame { start: 0x8000 }, present_writable(), &mut none);
    assert!(r.is_ok());
    assert_eq!(
        translate_addr(VirtAddr::new(0x4000_2abc), &table),
        Some(PhysAddr { addr: 0x8abc })
    );
}

#[test]
fn huge_page_on_the_way_is_refused() {
    let mut memory = PhysicalMemory::new();
    memory.set_entry(
        ROOT,
        32,
        PhysFrame { start: 0x4000_0000 },
        PageTableFlags::from_bits_truncate(PRESENT | WRITABLE | HUGE_PAGE),
    );
    let mut table = init(memory, ROOT);
    assert_eq!(
        translate_addr_inner(VirtAddr::new(0x1000_0000_0000), &table),
        Err(FrameError::HugeFrame)
    );
    let map = usable_map(0x10_0000, 0x20_0000);
    let mut allocator = BootInfoFrameAllocator::init(&map);
    let r = table.map_to(
        Page { start: 0x1000_0000_0000 },
        PhysFrame { start: 0x5000 },
        present_writable(),
        &mut allocator,
    );
    assert_eq!(r.err(), Some(MapError::UnsupportedHugePage));
    assert_eq!(allocator.allocate_frame(), Some(PhysFrame { start: 0x10_0000 }));
}

#[test]
fn entry_without_present_flag_names_no_frame() {
    let mut memory = PhysicalMemory::new();
    memory.set_entry(ROOT, 5, PhysFrame { start: 0x3000 }, PageTableFlags::from_bits_truncate(WRITABLE));
    assert_eq!(memory.entry_frame(ROOT, 5), Err(FrameError::FrameNotPresent));
    memory.set_entry(ROOT, 5, PhysFrame { start: 0x3000 }, PageTableFlags::from_bits_truncate(PRESENT));
    assert_eq!(memory.entry_frame(ROOT, 5), Ok(PhysFrame { start: 0x3000 }));
    assert_eq!(memory.entry_frame(ROOT, 6), Err(FrameError::FrameNotPresent));
    memory.zero_table(ROOT);
    assert_eq!(memory.entry_frame(ROOT, 5), Err(FrameError::FrameNotPresent));
    assert!(memory.contains_table(ROOT));
    assert!(!memory.contains_table(PhysFrame { start: 0x3000 }));
}

#[test]
fn hierarchy_keeps_a_level_four_table_that_exists() {
    let mut memory = PhysicalMemory::new();
    memory.set_entry(ROOT, 0, PhysFrame { start: 0x2000 }, PageTableFlags::from_bits_truncate(PRESENT));
    memory.set_entry(PhysFrame { start: 0x2000 }, 0, PhysFrame { start: 0x3000 }, PageTableFlags::from_bits_truncate(PRESENT));
    memory.set_entry(PhysFrame { start: 0x3000 }, 0, PhysFrame { start: 0x4000 }, PageTableFlags::from_bits_truncate(PRESENT));
    memory.set_entry(PhysFrame { start: 0x4000 }, 1, PhysFrame { start: 0xb8000 }, PageTableFlags::from_bits_truncate(PRESENT));
    let table = init(memory, ROOT);
    assert_eq!(
        translate_addr(VirtAddr::new(0x1004), &table),
        Some(PhysAddr { addr: 0xb8004 })
    );
    assert_eq!(translate_addr(VirtAddr::new(0x0004), &table), None);
}

#[test]
fn example_mapping_points_at_the_vga_buffer() {
    let map = usable_map(0x10_0000, 0x20_0000);
    let mut allocator = BootInfoFrameAllocator::init(&map);
    let mut table = empty_hierarchy();
    let page = Page::containing_address(VirtAddr::new(0));
    assert_eq!(create_example_mapping(page, &mut table, &mut allocator), Ok(page));
    assert_eq!(translate_addr(VirtAddr::new(0x10), &table), Some(PhysAddr { addr: 0xb8010 }));
    assert_eq!(
        create_example_mapping(page, &mut table, &mut allocator),
        Err(MapError::AlreadyMapped)
    );
}

#[test]
fn example_mapping_fails_without_frames() {
    let mut table = empty_hierarchy();
    let page = Page::containing_address(VirtAddr::new(0xdead_beaf_000));
    assert_eq!(
        create_example_mapping(page, &mut table, &mut EmptyFrameAllocator),
        Err(MapError::FrameExhausted)
    );
}

#[test]
fn stored_table_can_be_read_back() {
    let mut memory = PhysicalMemory::new();
    assert!(memory.table(ROOT).is_none());
    memory.set_entry(
        ROOT,
        7,
        PhysFrame { start: 0x3000 },
        PageTableFlags::from_bits_truncate(PRESENT | WRITABLE),
    );
    let table = memory.table(ROOT).unwrap();
    assert_eq!(table[7].addr().as_u64(), 0x3000);
    assert_eq!(table[7].flags().bits(), PRESENT | WRITABLE);
    assert!(table[6].is_unused());
    assert!(memory.table(PhysFrame { start: 0x3000 }).is_none());
}

#[test]
fn entry_holds_the_flags_it_was_written_with() {
    let mut memory = PhysicalMemory::new();
    memory.set_entry(
        ROOT,
        511,
        PhysFrame { start: 0xf_ffff_ffff_f000 },
        PageTableFlags::from_bits_truncate(0x8000_0000_0000_0003),
    );
    let table = memory.table(ROOT).unwrap();
    assert_eq!(table[511].addr().as_u64(), 0xf_ffff_ffff_f000);
    assert_eq!(table[511].flags().bits(), 0x8000_0000_0000_0003);
    assert_eq!(memory.entry_frame(ROOT, 511), Ok(PhysFrame { start: 0xf_ffff_ffff_f000 }));
}

#[test]
fn mapping_without_present_flag_is_not_a_translation() {
    let map = usable_map(0x10_0000, 0x20_0000);
    let mut allocator = BootInfoFrameAllocator::init(&map);
    let mut table = empty_hierarchy();
    let page = Page { start: 0x4000_0000 };
    let flags = PageTableFlags::from_bits_truncate(WRITABLE);
    assert!(table.map_to(page, PhysFrame { start: 0x7000 }, flags, &mut allocator).is_ok());
    assert_eq!(translate_addr(VirtAddr::new(0x4000_0000), &table), None);
    // the entry is not present, so the page can be mapped again
    assert!(table.map_to(page, PhysFrame { start: 0x8000 }, present_writable(), &mut allocator).is_ok());
    assert_eq!(
        translate_addr(VirtAddr::new(0x4000_0000), &table),
        Some(PhysAddr { addr: 0x8000 })
    );
}

#[test]
fn mapping_leaves_other_pages_alone() {
    let map = usable_map(0x10_0000, 0x20_0000);
    let mut allocator = BootInfoFrameAllocator::init(&map);
    let mut table = empty_hierarchy();
    table
        .map_to(Page { start: 0x4000_0000 }, PhysFrame { start: 0x7000 }, present_writable(), &mut allocator)
        .unwrap()
        .ignore();
    table
        .map_to(Page { start: 0x7fff_ffff_f000 }, PhysFrame { start: 0x9000 }, present_writable(), &mut allocator)
        .unwrap()
        .ignore();
    assert_eq!(
        translate_addr(VirtAddr::new(0x4000_0fff), &table),
        Some(PhysAddr { addr: 0x7fff })
    );
    assert_eq!(
        translate_addr(VirtAddr::new(0x7fff_ffff_f000), &table),
        Some(PhysAddr { addr: 0x9000 })
    );
    assert_eq!(translate_addr(VirtAddr::new(0x4000_1000), &table), None);
    assert_eq!(translate_addr(VirtAddr::new(0x7fff_ffff_e000), &table), None);
    assert_eq!(translate_addr(VirtAddr::new(0x3fff_f000), &table), None);
}

#[test]
fn address_bits_among_the_flags_are_not_written() {
    let mut memory = PhysicalMemory::new();
    memory.set_entry(ROOT, 1, PhysFrame { start: 0x3000 }, PageTableFlags { bits: 0x5001 });
    assert_eq!(memory.entry_frame(ROOT, 1), Ok(PhysFrame { start: 0x3000 }));
    let table = memory.table(ROOT).unwrap();
    assert_eq!(table[1].flags().bits(), PRESENT);
}
