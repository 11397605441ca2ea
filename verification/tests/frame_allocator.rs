use blog_os::addr::PhysFrame;
use blog_os::memory::{BootInfoFrameAllocator, EmptyFrameAllocator, FrameAllocator};
use blog_os::memory_map::memory_map_is_valid;
use bootloader::bootinfo::{FrameRange, MemoryMap, MemoryRegion, MemoryRegionType};

fn region(start: u64, end: u64, region_type: MemoryRegionType) -> MemoryRegion {
    MemoryRegion { range: FrameRange::new(start, end), region_type }
}

fn three_region_map() -> MemoryMap {
    let mut map = MemoryMap::new();
    map.add_region(region(0x0000, 0x9000, MemoryRegionType::Usable));
    map.add_region(region(0x9000, 0xA000, MemoryRegionType::Reserved));
    map.add_region(region(0xA000, 0x10000, MemoryRegionType::Usable));
    map
}

#[test]
fn first_frame_is_at_zero() {
    let map = three_region_map();
    assert!(memory_map_is_valid(&map));
    let mut allocator = BootInfoFrameAllocator::init(&map);
    assert_eq!(allocator.allocate_frame(), Some(PhysFrame { start: 0x0000 }));
}

#[test]
fn frames_skip_the_reserved_region() {
    let map = three_region_map();
    let mut allocator = BootInfoFrameAllocator::init(&map);
    let mut expected: u64 = 0;
    while expected <= 0x8000 {
        assert_eq!(allocator.allocate_frame(), Some(PhysFrame { start: expected }));
        expected += 0x1000;
    }
    assert_eq!(allocator.allocate_frame(), Some(PhysFrame { start: 0xA000 }));
    assert_eq!(allocator.allocate_frame(), Some(PhysFrame { start: 0xB000 }));
}

#[test]
fn frames_run_out_after_the_last_usable_region() {
    let map = three_region_map();
    let mut allocator = BootInfoFrameAllocator::init(&map);
    let mut handed_out = 0;
    let mut last = None;
    while let Some(frame) = allocator.allocate_frame() {
        handed_out += 1;
        last = Some(frame);
    }
    assert_eq!(handed_out, 15);
    assert_eq!(last, Some(PhysFrame { start: 0xF000 }));
    assert_eq!(allocator.allocate_frame(), None);
    assert_eq!(allocator.allocate_frame(), None);
}

#[test]
fn frames_are_distinct_and_ascending() {
    let map = three_region_map();
    let mut allocator = BootInfoFrameAllocator::init(&map);
    let mut frames = Vec::new();
    while let Some(frame) = allocator.allocate_frame() {
        frames.push(frame.start);
    }
    for pair in frames.windows(2) {
        assert!(pair[0] < pair[1]);
    }
}

#[test]
fn no_frame_lies_in_a_reserved_region() {
    let map = three_region_map();
    let mut allocator = BootInfoFrameAllocator::init(&map);
    while let Some(frame) = allocator.allocate_frame() {
        assert!(frame.start % 4096 == 0);
        assert!(!(0x9000..0xA000).contains(&frame.start));
        assert!(frame.start < 0x10000);
    }
}

#[test]
fn map_without_usable_region_has_no_frame() {
    let mut map = MemoryMap::new();
    map.add_region(region(0x0000, 0x4000, MemoryRegionType::Reserved));
    map.add_region(region(0x4000, 0x8000, MemoryRegionType::Kernel));
    let mut allocator = BootInfoFrameAllocator::init(&map);
    assert_eq!(allocator.allocate_frame(), None);
}

#[test]
fn empty_map_has_no_frame() {
    let map = MemoryMap::new();
    assert!(memory_map_is_valid(&map));
    let mut allocator = BootInfoFrameAllocator::init(&map);
    assert_eq!(allocator.allocate_frame(), None);
}

#[test]
fn region_that_ends_where_it_starts_has_no_frame() {
    let mut map = MemoryMap::new();
    map.add_region(MemoryRegion {
        range: FrameRange { start_frame_number: 7, end_frame_number: 7 },
        region_type: MemoryRegionType::Usable,
    });
    map.add_region(region(0x20000, 0x21000, MemoryRegionType::Usable));
    let mut allocator = BootInfoFrameAllocator::init(&map);
    assert_eq!(allocator.allocate_frame(), Some(PhysFrame { start: 0x20000 }));
    assert_eq!(allocator.allocate_frame(), None);
}

#[test]
fn usable_region_beyond_physical_addresses_is_invalid() {
    let mut map = MemoryMap::new();
    map.add_region(MemoryRegion {
        range: FrameRange { start_frame_number: 1, end_frame_number: 0x100_0000_0001 },
        region_type: MemoryRegionType::Usable,
    });
    assert!(!memory_map_is_valid(&map));
}

#[test]
fn reserved_region_beyond_physical_addresses_is_valid() {
    let mut map = MemoryMap::new();
    map.add_region(MemoryRegion {
        range: FrameRange { start_frame_number: 1, end_frame_number: 0x100_0000_0001 },
        region_type: MemoryRegionType::Reserved,
    });
    map.add_region(MemoryRegion {
        range: FrameRange { start_frame_number: 0x100_0000_0001, end_frame_number: 0x100_0000_0002 },
        region_type: MemoryRegionType::AcpiNvs,
    });
    assert!(memory_map_is_valid(&map));
}

#[test]
fn last_valid_frame_number_is_handed_out() {
    let mut map = MemoryMap::new();
    map.add_region(MemoryRegion {
        range: FrameRange { start_frame_number: 0xff_ffff_ffff, end_frame_number: 0x100_0000_0000 },
        region_type: MemoryRegionType::Usable,
    });
    assert!(memory_map_is_valid(&map));
    let mut allocator = BootInfoFrameAllocator::init(&map);
    assert_eq!(allocator.allocate_frame(), Some(PhysFrame { start: 0xf_ffff_ffff_f000 }));
    assert_eq!(allocator.allocate_frame(), None);
}

#[test]
fn empty_allocator_never_has_a_frame() {
    let mut allocator = EmptyFrameAllocator;
    assert_eq!(allocator.allocate_frame(), None);
    assert_eq!(allocator.allocate_frame(), None);
}

#[test]
fn either_kind_of_source_hands_out_frames() {
    let map = three_region_map();
    let mut real = blog_os::memory::FrameSource::Real(BootInfoFrameAllocator::init(&map));
    assert_eq!(real.allocate_frame(), Some(PhysFrame { start: 0x0000 }));
    assert_eq!(real.allocate_frame(), Some(PhysFrame { start: 0x1000 }));
    let mut exhausted = blog_os::memory::FrameSource::Exhausted(EmptyFrameAllocator);
    assert_eq!(exhausted.allocate_frame(), None);
}

#[test]
fn map_that_fails_the_check_makes_no_allocator() {
    let mut map = MemoryMap::new();
    map.add_region(MemoryRegion {
        range: FrameRange { start_frame_number: 1, end_frame_number: 0x100_0000_0001 },
        region_type: MemoryRegionType::Usable,
    });
    assert!(BootInfoFrameAllocator::try_init(&map).is_none());
    let good = three_region_map();
    let mut allocator = BootInfoFrameAllocator::try_init(&good).unwrap();
    assert_eq!(allocator.allocate_frame(), Some(PhysFrame { start: 0x0000 }));
}
