use blog_os::addr::{Page, PhysAddr, PhysFrame, VirtAddr};
use blog_os::heap::{init, Block, Heap, HEAP_SIZE, HEAP_START};
use blog_os::mapper::MapError;
use blog_os::memory::{
    translate_addr, BootInfoFrameAllocator, EmptyFrameAllocator, FrameAllocator, OffsetPageTable,
};
use blog_os::page_table::PhysicalMemory;
use bootloader::bootinfo::{FrameRange, MemoryMap, MemoryRegion, MemoryRegionType};

fn usable_map(start: u64, end: u64) -> MemoryMap {
    let mut map = MemoryMap::new();
    map.add_region(MemoryRegion {
        range: FrameRange::new(start, end),
        region_type: MemoryRegionType::Usable,
    });
    map
}

fn empty_hierarchy() -> OffsetPageTable {
    blog_os::memory::init(PhysicalMemory::new(), PhysFrame { start: 0x1000 })
}

#[test]
fn heap_serves_five_hundred_words_and_coalesces() {
    let heap_size: u64 = 100 * 4096;
    let map = usable_map(0x10_0000, 0x40_0000);
    let mut allocator = BootInfoFrameAllocator::init(&map);
    let mut table = empty_hierarchy();
    let mapped = init(&mut table, &mut allocator, HEAP_START, heap_size).unwrap();
    assert_eq!(mapped.flush.len(), 100);
    let mut heap = mapped.heap;
    let mut addresses = Vec::new();
    for _ in 0..500 {
        let addr = heap.allocate(8, 8).unwrap();
        assert!(addr >= HEAP_START);
        assert!(addr + 8 <= HEAP_START + heap_size);
        assert_eq!(addr % 8, 0);
        addresses.push(addr);
    }
    let mut sorted = addresses.clone();
    sorted.sort();
    for pair in sorted.windows(2) {
        assert!(pair[0] + 8 <= pair[1]);
    }
    for addr in addresses.iter().rev() {
        heap.deallocate(*addr, 8, 8);
    }
    assert_eq!(heap.free_blocks(), &vec![Block { start: HEAP_START, size: heap_size }]);
}

#[test]
fn heap_pages_are_mapped_to_frames_in_order() {
    let map = usable_map(0x10_0000, 0x40_0000);
    let mut allocator = BootInfoFrameAllocator::init(&map);
    let mut table = empty_hierarchy();
    let mapped = init(&mut table, &mut allocator, HEAP_START, HEAP_SIZE).unwrap();
    assert_eq!(mapped.flush.len(), 25);
    assert_eq!(mapped.flush[0], Page { start: HEAP_START });
    assert_eq!(mapped.flush[24], Page { start: HEAP_START + 24 * 4096 });
    // the first page takes the first frame, then three frames become tables
    assert_eq!(
        translate_addr(VirtAddr::new(HEAP_START + 5), &table),
        Some(PhysAddr { addr: 0x10_0005 })
    );
    assert_eq!(
        translate_addr(VirtAddr::new(HEAP_START + 4096), &table),
        Some(PhysAddr { addr: 0x10_4000 })
    );
    assert_eq!(
        translate_addr(VirtAddr::new(HEAP_START + HEAP_SIZE - 1), &table),
        Some(PhysAddr { addr: 0x10_0000 + 27 * 4096 + 4095 })
    );
    assert_eq!(translate_addr(VirtAddr::new(HEAP_START + HEAP_SIZE), &table), None);
    assert_eq!(allocator.allocate_frame(), Some(PhysFrame { start: 0x10_0000 + 28 * 4096 }));
    assert_eq!(mapped.heap.free_blocks(), &vec![Block { start: HEAP_START, size: HEAP_SIZE }]);
}

#[test]
fn heap_that_starts_inside_a_page_maps_that_page() {
    let map = usable_map(0x10_0000, 0x40_0000);
    let mut allocator = BootInfoFrameAllocator::init(&map);
    let mut table = empty_hierarchy();
    let mapped = init(&mut table, &mut allocator, 0x4000_0800, 0x1000).unwrap();
    assert_eq!(mapped.flush, vec![Page { start: 0x4000_0000 }, Page { start: 0x4000_1000 }]);
    assert_eq!(mapped.heap.free_blocks(), &vec![Block { start: 0x4000_0800, size: 0x1000 }]);
}

#[test]
fn empty_heap_maps_nothing() {
    let mut table = empty_hierarchy();
    let mapped = init(&mut table, &mut EmptyFrameAllocator, HEAP_START, 0).unwrap();
    assert!(mapped.flush.is_empty());
    assert!(mapped.heap.free_blocks().is_empty());
    let mut heap = mapped.heap;
    assert_eq!(heap.allocate(1, 1), None);
}

#[test]
fn heap_init_fails_without_frames() {
    let mut table = empty_hierarchy();
    let r = init(&mut table, &mut EmptyFrameAllocator, HEAP_START, HEAP_SIZE);
    assert_eq!(r.err(), Some(MapError::FrameExhausted));
}

#[test]
fn heap_init_fails_when_frames_run_out() {
    let map = usable_map(0x10_0000, 0x10_0000 + 10 * 4096);
    let mut allocator = BootInfoFrameAllocator::init(&map);
    let mut table = empty_hierarchy();
    let r = init(&mut table, &mut allocator, HEAP_START, HEAP_SIZE);
    assert_eq!(r.err(), Some(MapError::FrameExhausted));
    assert_eq!(allocator.allocate_frame(), None);
    // the pages that were mapped before the frames ran out stay mapped
    assert_eq!(
        translate_addr(VirtAddr::new(HEAP_START), &table),
        Some(PhysAddr { addr: 0x10_0000 })
    );
}

#[test]
fn heap_init_refuses_a_page_that_is_mapped() {
    let map = usable_map(0x10_0000, 0x40_0000);
    let mut allocator = BootInfoFrameAllocator::init(&map);
    let mut table = empty_hierarchy();
    blog_os::memory::create_example_mapping(Page { start: HEAP_START + 4096 }, &mut table, &mut allocator)
        .unwrap();
    let r = init(&mut table, &mut allocator, HEAP_START, HEAP_SIZE);
    assert_eq!(r.err(), Some(MapError::AlreadyMapped));
}

#[test]
fn allocation_is_first_fit() {
    let mut heap = Heap::new(0x1000, 0x100);
    let a = heap.allocate(0x40, 1).unwrap();
    let b = heap.allocate(0x40, 1).unwrap();
    let c = heap.allocate(0x40, 1).unwrap();
    assert_eq!((a, b, c), (0x1000, 0x1040, 0x1080));
    heap.deallocate(a, 0x40, 1);
    heap.deallocate(c, 0x40, 1);
    assert_eq!(
        heap.free_blocks(),
        &vec![Block { start: 0x1000, size: 0x40 }, Block { start: 0x1080, size: 0x80 }]
    );
    // fits in both free blocks: the first one is taken
    assert_eq!(heap.allocate(0x20, 1), Some(0x1000));
    // fits only in the second
    assert_eq!(heap.allocate(0x60, 1), Some(0x1080));
    assert_eq!(
        heap.free_blocks(),
        &vec![Block { start: 0x1020, size: 0x20 }, Block { start: 0x10e0, size: 0x20 }]
    );
}

#[test]
fn padding_in_front_of_an_allocation_stays_free() {
    let mut heap = Heap::new(0x1004, 0x100);
    assert_eq!(heap.allocate(16, 16), Some(0x1010));
    assert_eq!(
        heap.free_blocks(),
        &vec![Block { start: 0x1004, size: 12 }, Block { start: 0x1020, size: 0xe4 }]
    );
    assert_eq!(heap.allocate(4, 4), Some(0x1004));
    assert_eq!(heap.allocate(8, 8), Some(0x1008));
    assert_eq!(heap.free_blocks(), &vec![Block { start: 0x1020, size: 0xe4 }]);
}

#[test]
fn allocation_that_fills_a_block_removes_it() {
    let mut heap = Heap::new(0x2000, 0x80);
    assert_eq!(heap.allocate(0x80, 0x80), Some(0x2000));
    assert!(heap.free_blocks().is_empty());
    assert_eq!(heap.allocate(1, 1), None);
    heap.deallocate(0x2000, 0x80, 0x80);
    assert_eq!(heap.free_blocks(), &vec![Block { start: 0x2000, size: 0x80 }]);
}

#[test]
fn requests_that_cannot_be_served() {
    let mut heap = Heap::new(0x1000, 0x100);
    assert_eq!(heap.allocate(0, 8), None);
    assert_eq!(heap.allocate(8, 0), None);
    assert_eq!(heap.allocate(8, 3), None);
    assert_eq!(heap.allocate(8, 24), None);
    assert_eq!(heap.allocate(0x101, 1), None);
    assert_eq!(heap.allocate(0x100, 0x2000), None);
    assert_eq!(heap.allocate(u64::MAX, 1), None);
    assert_eq!(heap.allocate(1, 0x8000_0000_0000_0000), None);
    assert_eq!(heap.free_blocks(), &vec![Block { start: 0x1000, size: 0x100 }]);
    assert_eq!(heap.allocate(0x100, 0x1000), Some(0x1000));
}

#[test]
fn freed_block_merges_with_its_neighbours() {
    let mut heap = Heap::new(0x1000, 0x100);
    let a = heap.allocate(0x40, 1).unwrap();
    let b = heap.allocate(0x40, 1).unwrap();
    let c = heap.allocate(0x40, 1).unwrap();
    let d = heap.allocate(0x40, 1).unwrap();
    assert!(heap.free_blocks().is_empty());
    // no free neighbour
    heap.deallocate(b, 0x40, 1);
    assert_eq!(heap.free_blocks(), &vec![Block { start: 0x1040, size: 0x40 }]);
    // free neighbour in front
    heap.deallocate(c, 0x40, 1);
    assert_eq!(heap.free_blocks(), &vec![Block { start: 0x1040, size: 0x80 }]);
    // free neighbour behind
    heap.deallocate(a, 0x40, 1);
    assert_eq!(heap.free_blocks(), &vec![Block { start: 0x1000, size: 0xc0 }]);
    heap.deallocate(d, 0x40, 1);
    assert_eq!(heap.free_blocks(), &vec![Block { start: 0x1000, size: 0x100 }]);
}

#[test]
fn freed_block_joins_both_neighbours() {
    let mut heap = Heap::new(0x1000, 0x100);
    let a = heap.allocate(0x40, 1).unwrap();
    let b = heap.allocate(0x40, 1).unwrap();
    let c = heap.allocate(0x40, 1).unwrap();
    heap.deallocate(a, 0x40, 1);
    heap.deallocate(c, 0x40, 1);
    assert_eq!(
        heap.free_blocks(),
        &vec![Block { start: 0x1000, size: 0x40 }, Block { start: 0x1080, size: 0x80 }]
    );
    heap.deallocate(b, 0x40, 1);
    assert_eq!(heap.free_blocks(), &vec![Block { start: 0x1000, size: 0x100 }]);
}

#[test]
fn free_and_live_bytes_add_up_to_the_heap() {
    let mut heap = Heap::new(0x1000, 0x1000);
    let mut live: Vec<(u64, u64)> = Vec::new();
    let sizes = [24u64, 100, 8, 512, 64, 3, 1000];
    for (n, size) in sizes.iter().enumerate() {
        let align = 1u64 << (n % 5);
        let addr = heap.allocate(*size, align).unwrap();
        assert_eq!(addr % align, 0);
        live.push((addr, *size));
        let free: u64 = heap.free_blocks().iter().map(|b| b.size).sum();
        let used: u64 = live.iter().map(|l| l.1).sum();
        assert_eq!(free + used, 0x1000);
    }
    for (i, a) in live.iter().enumerate() {
        for b in live.iter().skip(i + 1) {
            assert!(a.0 + a.1 <= b.0 || b.0 + b.1 <= a.0);
        }
    }
    let (addr, size) = live.remove(3);
    heap.deallocate(addr, size, 8);
    let free: u64 = heap.free_blocks().iter().map(|b| b.size).sum();
    let used: u64 = live.iter().map(|l| l.1).sum();
    assert_eq!(free + used, 0x1000);
}
