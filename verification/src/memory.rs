//! Frame allocation from the boot-time memory map, address translation through
//! the four-level page-table hierarchy, and the mapper that extends it.

use crate::addr::{
    spec_p1_index, spec_p2_index, spec_p3_index, spec_p4_index, spec_page_offset, Page,
    PhysAddr, PhysFrame, VirtAddr, PHYS_ADDR_LIMIT,
};
use crate::hierarchy::{hierarchy_is_tree, lemma_empty_hierarchy_is_tree};
use crate::mapper::{frames_fresh, spec_map_to, spec_page_mapped, MapError};
use crate::page_table::{
    empty_entries, lemma_zero_entry, spec_entry, spec_entry_frame, FrameError, PageTableFlags,
    PhysicalMemory, PRESENT, WRITABLE,
};
use crate::memory_map::{
    lemma_usable_frame_region, lemma_usable_frames_bound, lemma_usable_frames_increasing,
    lemma_usable_frames_prefix, lemma_usable_frames_step, memory_map_is_valid, memory_map_len,
    memory_map_region, memory_map_regions, region_frame_count, region_frames, regions_ordered,
    regions_valid, usable_frames, Region, FRAME_NUMBER_LIMIT,
};
use bootloader::bootinfo::MemoryMap;
use vstd::prelude::*;

verus! {

/// A source of unused physical frames.
pub trait FrameAllocator {
    /// Start addresses of the frames that are still to be handed out, in the
    /// order in which they will be.
    spec fn remaining(&self) -> Seq<u64>;

    /// The allocator's state fits its source of frames.
    spec fn wf(&self) -> bool;

    /// Hands out the next unused frame, or `None` once there is none left.
    fn allocate_frame(&mut self) -> (frame: Option<PhysFrame>)
        requires
            old(self).wf(),
        ensures
            final(self).wf(),
            match frame {
                Some(f) => {
                    &&& old(self).remaining().len() > 0
                    &&& f.start == old(self).remaining()[0]
                    &&& f.wf()
                    &&& final(self).remaining() == old(self).remaining().skip(1)
                },
                None => {
                    &&& old(self).remaining().len() == 0
                    &&& final(self).remaining() == old(self).remaining()
                },
            },
    ;
}

/// Hands out the frames of the usable regions of the boot-time memory map, in
/// the order of the map and ascending within each region. Its whole state is
/// the number of frames handed out so far.
pub struct BootInfoFrameAllocator<'a> {
    memory_map: &'a MemoryMap,
    next: u64,
}

impl<'a> BootInfoFrameAllocator<'a> {
    /// The regions of the memory map.
    pub closed spec fn regions(&self) -> Seq<Region> {
        memory_map_regions(*self.memory_map)
    }

    /// Number of frames handed out so far.
    pub closed spec fn cursor(&self) -> nat {
        self.next as nat
    }

    /// Makes an allocator that has handed out nothing yet. Every frame of a
    /// usable region must have a valid physical address, and must in fact be
    /// unused.
    pub fn init(memory_map: &'a MemoryMap) -> (allocator: Self)
        requires
            regions_valid(memory_map_regions(*memory_map)),
        ensures
            allocator.wf(),
            allocator.regions() == memory_map_regions(*memory_map),
            allocator.cursor() == 0,
            allocator.remaining() == usable_frames(memory_map_regions(*memory_map)),
    {
        BootInfoFrameAllocator { memory_map, next: 0 }
    }

    /// Makes an allocator that has handed out nothing yet, or `None` where a
    /// frame of a usable region of the map has no valid physical address.
    pub fn try_init(memory_map: &'a MemoryMap) -> (r: Option<Self>)
        ensures
            r is Some <==> regions_valid(memory_map_regions(*memory_map)),
            r matches Some(allocator) ==> {
                &&& allocator.wf()
                &&& allocator.regions() == memory_map_regions(*memory_map)
                &&& allocator.cursor() == 0
                &&& allocator.remaining() == usable_frames(memory_map_regions(*memory_map))
            },
    {
        if memory_map_is_valid(memory_map) {
            Some(BootInfoFrameAllocator::init(memory_map))
        } else {
            None
        }
    }

    /// Where the regions of the map are in ascending order and do not
    /// overlap, the frames still to be handed out are frames with a valid
    /// address, in strictly ascending order, and so differ from each other.
    pub proof fn lemma_remaining_ascending(&self)
        requires
            self.wf(),
            regions_ordered(self.regions()),
        ensures
            forall|i: int, j: int|
                0 <= i < j < self.remaining().len() ==> self.remaining()[i] < self.remaining()[j],
            self.remaining().no_duplicates(),
            forall|k: int|
                0 <= k < self.remaining().len() ==> (#[trigger] self.remaining()[k]) % 4096 == 0
                    && self.remaining()[k] < 0x10_0000_0000_0000,
    {
        let all = usable_frames(self.regions());
        let c = self.cursor() as int;
        lemma_usable_frames_increasing(self.regions());
        assert forall|i: int, j: int| 0 <= i < j < self.remaining().len() implies self.remaining()[i]
            < self.remaining()[j] by {
            assert(self.remaining()[i] == all[i + c]);
            assert(self.remaining()[j] == all[j + c]);
        }
        assert forall|k: int| 0 <= k < self.remaining().len() implies (
        #[trigger] self.remaining()[k]) % 4096 == 0 && self.remaining()[k]
            < 0x10_0000_0000_0000 by {
            let r = lemma_usable_frame_region(self.regions(), k + c);
            assert(self.remaining()[k] == all[k + c]);
        }
    }
}

impl<'a> FrameAllocator for BootInfoFrameAllocator<'a> {
    open spec fn remaining(&self) -> Seq<u64> {
        usable_frames(self.regions()).skip(self.cursor() as int)
    }

    open spec fn wf(&self) -> bool {
        &&& regions_valid(self.regions())
        &&& self.cursor() <= usable_frames(self.regions()).len()
    }

    #[verifier::rlimit(50)]
    fn allocate_frame(&mut self) -> (frame: Option<PhysFrame>)
        ensures
            final(self).regions() == old(self).regions(),
            final(self).cursor() == old(self).cursor() + if frame is Some {
                1nat
            } else {
                0nat
            },
    {
        let map = self.memory_map;
        let ghost regions = memory_map_regions(*map);
        let n = memory_map_len(map);
        let mut i: usize = 0;
        let mut skip: u64 = self.next;
        while i < n
            invariant
                i <= n,
                n == regions.len(),
                n <= 64,
                regions == memory_map_regions(*map),
                regions == self.regions(),
                regions_valid(regions),
                usable_frames(regions.take(i as int)).len() + skip == self.next,
                self.next <= usable_frames(regions).len(),
                *self == *old(self),
            decreases n - i,
        {
            let region = memory_map_region(map, i);
            proof {
                lemma_usable_frames_step(regions, i as int);
                lemma_usable_frames_prefix(regions, i + 1);
            }
            if region.usable && region.start_frame_number < region.end_frame_number {
                let count = region.end_frame_number - region.start_frame_number;
                if skip < count {
                    let start = (region.start_frame_number + skip) * 4096;
                    proof {
                        let before = usable_frames(regions.take(i as int));
                        let upto = usable_frames(regions.take(i + 1));
                        let all = usable_frames(regions);
                        assert(region == regions[i as int]);
                        assert(region_frame_count(region) == count);
                        assert(upto == before + region_frames(region));
                        assert(upto.len() == before.len() + count);
                        assert(self.next < upto.len() <= all.len());
                        assert(upto[self.next as int] == region_frames(region)[skip as int]);
                        assert(region_frames(region)[skip as int] == start);
                        assert(upto == all.take(upto.len() as int));
                        assert(all.take(upto.len() as int)[self.next as int] == all[self.next as int]);
                        assert(all.skip(self.next as int)[0] == start);
                        assert(start % 4096 == 0);
                        assert(start < 0x10_0000_0000_0000);
                        assert(all.skip(self.next as int).skip(1) =~= all.skip(self.next + 1));
                        lemma_usable_frames_bound(regions);
                        assert(regions.len() * FRAME_NUMBER_LIMIT <= 64 * FRAME_NUMBER_LIMIT)
                            by (nonlinear_arith)
                            requires
                                regions.len() <= 64,
                        ;
                    }
                    self.next = self.next + 1;
                    return Some(PhysFrame { start });
                }
                skip = skip - count;
            }
            i += 1;
        }
        proof {
            assert(regions.take(n as int) == regions);
            assert(usable_frames(regions).skip(self.next as int).len() == 0);
        }
        None
    }
}

/// A frame allocator that has no frame to hand out.
pub struct EmptyFrameAllocator;

impl FrameAllocator for EmptyFrameAllocator {
    open spec fn remaining(&self) -> Seq<u64> {
        Seq::empty()
    }

    open spec fn wf(&self) -> bool {
        true
    }

    fn allocate_frame(&mut self) -> (frame: Option<PhysFrame>) {
        None
    }
}

/// Where frames come from: the boot-time memory map, or nowhere. Both kinds
/// hand out frames under the one contract of [`FrameAllocator`].
pub enum FrameSource<'a> {
    Real(BootInfoFrameAllocator<'a>),
    Exhausted(EmptyFrameAllocator),
}

impl<'a> FrameAllocator for FrameSource<'a> {
    open spec fn remaining(&self) -> Seq<u64> {
        match self {
            FrameSource::Real(allocator) => allocator.remaining(),
            FrameSource::Exhausted(allocator) => allocator.remaining(),
        }
    }

    open spec fn wf(&self) -> bool {
        match self {
            FrameSource::Real(allocator) => allocator.wf(),
            FrameSource::Exhausted(allocator) => allocator.wf(),
        }
    }

    fn allocate_frame(&mut self) -> (frame: Option<PhysFrame>)
        ensures
            (*old(self) is Real) == (*final(self) is Real),
    {
        match self {
            FrameSource::Real(allocator) => allocator.allocate_frame(),
            FrameSource::Exhausted(allocator) => allocator.allocate_frame(),
        }
    }
}

/// The frame named by the entry at `index` of the table in frame `table`.
pub open spec fn spec_next_table(tables: Map<u64, Seq<u64>>, table: u64, index: int) -> Result<
    u64,
    FrameError,
> {
    spec_entry_frame(spec_entry(tables, table, index))
}

/// The level 1 table that the walk for `addr` reaches from the level 4 table in
/// frame `root`, or the reason why the walk stops above it.
pub open spec fn spec_level_1_table(tables: Map<u64, Seq<u64>>, root: u64, addr: u64) -> Result<
    u64,
    FrameError,
> {
    match spec_next_table(tables, root, spec_p4_index(addr)) {
        Err(e) => Err(e),
        Ok(p3) => match spec_next_table(tables, p3, spec_p3_index(addr)) {
            Err(e) => Err(e),
            Ok(p2) => spec_next_table(tables, p2, spec_p2_index(addr)),
        },
    }
}

/// The level 1 entry for `addr`, as the 64 bits stored in the table.
pub open spec fn spec_leaf_entry(tables: Map<u64, Seq<u64>>, root: u64, addr: u64) -> Result<
    u64,
    FrameError,
> {
    match spec_level_1_table(tables, root, addr) {
        Err(e) => Err(e),
        Ok(p1) => Ok(spec_entry(tables, p1, spec_p1_index(addr))),
    }
}

/// The frame that `addr` is mapped to: the result of following the entries
/// for its four indices from the level 4 table in frame `root`.
pub open spec fn spec_walk(tables: Map<u64, Seq<u64>>, root: u64, addr: u64) -> Result<
    u64,
    FrameError,
> {
    match spec_leaf_entry(tables, root, addr) {
        Err(e) => Err(e),
        Ok(entry) => spec_entry_frame(entry),
    }
}

/// The physical address that `addr` translates to: the start of its frame plus
/// its offset in the page; nothing where the walk stops.
pub open spec fn spec_translate(tables: Map<u64, Seq<u64>>, root: u64, addr: u64) -> Option<u64> {
    match spec_walk(tables, root, addr) {
        Ok(frame) => Some((frame + spec_page_offset(addr)) as u64),
        Err(_) => None,
    }
}

/// The active page-table hierarchy: the memory that holds the tables, and the
/// frame of the level 4 table.
pub struct OffsetPageTable {
    pub memory: PhysicalMemory,
    pub level_4_frame: PhysFrame,
}

impl OffsetPageTable {
    /// The tables are well-formed, and the level 4 table is one of them.
    pub open spec fn wf(&self) -> bool {
        &&& self.memory.wf()
        &&& self.level_4_frame.wf()
        &&& self.memory@.contains_key(self.level_4_frame.start)
    }

    /// The stored tables by the start address of their frame.
    pub open spec fn tables(&self) -> Map<u64, Seq<u64>> {
        self.memory@
    }

    /// Start address of the level 4 table's frame.
    pub open spec fn root(&self) -> u64 {
        self.level_4_frame.start
    }
}

/// Makes the hierarchy whose level 4 table lies in `level_4_frame` of `memory`.
/// Where the memory holds no table for that frame yet, it gets an empty one.
pub fn init(memory: PhysicalMemory, level_4_frame: PhysFrame) -> (table: OffsetPageTable)
    requires
        memory.wf(),
        level_4_frame.wf(),
    ensures
        table.wf(),
        table.level_4_frame == level_4_frame,
        table.tables() == if memory@.contains_key(level_4_frame.start) {
            memory@
        } else {
            memory@.insert(level_4_frame.start, empty_entries())
        },
        !memory@.contains_key(level_4_frame.start) ==> hierarchy_is_tree(
            table.tables(),
            table.root(),
        ),
{
    let mut memory = memory;
    if !memory.contains_table(level_4_frame) {
        memory.zero_table(level_4_frame);
        proof {
            lemma_zero_entry();
            lemma_empty_hierarchy_is_tree(memory@, level_4_frame.start);
        }
    }
    OffsetPageTable { memory, level_4_frame }
}

/// Follows the entries for the four indices of `addr` from the level 4 table
/// and adds the page offset to the frame that the last one names. Fails with
/// the reason for which the first entry that names no frame does not.
pub fn translate_addr_inner(addr: VirtAddr, page_table: &OffsetPageTable) -> (r: Result<
    PhysAddr,
    FrameError,
>)
    requires
        page_table.memory.wf(),
    ensures
        r == match spec_walk(page_table.tables(), page_table.root(), addr.addr) {
            Ok(frame) => Ok(PhysAddr { addr: (frame + spec_page_offset(addr.addr)) as u64 }),
            Err(e) => Err(e),
        },
        r matches Ok(phys) ==> phys.wf(),
{
    let memory = &page_table.memory;
    let p3 = match memory.entry_frame(page_table.level_4_frame, addr.p4_index()) {
        Ok(frame) => frame,
        Err(e) => return Err(e),
    };
    let p2 = match memory.entry_frame(p3, addr.p3_index()) {
        Ok(frame) => frame,
        Err(e) => return Err(e),
    };
    let p1 = match memory.entry_frame(p2, addr.p2_index()) {
        Ok(frame) => frame,
        Err(e) => return Err(e),
    };
    let frame = match memory.entry_frame(p1, addr.p1_index()) {
        Ok(frame) => frame,
        Err(e) => return Err(e),
    };
    let offset: u16 = addr.page_offset();
    assert(frame.start + offset < PHYS_ADDR_LIMIT) by {
        assert(frame.start % 4096 == 0);
        assert(frame.start < 0x10_0000_0000_0000);
    }
    Ok(PhysAddr { addr: frame.start + offset as u64 })
}

/// The physical address that `addr` is mapped to, or `None` where an entry on
/// the way is not present. A huge page on the way is not supported.
pub fn translate_addr(addr: VirtAddr, page_table: &OffsetPageTable) -> (r: Option<PhysAddr>)
    requires
        page_table.memory.wf(),
        spec_walk(page_table.tables(), page_table.root(), addr.addr) != Err::<u64, FrameError>(
            FrameError::HugeFrame,
        ),
    ensures
        r == match spec_translate(page_table.tables(), page_table.root(), addr.addr) {
            Some(phys) => Some(PhysAddr { addr: phys }),
            None => None,
        },
        r matches Some(phys) ==> phys.wf(),
{
    match translate_addr_inner(addr, page_table) {
        Ok(phys) => Some(phys),
        Err(_) => None,
    }
}

/// Start address of the frame that holds the VGA text buffer.
pub const VGA_BUFFER_FRAME: u64 = 0xb8000;

/// Maps `page` to the frame of the VGA text buffer, present and writable, and
/// yields the page, whose cached translation must then be invalidated.
pub fn create_example_mapping<A: FrameAllocator>(
    page: Page,
    mapper: &mut OffsetPageTable,
    frame_allocator: &mut A,
) -> (r: Result<Page, MapError>)
    requires
        old(mapper).memory.wf(),
        old(frame_allocator).wf(),
    ensures
        final(mapper).memory.wf(),
        final(frame_allocator).wf(),
        final(mapper).level_4_frame == old(mapper).level_4_frame,
        final(mapper).state(final(frame_allocator)) == spec_map_to(
            old(mapper).state(old(frame_allocator)),
            old(mapper).root(),
            page.start,
            VGA_BUFFER_FRAME,
            3,
        ).0,
        r == match spec_map_to(
            old(mapper).state(old(frame_allocator)),
            old(mapper).root(),
            page.start,
            VGA_BUFFER_FRAME,
            3,
        ).1 {
            Ok(_) => Ok(page),
            Err(e) => Err(e),
        },
        old(mapper).wf() && frames_fresh(old(mapper).state(old(frame_allocator)))
            ==> final(mapper).wf() && spec_page_mapped(
            old(mapper).state(old(frame_allocator)),
            old(mapper).root(),
            page.start,
            VGA_BUFFER_FRAME,
            3,
        ),
{
    let frame = PhysFrame::containing_address(PhysAddr { addr: VGA_BUFFER_FRAME });
    let flags = PageTableFlags::from_bits_truncate(PRESENT | WRITABLE);
    assert((1u64 | 2u64) & 0xfff0_0000_0000_0fff == 3) by (bit_vector);
    match mapper.map_to(page, frame, flags, frame_allocator) {
        Ok(mapping) => Ok(mapping.flush()),
        Err(e) => Err(e),
    }
}

} // verus!
