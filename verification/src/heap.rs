//! The kernel heap: a first-fit allocator over a mapped range of virtual
//! memory.
//!
//! The allocator keeps the free parts of the range as a list of blocks in
//! ascending address order, in which no two blocks touch. A request is served
//! from the first block that can hold it at the requested alignment; what is
//! left of the block in front of and behind the allocation stays free, so no
//! byte is lost to padding. A block that is given back is merged with the free
//! blocks that it touches.

use crate::addr::{spec_align_down, Page};
use crate::hierarchy::{hierarchy_is_tree, lemma_map_isolated, spec_same_path};
use crate::mapper::{
    frames_fresh, lemma_frames_fresh_skip, lemma_map_to, lemma_tables_extend_trans, lemma_walk_stable, spec_map_to,
    tables_extend, MapError, MapState, PARENT_TABLE_FLAGS,
};
use crate::memory::{spec_leaf_entry, spec_walk, FrameAllocator, OffsetPageTable};
use crate::page_table::{
    entry_is_huge, entry_is_present, lemma_make_entry, spec_make_entry, tables_wf, FrameError,
    PageTableFlags, FLAG_BITS, WRITABLE,
};
use vstd::prelude::*;

verus! {

/// Where the kernel heap starts.
pub const HEAP_START: u64 = 0x4444_4444_0000;

/// Size of the kernel heap in bytes.
pub const HEAP_SIZE: u64 = 100 * 1024;

/// Number of pages that hold a byte of the `size` bytes from `start`.
pub open spec fn spec_page_count(start: u64, size: u64) -> nat {
    if size == 0 {
        0
    } else {
        ((start + size - 1) / 4096 - start / 4096 + 1) as nat
    }
}

/// Mapping the page at `page` to the next unused frame, present and writable.
/// Nothing happens where no frame is left.
#[verifier::opaque]
pub open spec fn spec_map_next(s: MapState, root: u64, page: u64) -> (MapState, Result<(), MapError>) {
    if s.frames.len() == 0 {
        (s, Err(MapError::FrameExhausted))
    } else {
        spec_map_to(
            MapState { tables: s.tables, frames: s.frames.skip(1) },
            root,
            page,
            s.frames[0],
            PARENT_TABLE_FLAGS,
        )
    }
}

/// Mapping `count` pages in a row, the first at `page`, each to the next
/// unused frame, present and writable. The first page that cannot be given a
/// frame or cannot be mapped ends it.
pub open spec fn spec_map_range(s: MapState, root: u64, page: u64, count: nat) -> (
    MapState,
    Result<(), MapError>,
)
    decreases count,
{
    if count == 0 {
        (s, Ok(()))
    } else {
        let (mapped, r) = spec_map_next(s, root, page);
        match r {
            Err(e) => (mapped, Err(e)),
            Ok(_) => spec_map_range(mapped, root, (page + 4096) as u64, (count - 1) as nat),
        }
    }
}

/// Whether the page at `page` is mapped present and writable to a frame.
pub open spec fn spec_page_backed(tables: Map<u64, Seq<u64>>, root: u64, page: u64) -> bool {
    match spec_leaf_entry(tables, root, page) {
        Ok(entry) => entry_is_present(entry) && !entry_is_huge(entry) && entry & WRITABLE
            == WRITABLE,
        Err(_) => false,
    }
}

/// The pages of the heap are backed: once a row of pages has been mapped with
/// success, every one of them is mapped present and writable, and what was
/// mapped before is mapped as it was. Whether it succeeds or not, no present
/// entry changes and the frames left stay fresh.
#[verifier::rlimit(50)]
pub proof fn lemma_map_range(s: MapState, root: u64, page: u64, count: nat)
    requires
        tables_wf(s.tables),
        frames_fresh(s),
        s.tables.contains_key(root),
        page + count * 4096 <= u64::MAX + 1,
    ensures
        ({
            let (after, r) = spec_map_range(s, root, page, count);
            &&& tables_wf(after.tables)
            &&& frames_fresh(after)
            &&& after.tables.contains_key(root)
            &&& tables_extend(s.tables, after.tables)
            &&& forall|f: u64| after.frames.contains(f) ==> s.frames.contains(f)
            &&& r is Ok ==> forall|k: int|
                0 <= k < count ==> spec_page_backed(after.tables, root, #[trigger] (page + k * 4096) as u64)
        }),
    decreases count,
{
    reveal(spec_map_next);
    if count > 0 && s.frames.len() > 0 {
        let frame = s.frames[0];
        let taken = MapState { tables: s.tables, frames: s.frames.skip(1) };
        lemma_frames_fresh_skip(s, 1);
        lemma_map_to(taken, root, page, frame, PARENT_TABLE_FLAGS);
        let (mapped, r) = spec_map_to(taken, root, page, frame, PARENT_TABLE_FLAGS);
        lemma_frames_fresh_skip(taken, taken.frames.len() - mapped.frames.len());
        assert(!mapped.frames.contains(frame));
        if r is Ok {
            lemma_map_range(mapped, root, (page + 4096) as u64, (count - 1) as nat);
            let (after, r2) = spec_map_range(mapped, root, (page + 4096) as u64, (count - 1) as nat);
            lemma_tables_extend_trans(s.tables, mapped.tables, after.tables);
            if r2 is Ok {
                lemma_make_entry(frame, PARENT_TABLE_FLAGS);
                let entry = spec_make_entry(frame, PARENT_TABLE_FLAGS);
                assert(entry & FLAG_BITS == 3 ==> entry & 1 == 1 && entry & 0x80 != 0x80 && entry
                    & 2 == 2) by (bit_vector);
                assert(3u64 & 0xfff0_0000_0000_0fff == 3) by (bit_vector);
                assert(spec_page_backed(mapped.tables, root, page));
                lemma_walk_stable(mapped.tables, after.tables, root, page);
                assert forall|k: int| 0 <= k < count implies spec_page_backed(
                    after.tables,
                    root,
                    #[trigger] (page + k * 4096) as u64,
                ) by {
                    if k > 0 {
                        assert((page + k * 4096) as u64 == (((page + 4096) as u64) + (k - 1)
                            * 4096) as u64);
                    }
                }
            }
        }
    }
}

/// Isolation of the heap: where every table has one place in the hierarchy,
/// mapping a row of pages leaves it so, and changes the translation of no
/// address but those with the four table indices of one of the pages.
#[verifier::rlimit(50)]
pub proof fn lemma_map_range_isolated(s: MapState, root: u64, page: u64, count: nat)
    requires
        tables_wf(s.tables),
        frames_fresh(s),
        s.tables.contains_key(root),
        hierarchy_is_tree(s.tables, root),
        page + count * 4096 <= u64::MAX + 1,
    ensures
        hierarchy_is_tree(spec_map_range(s, root, page, count).0.tables, root),
        forall|addr: u64|
            (forall|k: int| 0 <= k < count ==> !spec_same_path(addr, #[trigger] (page + k * 4096) as u64, 0))
                ==> #[trigger] spec_walk(spec_map_range(s, root, page, count).0.tables, root, addr)
                == spec_walk(s.tables, root, addr),
    decreases count,
{
    reveal(spec_map_next);
    if count > 0 && s.frames.len() > 0 {
        let frame = s.frames[0];
        let taken = MapState { tables: s.tables, frames: s.frames.skip(1) };
        lemma_frames_fresh_skip(s, 1);
        lemma_map_to(taken, root, page, frame, PARENT_TABLE_FLAGS);
        lemma_map_isolated(taken, root, page, frame, PARENT_TABLE_FLAGS);
        let (mapped, r) = spec_map_to(taken, root, page, frame, PARENT_TABLE_FLAGS);
        lemma_frames_fresh_skip(taken, taken.frames.len() - mapped.frames.len());
        assert(!mapped.frames.contains(frame));
        let after = spec_map_range(s, root, page, count).0.tables;
        if r is Ok {
            lemma_map_range_isolated(mapped, root, (page + 4096) as u64, (count - 1) as nat);
        }
        assert forall|addr: u64|
            (forall|k: int| 0 <= k < count ==> !spec_same_path(addr, #[trigger] (page + k * 4096) as u64, 0))
            implies #[trigger] spec_walk(after, root, addr) == spec_walk(s.tables, root, addr) by {
            assert(!spec_same_path(addr, (page + 0 * 4096) as u64, 0));
            assert(spec_walk(mapped.tables, root, addr) == spec_walk(s.tables, root, addr));
            if r is Ok {
                assert forall|k: int| 0 <= k < count - 1 implies !spec_same_path(
                    addr,
                    #[trigger] (((page + 4096) as u64) + k * 4096) as u64,
                    0,
                ) by {
                    assert((((page + 4096) as u64) + k * 4096) as u64 == (page + (k + 1) * 4096) as u64);
                }
            }
        }
    }
}

/// Two pages of one row have different table indices.
pub proof fn lemma_pages_apart(page: u64, j: int, k: int)
    requires
        0 <= j < k < 0x10_0000_0000,
        page + k * 4096 <= u64::MAX,
    ensures
        !spec_same_path((page + j * 4096) as u64, (page + k * 4096) as u64, 0),
{
    let a = (page + j * 4096) as u64;
    let b = (page + k * 4096) as u64;
    let d = (k - j) as u64;
    assert(b == a + d * 4096);
    assert(0 < d < 0x10_0000_0000 && a <= 0xffff_ffff_ffff_ffff - d * 4096 && b == a + d * 4096 ==> !((
    a / 0x80_0000_0000) % 512 == (b / 0x80_0000_0000) % 512 && (a / 0x4000_0000) % 512 == (b
        / 0x4000_0000) % 512 && (a / 0x20_0000) % 512 == (b / 0x20_0000) % 512 && (a / 0x1000) % 512
        == (b / 0x1000) % 512)) by (bit_vector);
}

/// When mapping the heap succeeds: in a hierarchy that is a tree, a row of
/// pages none of which is mapped, and none of which has a huge page on its
/// way, is mapped with success where four frames are left for each page: one
/// for the page and three for the tables it may lack.
#[verifier::rlimit(50)]
pub proof fn lemma_map_range_succeeds(s: MapState, root: u64, page: u64, count: nat)
    requires
        tables_wf(s.tables),
        frames_fresh(s),
        s.tables.contains_key(root),
        hierarchy_is_tree(s.tables, root),
        page + count * 4096 <= u64::MAX + 1,
        count < 0x10_0000_0000,
        s.frames.len() >= 4 * count,
        forall|k: int|
            0 <= k < count ==> spec_walk(s.tables, root, #[trigger] (page + k * 4096) as u64)
                == Err::<u64, FrameError>(FrameError::FrameNotPresent),
    ensures
        spec_map_range(s, root, page, count).1 is Ok,
    decreases count,
{
    reveal(spec_map_next);
    if count > 0 {
        let frame = s.frames[0];
        let taken = MapState { tables: s.tables, frames: s.frames.skip(1) };
        lemma_frames_fresh_skip(s, 1);
        lemma_map_to(taken, root, page, frame, PARENT_TABLE_FLAGS);
        lemma_map_isolated(taken, root, page, frame, PARENT_TABLE_FLAGS);
        let (mapped, r) = spec_map_to(taken, root, page, frame, PARENT_TABLE_FLAGS);
        assert(spec_walk(s.tables, root, (page + 0 * 4096) as u64) == Err::<u64, FrameError>(
            FrameError::FrameNotPresent,
        ));
        assert(r is Ok);
        lemma_frames_fresh_skip(taken, taken.frames.len() - mapped.frames.len());
        assert(!mapped.frames.contains(frame));
        let next = (page + 4096) as u64;
        assert forall|k: int| 0 <= k < count - 1 implies spec_walk(
            mapped.tables,
            root,
            #[trigger] (next + k * 4096) as u64,
        ) == Err::<u64, FrameError>(FrameError::FrameNotPresent) by {
            assert((next + k * 4096) as u64 == (page + (k + 1) * 4096) as u64);
            lemma_pages_apart(page, 0, k + 1);
            assert(spec_walk(s.tables, root, (page + (k + 1) * 4096) as u64) == Err::<
                u64,
                FrameError,
            >(FrameError::FrameNotPresent));
        }
        lemma_map_range_succeeds(mapped, root, next, (count - 1) as nat);
    }
}

/// What mapping a row of `count` pages from `page` on leaves behind, `before`
/// and `after` being the tables and frames before and after it, and `ok`
/// whether it succeeded.
///
/// No present entry has changed and the frames left are fresh. On success
/// every page of the row is mapped present and writable. Where the hierarchy
/// was a tree it still is one; the translation of an address that has the
/// table indices of none of the pages is as it was; and it did succeed if
/// none of the pages had a translation or a huge page on its way and four
/// frames were left for each of them.
#[verifier::opaque]
pub open spec fn spec_range_mapped(
    before: MapState,
    after: MapState,
    ok: bool,
    root: u64,
    page: u64,
    count: nat,
) -> bool {
    &&& tables_wf(after.tables)
    &&& after.tables.contains_key(root)
    &&& frames_fresh(after)
    &&& tables_extend(before.tables, after.tables)
    &&& ok ==> forall|k: int|
        0 <= k < count ==> spec_page_backed(after.tables, root, #[trigger] (page + k * 4096) as u64)
    &&& hierarchy_is_tree(before.tables, root) ==> {
        &&& hierarchy_is_tree(after.tables, root)
        &&& forall|addr: u64|
            (forall|k: int|
                0 <= k < count ==> !spec_same_path(addr, #[trigger] (page + k * 4096) as u64, 0))
                ==> #[trigger] spec_walk(after.tables, root, addr) == spec_walk(
                before.tables,
                root,
                addr,
            )
        &&& count < 0x10_0000_0000 && before.frames.len() >= 4 * count && (forall|k: int|
            0 <= k < count ==> spec_walk(before.tables, root, #[trigger] (page + k * 4096) as u64)
                == Err::<u64, FrameError>(FrameError::FrameNotPresent)) ==> ok
    }
}

/// Mapping a row of pages leaves behind what [`spec_range_mapped`] says.
pub proof fn lemma_map_range_laws(s: MapState, root: u64, page: u64, count: nat)
    requires
        tables_wf(s.tables),
        frames_fresh(s),
        s.tables.contains_key(root),
        page + count * 4096 <= u64::MAX + 1,
    ensures
        spec_range_mapped(
            s,
            spec_map_range(s, root, page, count).0,
            spec_map_range(s, root, page, count).1 is Ok,
            root,
            page,
            count,
        ),
        tables_wf(spec_map_range(s, root, page, count).0.tables),
        spec_map_range(s, root, page, count).0.tables.contains_key(root),
{
    reveal(spec_range_mapped);
    lemma_map_range(s, root, page, count);
    if hierarchy_is_tree(s.tables, root) {
        lemma_map_range_isolated(s, root, page, count);
        if count < 0x10_0000_0000 && s.frames.len() >= 4 * count && (forall|k: int|
            0 <= k < count ==> spec_walk(s.tables, root, #[trigger] (page + k * 4096) as u64)
                == Err::<u64, FrameError>(FrameError::FrameNotPresent)) {
            lemma_map_range_succeeds(s, root, page, count);
        }
    }
}

/// A heap whose pages have just been mapped, with the pages whose cached
/// translations must be invalidated before the heap is used.
pub struct MappedHeap {
    pub heap: Heap,
    pub flush: Vec<Page>,
}

/// Maps `page` to the next frame of `frame_allocator`, present and writable,
/// and yields the page, whose cached translation must then be invalidated.
pub fn map_next_page<A: FrameAllocator>(
    mapper: &mut OffsetPageTable,
    frame_allocator: &mut A,
    page: Page,
) -> (r: Result<Page, MapError>)
    requires
        old(mapper).memory.wf(),
        old(frame_allocator).wf(),
    ensures
        final(mapper).memory.wf(),
        final(frame_allocator).wf(),
        final(mapper).level_4_frame == old(mapper).level_4_frame,
        final(mapper).state(final(frame_allocator)) == spec_map_next(
            old(mapper).state(old(frame_allocator)),
            old(mapper).root(),
            page.start,
        ).0,
        r == match spec_map_next(
            old(mapper).state(old(frame_allocator)),
            old(mapper).root(),
            page.start,
        ).1 {
            Ok(_) => Ok(page),
            Err(e) => Err(e),
        },
{
    reveal(spec_map_next);
    let frame = match frame_allocator.allocate_frame() {
        Some(frame) => frame,
        None => {
            return Err(MapError::FrameExhausted);
        },
    };
    match mapper.map_to(page, frame, PageTableFlags { bits: PARENT_TABLE_FLAGS }, frame_allocator) {
        Ok(mapping) => Ok(mapping.flush()),
        Err(e) => Err(e),
    }
}

/// Maps every page that holds a byte of the `heap_size` bytes from
/// `heap_start`, each to a frame of its own from `frame_allocator`, present and
/// writable, and makes the allocator over that range. Stops at the first page
/// for which no frame is left or which cannot be mapped.
#[verifier::rlimit(50)]
pub fn init<A: FrameAllocator>(
    mapper: &mut OffsetPageTable,
    frame_allocator: &mut A,
    heap_start: u64,
    heap_size: u64,
) -> (r: Result<MappedHeap, MapError>)
    requires
        old(mapper).memory.wf(),
        old(frame_allocator).wf(),
        heap_start + heap_size <= u64::MAX,
    ensures
        final(mapper).memory.wf(),
        final(frame_allocator).wf(),
        final(mapper).level_4_frame == old(mapper).level_4_frame,
        final(mapper).state(final(frame_allocator)) == spec_map_range(
            old(mapper).state(old(frame_allocator)),
            old(mapper).root(),
            spec_align_down(heap_start),
            spec_page_count(heap_start, heap_size),
        ).0,
        match r {
            Ok(mapped) => {
                &&& spec_map_range(
                    old(mapper).state(old(frame_allocator)),
                    old(mapper).root(),
                    spec_align_down(heap_start),
                    spec_page_count(heap_start, heap_size),
                ).1 is Ok
                &&& mapped.heap.wf()
                &&& mapped.heap.region() == (Block { start: heap_start, size: heap_size })
                &&& mapped.heap.live() == Seq::<Block>::empty()
                &&& mapped.heap.free() == if heap_size > 0 {
                    seq![Block { start: heap_start, size: heap_size }]
                } else {
                    Seq::<Block>::empty()
                }
                &&& mapped.flush@ == Seq::new(
                    spec_page_count(heap_start, heap_size),
                    |k: int| Page { start: (spec_align_down(heap_start) + k * 4096) as u64 },
                )
            },
            Err(e) => spec_map_range(
                old(mapper).state(old(frame_allocator)),
                old(mapper).root(),
                spec_align_down(heap_start),
                spec_page_count(heap_start, heap_size),
            ).1 == Err::<(), MapError>(e),
        },
        old(mapper).wf() && frames_fresh(old(mapper).state(old(frame_allocator)))
            ==> final(mapper).wf() && spec_range_mapped(
            old(mapper).state(old(frame_allocator)),
            final(mapper).state(final(frame_allocator)),
            r is Ok,
            old(mapper).root(),
            spec_align_down(heap_start),
            spec_page_count(heap_start, heap_size),
        ),
{
    let first: u64 = heap_start - heap_start % 4096;
    let count: u64 = if heap_size == 0 {
        0
    } else {
        (heap_start + heap_size - 1) / 4096 - heap_start / 4096 + 1
    };
    let ghost start_state = mapper.state(frame_allocator);
    let ghost root = mapper.root();
    assert(first + count * 4096 <= u64::MAX + 1);
    let mut flush: Vec<Page> = Vec::new();
    let mut i: u64 = 0;
    while i < count
        invariant
            i <= count,
            first + count * 4096 <= u64::MAX + 1,
            mapper.memory.wf(),
            frame_allocator.wf(),
            mapper.level_4_frame == old(mapper).level_4_frame,
            root == mapper.root(),
            start_state == old(mapper).state(old(frame_allocator)),
            first == spec_align_down(heap_start),
            count == spec_page_count(heap_start, heap_size),
            spec_map_range(start_state, root, first, count as nat) == spec_map_range(
                mapper.state(frame_allocator),
                root,
                (first + i * 4096) as u64,
                (count - i) as nat,
            ),
            flush@ == Seq::new(i as nat, |k: int| Page { start: (first + k * 4096) as u64 }),
        decreases count - i,
    {
        let page = Page { start: first + i * 4096 };
        let ghost before = mapper.state(frame_allocator);
        let mapped = map_next_page(mapper, frame_allocator, page);
        proof {
            let step = spec_map_next(before, root, page.start);
            assert(spec_map_range(before, root, page.start, (count - i) as nat) == match step.1 {
                Err(e) => (step.0, Err::<(), MapError>(e)),
                Ok(_) => spec_map_range(
                    step.0,
                    root,
                    (page.start + 4096) as u64,
                    (count - i - 1) as nat,
                ),
            });
        }
        match mapped {
            Ok(page) => {
                flush.push(page);
            },
            Err(e) => {
                proof {
                    if old(mapper).wf() && frames_fresh(start_state) {
                        lemma_map_range_laws(start_state, root, first, count as nat);
                    }
                }
                return Err(e);
            },
        }
        i += 1;
        assert(flush@ =~= Seq::new(i as nat, |k: int| Page { start: (first + k * 4096) as u64 }));
    }
    proof {
        if old(mapper).wf() && frames_fresh(start_state) {
            lemma_map_range_laws(start_state, root, first, count as nat);
        }
    }
    Ok(MappedHeap { heap: Heap::new(heap_start, heap_size), flush })
}

/// The bytes from `start` up to, not including, `start + size`.
#[derive(Clone, Copy, Debug, PartialEq, Eq, Structural)]
pub struct Block {
    pub start: u64,
    pub size: u64,
}

impl Block {
    /// First address behind the block.
    pub open spec fn end(self) -> int {
        self.start + self.size
    }

    /// Whether the two blocks share no byte.
    pub open spec fn disjoint(self, other: Block) -> bool {
        self.end() <= other.start || other.end() <= self.start
    }

    /// Whether every byte of the block lies in `outer`.
    pub open spec fn within(self, outer: Block) -> bool {
        outer.start <= self.start && self.end() <= outer.end()
    }
}

/// Sum of the sizes of the blocks.
pub open spec fn spec_total(blocks: Seq<Block>) -> int
    decreases blocks.len(),
{
    if blocks.len() == 0 {
        0
    } else {
        spec_total(blocks.drop_last()) + blocks.last().size
    }
}

/// Whether `align` is a power of two.
pub open spec fn spec_is_power_of_two(align: u64) -> bool {
    align != 0 && align & ((align - 1) as u64) == 0
}

/// Number of bytes from `start` up to the next multiple of `align`.
pub open spec fn spec_padding(start: u64, align: u64) -> int {
    if start % align == 0 {
        0
    } else {
        align - start % align
    }
}

/// Whether `block` can hold `size` bytes that start on a multiple of `align`.
pub open spec fn spec_fits(block: Block, size: u64, align: u64) -> bool {
    spec_padding(block.start, align) + size <= block.size
}

/// A request that the allocator serves: at least one byte, at a power of two.
pub open spec fn spec_valid_request(size: u64, align: u64) -> bool {
    size > 0 && spec_is_power_of_two(align)
}

/// The free list: blocks that are not empty and lie in `region`, in ascending
/// order, with at least one byte that is not free between any two of them.
pub open spec fn free_list_wf(free: Seq<Block>, region: Block) -> bool {
    &&& forall|i: int| 0 <= i < free.len() ==> (#[trigger] free[i]).size > 0 && free[i].within(region)
    &&& forall|i: int, j: int|
        0 <= i < j < free.len() ==> (#[trigger] free[i]).end() < (#[trigger] free[j]).start
}

/// The live allocations: blocks that are not empty, lie in `region`, and share
/// no byte with each other or with a free block.
pub open spec fn live_wf(live: Seq<Block>, free: Seq<Block>, region: Block) -> bool {
    &&& forall|i: int| 0 <= i < live.len() ==> (#[trigger] live[i]).size > 0 && live[i].within(region)
    &&& forall|i: int, j: int|
        0 <= i < j < live.len() ==> (#[trigger] live[i]).disjoint(#[trigger] live[j])
    &&& forall|i: int, j: int|
        0 <= i < live.len() && 0 <= j < free.len() ==> (#[trigger] live[i]).disjoint(
            #[trigger] free[j],
        )
}

/// The free list after an allocation of `size` bytes at `align` was taken out
/// of the block at `index`: the part of the block in front of the allocation
/// and the part behind it take the block's place, each unless it is empty.
pub open spec fn spec_carve(free: Seq<Block>, index: int, size: u64, align: u64) -> Seq<Block> {
    let block = free[index];
    let padding = spec_padding(block.start, align);
    let rest = block.size - padding - size;
    let front = if padding > 0 {
        seq![Block { start: block.start, size: padding as u64 }]
    } else {
        Seq::<Block>::empty()
    };
    let back = if rest > 0 {
        seq![Block { start: (block.start + padding + size) as u64, size: rest as u64 }]
    } else {
        Seq::<Block>::empty()
    };
    free.take(index) + front + back + free.skip(index + 1)
}

/// Whether the block at `index` is the first of the list that fits the request.
pub open spec fn spec_first_fit(free: Seq<Block>, index: int, size: u64, align: u64) -> bool {
    &&& 0 <= index < free.len()
    &&& spec_fits(free[index], size, align)
    &&& forall|j: int| 0 <= j < index ==> !spec_fits(#[trigger] free[j], size, align)
}

/// Whether `index` is where `block` belongs in the list: behind every free
/// block that starts below it, in front of every other.
pub open spec fn spec_position(free: Seq<Block>, index: int, block: Block) -> bool {
    &&& 0 <= index <= free.len()
    &&& forall|j: int| 0 <= j < index ==> (#[trigger] free[j]).start < block.start
    &&& forall|j: int| index <= j < free.len() ==> (#[trigger] free[j]).start > block.start
}

/// The free list after `block` was given back at position `index`: the block
/// is merged with the free block in front of it and with the one behind it,
/// where it touches them.
pub open spec fn spec_release(free: Seq<Block>, index: int, block: Block) -> Seq<Block> {
    let left = index > 0 && free[index - 1].end() == block.start;
    let right = index < free.len() && block.end() == free[index].start;
    if left && right {
        free.take(index - 1).push(
            Block {
                start: free[index - 1].start,
                size: (free[index - 1].size + block.size + free[index].size) as u64,
            },
        ) + free.skip(index + 1)
    } else if left {
        free.take(index - 1).push(
            Block { start: free[index - 1].start, size: (free[index - 1].size + block.size) as u64 },
        ) + free.skip(index)
    } else if right {
        free.take(index).push(
            Block { start: block.start, size: (block.size + free[index].size) as u64 },
        ) + free.skip(index + 1)
    } else {
        free.take(index).push(block) + free.skip(index)
    }
}

/// The total of two lists is the sum of their totals.
pub proof fn lemma_total_concat(a: Seq<Block>, b: Seq<Block>)
    ensures
        spec_total(a + b) == spec_total(a) + spec_total(b),
    decreases b.len(),
{
    if b.len() == 0 {
        assert(a + b == a);
    } else {
        lemma_total_concat(a, b.drop_last());
        assert((a + b).drop_last() == a + b.drop_last());
    }
}

/// The total of a list of one block is the size of the block.
pub proof fn lemma_total_one(block: Block)
    ensures
        spec_total(seq![block]) == block.size,
        spec_total(Seq::<Block>::empty()) == 0,
{
    assert(seq![block].drop_last() == Seq::<Block>::empty());
    assert(spec_total(Seq::<Block>::empty()) == 0);
    assert(seq![block].last() == block);
}

/// The total of a list is that of the blocks in front of `index`, the block
/// at `index`, and the blocks behind it.
pub proof fn lemma_total_split(blocks: Seq<Block>, index: int)
    requires
        0 <= index < blocks.len(),
    ensures
        spec_total(blocks) == spec_total(blocks.take(index)) + blocks[index].size + spec_total(
            blocks.skip(index + 1),
        ),
{
    assert(blocks == blocks.take(index) + seq![blocks[index]] + blocks.skip(index + 1));
    lemma_total_concat(blocks.take(index) + seq![blocks[index]], blocks.skip(index + 1));
    lemma_total_concat(blocks.take(index), seq![blocks[index]]);
    lemma_total_one(blocks[index]);
}

/// Taking an allocation out of a free block that fits keeps the heap in
/// order: the free list stays sorted and separated, the new allocation lies in
/// the region and shares no byte with an older one or with a free block, and
/// the free total shrinks by the size of the allocation.
#[verifier::rlimit(50)]
pub proof fn lemma_carve(
    free: Seq<Block>,
    live: Seq<Block>,
    region: Block,
    index: int,
    size: u64,
    align: u64,
)
    requires
        free_list_wf(free, region),
        live_wf(live, free, region),
        region.end() <= u64::MAX,
        0 <= index < free.len(),
        spec_fits(free[index], size, align),
        size > 0,
        align > 0,
    ensures
        ({
            let start = (free[index].start + spec_padding(free[index].start, align)) as u64;
            let taken = Block { start, size };
            &&& start % align == 0
            &&& taken.within(free[index])
            &&& taken.within(region)
            &&& forall|k: int| 0 <= k < live.len() ==> (#[trigger] live[k]).disjoint(taken)
            &&& free_list_wf(spec_carve(free, index, size, align), region)
            &&& live_wf(live.push(taken), spec_carve(free, index, size, align), region)
            &&& spec_total(spec_carve(free, index, size, align)) == spec_total(free) - size
            &&& spec_total(live.push(taken)) == spec_total(live) + size
        }),
{
    let block = free[index];
    let padding = spec_padding(block.start, align);
    let start = (block.start + padding) as u64;
    let taken = Block { start, size };
    let rest = block.size - padding - size;
    let carved = spec_carve(free, index, size, align);
    assert(block.within(region));
    assert(start % align == 0) by {
        if block.start % align != 0 {
            assert((block.start + (align - block.start % align)) % (align as int) == 0)
                by (nonlinear_arith)
                requires
                    align > 0,
            ;
        }
    }
    let front = if padding > 0 {
        seq![Block { start: block.start, size: padding as u64 }]
    } else {
        Seq::<Block>::empty()
    };
    let back = if rest > 0 {
        seq![Block { start: (block.start + padding + size) as u64, size: rest as u64 }]
    } else {
        Seq::<Block>::empty()
    };
    let pieces = front + back;
    assert(carved == free.take(index) + pieces + free.skip(index + 1));
    // every piece lies in the block, in front of or behind the allocation
    assert forall|k: int| 0 <= k < pieces.len() implies (#[trigger] pieces[k]).within(block)
        && pieces[k].size > 0 && pieces[k].disjoint(taken) by {}
    assert forall|a: int, b: int| 0 <= a < b < pieces.len() implies (#[trigger] pieces[a]).end() < (
    #[trigger] pieces[b]).start by {}
    let n = pieces.len() as int;
    assert forall|k: int| 0 <= k < carved.len() implies (#[trigger] carved[k]).size > 0
        && carved[k].within(region) by {
        if k < index {
            assert(carved[k] == free[k]);
        } else if k < index + n {
            assert(carved[k] == pieces[k - index]);
        } else {
            assert(carved[k] == free[k - n + 1]);
        }
    }
    assert forall|a: int, b: int| 0 <= a < b < carved.len() implies (#[trigger] carved[a]).end() < (
    #[trigger] carved[b]).start by {
        if a < index {
            assert(carved[a] == free[a]);
            if b < index {
                assert(carved[b] == free[b]);
            } else if b < index + n {
                assert(carved[b] == pieces[b - index]);
                assert(pieces[b - index].within(block));
                assert(free[a].end() < free[index].start);
            } else {
                assert(carved[b] == free[b - n + 1]);
            }
        } else if a < index + n {
            assert(carved[a] == pieces[a - index]);
            assert(pieces[a - index].within(block));
            if b < index + n {
                assert(carved[b] == pieces[b - index]);
            } else {
                assert(carved[b] == free[b - n + 1]);
                assert(free[index].end() < free[b - n + 1].start);
            }
        } else {
            assert(carved[a] == free[a - n + 1]);
            assert(carved[b] == free[b - n + 1]);
        }
    }
    assert forall|k: int| 0 <= k < live.len() implies (#[trigger] live[k]).disjoint(taken) by {
        assert(live[k].disjoint(free[index]));
    }
    let grown = live.push(taken);
    assert forall|i: int, j: int| 0 <= i < j < grown.len() implies (#[trigger] grown[i]).disjoint(
        #[trigger] grown[j],
    ) by {
        if j == live.len() {
            assert(grown[i] == live[i]);
        } else {
            assert(grown[i] == live[i]);
            assert(grown[j] == live[j]);
        }
    }
    assert forall|i: int, j: int|
        0 <= i < grown.len() && 0 <= j < carved.len() implies (#[trigger] grown[i]).disjoint(
        #[trigger] carved[j],
    ) by {
        if j < index {
            assert(carved[j] == free[j]);
            assert(free[j].end() < free[index].start);
            if i < live.len() {
                assert(grown[i] == live[i]);
            }
        } else if j < index + n {
            assert(carved[j] == pieces[j - index]);
            assert(pieces[j - index].within(block));
            if i < live.len() {
                assert(grown[i] == live[i]);
                assert(live[i].disjoint(free[index]));
            }
        } else {
            assert(carved[j] == free[j - n + 1]);
            assert(free[index].end() < free[j - n + 1].start);
            if i < live.len() {
                assert(grown[i] == live[i]);
            }
        }
    }
    assert forall|i: int| 0 <= i < grown.len() implies (#[trigger] grown[i]).size > 0
        && grown[i].within(region) by {
        if i < live.len() {
            assert(grown[i] == live[i]);
        }
    }
    lemma_total_split(free, index);
    lemma_total_concat(free.take(index) + pieces, free.skip(index + 1));
    lemma_total_concat(free.take(index), pieces);
    lemma_total_concat(front, back);
    lemma_total_one(Block { start: block.start, size: padding as u64 });
    lemma_total_one(Block { start: (block.start + padding + size) as u64, size: rest as u64 });
    assert(spec_total(pieces) == padding + rest);
    assert(grown.drop_last() == live);
}

/// Whether the byte at `addr` lies in one of the blocks.
pub open spec fn spec_covers(blocks: Seq<Block>, addr: int) -> bool {
    exists|i: int| 0 <= i < blocks.len() && (#[trigger] blocks[i]).start <= addr < blocks[i].end()
}

/// An allocation takes its own bytes out of the free bytes and no others: a
/// byte is free afterwards just where it was free before and does not belong
/// to the allocation.
#[verifier::rlimit(50)]
pub proof fn lemma_carve_covers(
    free: Seq<Block>,
    region: Block,
    index: int,
    size: u64,
    align: u64,
    addr: int,
)
    requires
        free_list_wf(free, region),
        region.end() <= u64::MAX,
        0 <= index < free.len(),
        spec_fits(free[index], size, align),
        size > 0,
        align > 0,
    ensures
        ({
            let start = free[index].start + spec_padding(free[index].start, align);
            spec_covers(spec_carve(free, index, size, align), addr) <==> spec_covers(free, addr)
                && !(start <= addr < start + size)
        }),
{
    let block = free[index];
    let padding = spec_padding(block.start, align);
    let start = block.start + padding;
    let rest = block.size - padding - size;
    let carved = spec_carve(free, index, size, align);
    let front = if padding > 0 {
        seq![Block { start: block.start, size: padding as u64 }]
    } else {
        Seq::<Block>::empty()
    };
    let back = if rest > 0 {
        seq![Block { start: (block.start + padding + size) as u64, size: rest as u64 }]
    } else {
        Seq::<Block>::empty()
    };
    let pieces = front + back;
    let n = pieces.len() as int;
    assert(block.within(region));
    assert(carved == free.take(index) + pieces + free.skip(index + 1));
    assert forall|k: int| 0 <= k < pieces.len() implies (#[trigger] pieces[k]).within(block) && (
    pieces[k].end() <= start || start + size <= pieces[k].start) by {}
    if spec_covers(carved, addr) {
        let k = choose|k: int|
            0 <= k < carved.len() && (#[trigger] carved[k]).start <= addr < carved[k].end();
        if k < index {
            assert(carved[k] == free[k]);
            assert(free[k].end() < free[index].start);
        } else if k < index + n {
            assert(carved[k] == pieces[k - index]);
            assert(pieces[k - index].within(block));
            assert(free[index].start <= addr < free[index].end());
        } else {
            assert(carved[k] == free[k - n + 1]);
            assert(free[index].end() < free[k - n + 1].start);
        }
    }
    if spec_covers(free, addr) && !(start <= addr < start + size) {
        let j = choose|j: int| 0 <= j < free.len() && (#[trigger] free[j]).start <= addr < free[j].end();
        if j < index {
            assert(carved[j] == free[j]);
        } else if j > index {
            assert(carved[j - 1 + n] == free[j]);
        } else if addr < start {
            assert(padding > 0);
            assert(pieces[0] == Block { start: block.start, size: padding as u64 });
            assert(carved[index] == pieces[0]);
        } else {
            assert(rest > 0);
            assert(pieces[n - 1] == Block {
                start: (block.start + padding + size) as u64,
                size: rest as u64,
            });
            assert(carved[index + n - 1] == pieces[n - 1]);
        }
    }
}

/// The bytes of a list in which one block stands for the blocks from `p` up to
/// `q` are those of the block and of the blocks that were kept.
pub proof fn lemma_joined_covers(free: Seq<Block>, p: int, q: int, block: Block, addr: int)
    requires
        0 <= p <= q <= free.len(),
    ensures
        spec_covers(free.take(p).push(block) + free.skip(q), addr) <==> (block.start <= addr
            < block.end()) || exists|j: int|
            0 <= j < free.len() && !(p <= j < q) && (#[trigger] free[j]).start <= addr
                < free[j].end(),
{
    let joined = free.take(p).push(block) + free.skip(q);
    assert(joined[p] == block);
    if spec_covers(joined, addr) {
        let k = choose|k: int|
            0 <= k < joined.len() && (#[trigger] joined[k]).start <= addr < joined[k].end();
        if k < p {
            assert(joined[k] == free[k]);
        } else if k > p {
            assert(joined[k] == free[k - p - 1 + q]);
        }
    }
    if exists|j: int|
        0 <= j < free.len() && !(p <= j < q) && (#[trigger] free[j]).start <= addr < free[j].end() {
        let j = choose|j: int|
            0 <= j < free.len() && !(p <= j < q) && (#[trigger] free[j]).start <= addr
                < free[j].end();
        if j < p {
            assert(joined[j] == free[j]);
        } else {
            assert(joined[j - q + p + 1] == free[j]);
        }
    }
}

/// A block that is given back adds its own bytes to the free bytes and no
/// others: a byte is free afterwards just where it was free before or belongs
/// to the block.
#[verifier::rlimit(50)]
pub proof fn lemma_release_covers(
    free: Seq<Block>,
    region: Block,
    index: int,
    block: Block,
    addr: int,
)
    requires
        free_list_wf(free, region),
        spec_position(free, index, block),
        block.size > 0,
        block.within(region),
        region.end() <= u64::MAX,
        forall|j: int| 0 <= j < free.len() ==> (#[trigger] free[j]).disjoint(block),
    ensures
        spec_covers(spec_release(free, index, block), addr) <==> spec_covers(free, addr) || (
        block.start <= addr < block.end()),
{
    let left = index > 0 && free[index - 1].end() == block.start;
    let right = index < free.len() && block.end() == free[index].start;
    let p = if left {
        index - 1
    } else {
        index
    };
    let q = if right {
        index + 1
    } else {
        index
    };
    if left {
        assert(free[index - 1].within(region));
    }
    if right {
        assert(free[index].within(region));
    }
    let merged = Block {
        start: if left {
            free[index - 1].start
        } else {
            block.start
        },
        size: ((if left {
            free[index - 1].size as int
        } else {
            0
        }) + block.size + (if right {
            free[index].size as int
        } else {
            0
        })) as u64,
    };
    assert(spec_release(free, index, block) == free.take(p).push(merged) + free.skip(q));
    lemma_joined_covers(free, p, q, merged, addr);
    let kept = exists|j: int|
        0 <= j < free.len() && !(p <= j < q) && (#[trigger] free[j]).start <= addr < free[j].end();
    if spec_covers(free, addr) {
        let j = choose|j: int| 0 <= j < free.len() && (#[trigger] free[j]).start <= addr < free[j].end();
        if p <= j < q {
            assert(merged.start <= addr < merged.end());
        } else {
            assert(kept);
        }
    }
    if merged.start <= addr < merged.end() && !(block.start <= addr < block.end()) {
        if left && addr < block.start {
            assert(free[index - 1].start <= addr < free[index - 1].end());
        } else {
            assert(right);
            assert(free[index].start <= addr < free[index].end());
        }
    }
}

/// The total of a list is that of its first `index` blocks and that of the
/// others; the total of the others is the size of their first and the total
/// of the rest.
pub proof fn lemma_total_take_skip(blocks: Seq<Block>, index: int)
    requires
        0 <= index <= blocks.len(),
    ensures
        spec_total(blocks) == spec_total(blocks.take(index)) + spec_total(blocks.skip(index)),
        index < blocks.len() ==> spec_total(blocks.skip(index)) == blocks[index].size + spec_total(
            blocks.skip(index + 1),
        ),
{
    assert(blocks == blocks.take(index) + blocks.skip(index));
    lemma_total_concat(blocks.take(index), blocks.skip(index));
    if index < blocks.len() {
        assert(blocks.skip(index) == seq![blocks[index]] + blocks.skip(index + 1));
        lemma_total_concat(seq![blocks[index]], blocks.skip(index + 1));
        lemma_total_one(blocks[index]);
    }
}

/// A block that lies between the first `p` blocks of a free list and those
/// from `q` on, touching neither, makes a free list with them; allocations
/// that share no byte with the block or the old list share none with the new.
#[verifier::rlimit(50)]
pub proof fn lemma_list_with_block(
    free: Seq<Block>,
    live: Seq<Block>,
    region: Block,
    p: int,
    q: int,
    block: Block,
)
    requires
        free_list_wf(free, region),
        live_wf(live, free, region),
        0 <= p <= q <= free.len(),
        block.size > 0,
        block.within(region),
        forall|j: int| 0 <= j < p ==> (#[trigger] free[j]).end() < block.start,
        forall|j: int| q <= j < free.len() ==> block.end() < (#[trigger] free[j]).start,
        forall|k: int| 0 <= k < live.len() ==> (#[trigger] live[k]).disjoint(block),
    ensures
        free_list_wf(free.take(p).push(block) + free.skip(q), region),
        live_wf(live, free.take(p).push(block) + free.skip(q), region),
        spec_total(free.take(p).push(block) + free.skip(q)) == spec_total(free.take(p))
            + block.size + spec_total(free.skip(q)),
{
    let joined = free.take(p).push(block) + free.skip(q);
    assert forall|k: int| 0 <= k < joined.len() implies (#[trigger] joined[k]).size > 0
        && joined[k].within(region) by {
        if k < p {
            assert(joined[k] == free[k]);
        } else if k > p {
            assert(joined[k] == free[k - p - 1 + q]);
        }
    }
    assert forall|a: int, b: int| 0 <= a < b < joined.len() implies (#[trigger] joined[a]).end() < (
    #[trigger] joined[b]).start by {
        if a < p {
            assert(joined[a] == free[a]);
        } else if a > p {
            assert(joined[a] == free[a - p - 1 + q]);
        }
        if b < p {
            assert(joined[b] == free[b]);
        } else if b > p {
            assert(joined[b] == free[b - p - 1 + q]);
        }
    }
    assert forall|i: int, j: int|
        0 <= i < live.len() && 0 <= j < joined.len() implies (#[trigger] live[i]).disjoint(
        #[trigger] joined[j],
    ) by {
        if j < p {
            assert(joined[j] == free[j]);
        } else if j > p {
            assert(joined[j] == free[j - p - 1 + q]);
        }
    }
    lemma_total_concat(free.take(p).push(block), free.skip(q));
    assert(free.take(p).push(block) == free.take(p) + seq![block]);
    lemma_total_concat(free.take(p), seq![block]);
    lemma_total_one(block);
}

/// Giving back a live allocation keeps the heap in order: the free list with
/// the block merged in stays sorted and separated, the other allocations
/// share no byte with it, and the free total grows by the size of the block.
#[verifier::rlimit(50)]
pub proof fn lemma_release(
    free: Seq<Block>,
    live: Seq<Block>,
    region: Block,
    index: int,
    k: int,
)
    requires
        free_list_wf(free, region),
        live_wf(live, free, region),
        region.end() <= u64::MAX,
        0 <= k < live.len(),
        spec_position(free, index, live[k]),
    ensures
        index > 0 ==> free[index - 1].end() <= live[k].start,
        index < free.len() ==> live[k].end() <= free[index].start,
        free_list_wf(spec_release(free, index, live[k]), region),
        live_wf(live.remove(k), spec_release(free, index, live[k]), region),
        spec_total(spec_release(free, index, live[k])) == spec_total(free) + live[k].size,
        spec_total(live.remove(k)) == spec_total(live) - live[k].size,
{
    let block = live[k];
    let rest = live.remove(k);
    assert(block.size > 0 && block.within(region));
    if index > 0 {
        assert(live[k].disjoint(free[index - 1]));
    }
    if index < free.len() {
        assert(live[k].disjoint(free[index]));
    }
    assert forall|i: int| 0 <= i < rest.len() implies (#[trigger] rest[i]).size > 0
        && rest[i].within(region) && rest[i].disjoint(block) by {
        if i < k {
            assert(rest[i] == live[i]);
            assert(live[i].disjoint(live[k]));
        } else {
            assert(rest[i] == live[i + 1]);
            assert(live[k].disjoint(live[i + 1]));
        }
    }
    assert forall|i: int, j: int| 0 <= i < j < rest.len() implies (#[trigger] rest[i]).disjoint(
        #[trigger] rest[j],
    ) by {
        let a = if i < k {
            i
        } else {
            i + 1
        };
        let b = if j < k {
            j
        } else {
            j + 1
        };
        assert(rest[i] == live[a]);
        assert(rest[j] == live[b]);
    }
    assert forall|i: int, j: int|
        0 <= i < rest.len() && 0 <= j < free.len() implies (#[trigger] rest[i]).disjoint(
        #[trigger] free[j],
    ) by {
        let a = if i < k {
            i
        } else {
            i + 1
        };
        assert(rest[i] == live[a]);
    }
    assert(live_wf(rest, free, region));
    let left = index > 0 && free[index - 1].end() == block.start;
    let right = index < free.len() && block.end() == free[index].start;
    let p = if left {
        index - 1
    } else {
        index
    };
    let q = if right {
        index + 1
    } else {
        index
    };
    let merged = Block {
        start: if left {
            free[index - 1].start
        } else {
            block.start
        },
        size: ((if left {
            free[index - 1].size as int
        } else {
            0
        }) + block.size + (if right {
            free[index].size as int
        } else {
            0
        })) as u64,
    };
    if left {
        assert(free[index - 1].within(region));
    }
    if right {
        assert(free[index].within(region));
    }
    assert(spec_release(free, index, block) == free.take(p).push(merged) + free.skip(q));
    assert forall|i: int| 0 <= i < rest.len() implies (#[trigger] rest[i]).disjoint(merged) by {
        if left {
            assert(rest[i].disjoint(free[index - 1]));
        }
        if right {
            assert(rest[i].disjoint(free[index]));
        }
    }
    assert forall|j: int| 0 <= j < p implies (#[trigger] free[j]).end() < merged.start by {
        if left {
            assert(free[j].end() < free[index - 1].start);
        } else if index > 0 {
            if j < index - 1 {
                assert(free[j].end() < free[index - 1].start);
            }
        }
    }
    assert forall|j: int| q <= j < free.len() implies merged.end() < (#[trigger] free[j]).start by {
        if right {
            assert(free[index].end() < free[j].start);
        } else if index < free.len() {
            if j > index {
                assert(free[index].end() < free[j].start);
            }
        }
    }
    lemma_list_with_block(free, rest, region, p, q, merged);
    lemma_total_take_skip(free, index);
    if left {
        lemma_total_take_skip(free, index - 1);
        lemma_total_take_skip(free.take(index), index - 1);
        assert(free.take(index).take(index - 1) == free.take(index - 1));
        assert(free.take(index).skip(index - 1) == seq![free[index - 1]]);
        lemma_total_one(free[index - 1]);
    }
    lemma_total_split(live, k);
    assert(rest == live.take(k) + live.skip(k + 1));
    lemma_total_concat(live.take(k), live.skip(k + 1));
}

/// Coalescing: once every allocation has been given back, the free list is
/// the whole region as one block.
pub proof fn lemma_all_free(free: Seq<Block>, region: Block)
    requires
        free_list_wf(free, region),
        spec_total(free) == region.size,
        region.size > 0,
    ensures
        free == seq![region],
{
    lemma_span(free, region);
    if free.len() == 0 {
        assert(spec_total(free) == 0);
    } else {
        assert(free.len() == 1);
        assert(free[0].within(region));
        assert(free.drop_last() == Seq::<Block>::empty());
        assert(spec_total(free.drop_last()) == 0);
        assert(free.last() == free[0]);
        assert(free[0].size == region.size);
        assert(free[0] == region);
        assert(free == seq![region]);
    }
}

/// The blocks of a free list and the gaps between them fit between the start
/// of the first and the end of the last.
pub proof fn lemma_span(free: Seq<Block>, region: Block)
    requires
        free_list_wf(free, region),
    ensures
        free.len() > 0 ==> spec_total(free) + free.len() - 1 <= free.last().end() - free[0].start,
        free.len() > 0 ==> free.last().end() - free[0].start <= region.size,
    decreases free.len(),
{
    if free.len() > 0 {
        assert(free[0].within(region));
        assert(free.last().within(region));
        let front = free.drop_last();
        if front.len() > 0 {
            assert forall|i: int| 0 <= i < front.len() implies (#[trigger] front[i]).size > 0
                && front[i].within(region) by {
                assert(front[i] == free[i]);
            }
            assert forall|i: int, j: int| 0 <= i < j < front.len() implies (
            #[trigger] front[i]).end() < (#[trigger] front[j]).start by {
                assert(front[i] == free[i]);
                assert(front[j] == free[j]);
            }
            lemma_span(front, region);
            assert(front.last() == free[free.len() - 2]);
            assert(front[0] == free[0]);
            assert(free[free.len() - 2].end() < free[free.len() - 1].start);
        } else {
            assert(spec_total(front) == 0);
        }
    }
}

/// The allocator of the kernel heap.
pub struct Heap {
    region: Block,
    free: Vec<Block>,
    live: Ghost<Seq<Block>>,
}

impl Heap {
    /// The range of virtual memory that the heap manages.
    pub closed spec fn region(&self) -> Block {
        self.region
    }

    /// The free blocks, in ascending address order.
    pub closed spec fn free(&self) -> Seq<Block> {
        self.free@
    }

    /// The allocations that were handed out and not given back, oldest first.
    pub closed spec fn live(&self) -> Seq<Block> {
        self.live@
    }

    /// The free blocks and the live allocations partition the region: they
    /// lie in it, share no byte, and their sizes add up to its size.
    pub open spec fn wf(&self) -> bool {
        &&& self.region().end() <= u64::MAX
        &&& free_list_wf(self.free(), self.region())
        &&& live_wf(self.live(), self.free(), self.region())
        &&& spec_total(self.free()) + spec_total(self.live()) == self.region().size
    }

    /// Heap partition: the sizes of the live allocations and of the free
    /// blocks add up to the size of the heap. No byte is set aside as padding.
    pub proof fn lemma_partition(&self)
        requires
            self.wf(),
        ensures
            spec_total(self.live()) + spec_total(self.free()) == self.region().size,
    {
    }

    /// Allocator correctness: every live allocation lies in the heap, and no
    /// two of them share a byte.
    pub proof fn lemma_live_apart(&self)
        requires
            self.wf(),
        ensures
            forall|i: int|
                0 <= i < self.live().len() ==> (#[trigger] self.live()[i]).within(self.region()),
            forall|i: int, j: int|
                0 <= i < self.live().len() && 0 <= j < self.live().len() && i != j ==> (
                #[trigger] self.live()[i]).disjoint(#[trigger] self.live()[j]),
    {
        assert forall|i: int, j: int|
            0 <= i < self.live().len() && 0 <= j < self.live().len() && i != j implies (
        #[trigger] self.live()[i]).disjoint(#[trigger] self.live()[j]) by {
            if i < j {
                assert(self.live()[i].disjoint(self.live()[j]));
            } else {
                assert(self.live()[j].disjoint(self.live()[i]));
            }
        }
    }

    /// Coalescing: a heap in which no allocation is live has one free block,
    /// the whole region.
    pub proof fn lemma_idle_heap_is_one_block(&self)
        requires
            self.wf(),
            self.live().len() == 0,
            self.region().size > 0,
        ensures
            self.free() == seq![self.region()],
    {
        assert(spec_total(self.live()) == 0);
        lemma_all_free(self.free(), self.region());
    }

    /// A heap over the `heap_size` bytes from `heap_start`, all of them free.
    pub fn new(heap_start: u64, heap_size: u64) -> (heap: Heap)
        requires
            heap_start + heap_size <= u64::MAX,
        ensures
            heap.wf(),
            heap.region() == (Block { start: heap_start, size: heap_size }),
            heap.live() == Seq::<Block>::empty(),
            heap.free() == if heap_size > 0 {
                seq![Block { start: heap_start, size: heap_size }]
            } else {
                Seq::<Block>::empty()
            },
    {
        let region = Block { start: heap_start, size: heap_size };
        let mut free: Vec<Block> = Vec::new();
        if heap_size > 0 {
            free.push(region);
        }
        proof {
            lemma_total_one(region);
            assert(free@ == if heap_size > 0 {
                seq![region]
            } else {
                Seq::<Block>::empty()
            });
        }
        Heap { region, free, live: Ghost(Seq::empty()) }
    }

    /// The free blocks, in ascending address order.
    pub fn free_blocks(&self) -> (blocks: &Vec<Block>)
        ensures
            blocks@ == self.free(),
    {
        &self.free
    }

    /// Hands out `size` bytes that start on a multiple of `align`, from the
    /// first free block that can hold them, or `None` where the request is
    /// empty, `align` is no power of two, or no free block fits.
    #[verifier::rlimit(50)]
    pub fn allocate(&mut self, size: u64, align: u64) -> (r: Option<u64>)
        requires
            old(self).wf(),
        ensures
            final(self).wf(),
            final(self).region() == old(self).region(),
            r is Some <==> spec_valid_request(size, align) && exists|i: int|
                0 <= i < old(self).free().len() && spec_fits(
                    #[trigger] old(self).free()[i],
                    size,
                    align,
                ),
            match r {
                Some(addr) => exists|i: int|
                    {
                        &&& #[trigger] spec_first_fit(old(self).free(), i, size, align)
                        &&& addr == old(self).free()[i].start + spec_padding(
                            old(self).free()[i].start,
                            align,
                        )
                        &&& final(self).free() == spec_carve(old(self).free(), i, size, align)
                        &&& final(self).live() == old(self).live().push(
                            Block { start: addr, size },
                        )
                    },
                None => final(self).free() == old(self).free() && final(self).live() == old(
                    self,
                ).live(),
            },
            r matches Some(addr) ==> {
                &&& addr % align == 0
                &&& (Block { start: addr, size }).within(old(self).region())
                &&& forall|k: int|
                    0 <= k < old(self).live().len() ==> (#[trigger] old(self).live()[k]).disjoint(
                        Block { start: addr, size },
                    )
                &&& forall|a: int|
                    addr <= a < addr + size ==> #[trigger] spec_covers(old(self).free(), a)
                &&& forall|a: int|
                    #[trigger] spec_covers(final(self).free(), a) <==> spec_covers(
                        old(self).free(),
                        a,
                    ) && !(addr <= a < addr + size)
            },
    {
        if size == 0 || align == 0 || align & (align - 1) != 0 {
            return None;
        }
        let mut i: usize = 0;
        while i < self.free.len()
            invariant
                i <= self.free.len(),
                *self == *old(self),
                self.wf(),
                size > 0,
                align > 0,
                spec_valid_request(size, align),
                forall|j: int| 0 <= j < i ==> !spec_fits(#[trigger] self.free()[j], size, align),
            decreases self.free.len() - i,
        {
            let block = self.free[i];
            let rem = block.start % align;
            let padding = if rem == 0 {
                0
            } else {
                align - rem
            };
            if padding <= block.size && size <= block.size - padding {
                proof {
                    lemma_carve(self.free(), self.live(), self.region(), i as int, size, align);
                    assert(spec_first_fit(self.free(), i as int, size, align));
                    assert(spec_fits(old(self).free()[i as int], size, align));
                    let free = self.free();
                    let start = block.start + padding;
                    assert forall|a: int| start <= a < start + size implies #[trigger] spec_covers(
                        free,
                        a,
                    ) by {
                        assert(free[i as int].start <= a < free[i as int].end());
                    }
                    assert forall|a: int| #[trigger]
                        spec_covers(spec_carve(free, i as int, size, align), a) <==> spec_covers(
                            free,
                            a,
                        ) && !(start <= a < start + size) by {
                        lemma_carve_covers(free, self.region(), i as int, size, align, a);
                    }
                }
                let addr = block.start + padding;
                let rest = block.size - padding - size;
                let ghost carved = spec_carve(self.free(), i as int, size, align);
                if padding > 0 {
                    self.free.set(i, Block { start: block.start, size: padding });
                    if rest > 0 {
                        self.free.insert(i + 1, Block { start: addr + size, size: rest });
                    }
                } else if rest > 0 {
                    self.free.set(i, Block { start: addr + size, size: rest });
                } else {
                    self.free.remove(i);
                }
                assert(self.free@ =~= carved);
                self.live = Ghost(self.live@.push(Block { start: addr, size }));
                return Some(addr);
            }
            i += 1;
        }
        None
    }

    /// Takes back the `size` bytes at `addr`, which must be a live allocation,
    /// and merges them with the free blocks that they touch. `align` is the
    /// alignment the bytes were asked for with; it plays no part.
    #[verifier::rlimit(50)]
    pub fn deallocate(&mut self, addr: u64, size: u64, align: u64)
        requires
            old(self).wf(),
            old(self).live().contains(Block { start: addr, size }),
        ensures
            final(self).wf(),
            final(self).region() == old(self).region(),
            exists|k: int|
                {
                    &&& 0 <= k < old(self).live().len()
                    &&& #[trigger] old(self).live()[k] == (Block { start: addr, size })
                    &&& final(self).live() == old(self).live().remove(k)
                },
            exists|i: int|
                {
                    &&& #[trigger] spec_position(old(self).free(), i, Block { start: addr, size })
                    &&& final(self).free() == spec_release(
                        old(self).free(),
                        i,
                        Block { start: addr, size },
                    )
                },
            forall|a: int|
                #[trigger] spec_covers(final(self).free(), a) <==> spec_covers(old(self).free(), a)
                    || (addr <= a < addr + size),
    {
        let block = Block { start: addr, size };
        let ghost k = choose|k: int| 0 <= k < self.live().len() && self.live()[k] == block;
        let mut i: usize = 0;
        while i < self.free.len() && self.free[i].start < addr
            invariant
                i <= self.free.len(),
                *self == *old(self),
                self.wf(),
                forall|j: int| 0 <= j < i ==> (#[trigger] self.free()[j]).start < addr,
            decreases self.free.len() - i,
        {
            i += 1;
        }
        proof {
            assert(self.live()[k].size > 0 && self.live()[k].within(self.region()));
            assert forall|j: int| i <= j < self.free().len() implies (
            #[trigger] self.free()[j]).start > addr by {
                assert(self.live()[k].disjoint(self.free()[j]));
                assert(self.free()[j].size > 0);
                if j > i {
                    assert(self.free()[i as int].end() < self.free()[j].start);
                }
            }
            assert(spec_position(self.free(), i as int, block));
            lemma_release(self.free(), self.live(), self.region(), i as int, k);
            let free = self.free();
            assert forall|j: int| 0 <= j < free.len() implies (#[trigger] free[j]).disjoint(
                block,
            ) by {
                assert(self.live()[k].disjoint(free[j]));
            }
            assert forall|a: int| #[trigger]
                spec_covers(spec_release(free, i as int, block), a) <==> spec_covers(free, a) || (
                addr <= a < addr + size) by {
                lemma_release_covers(free, self.region(), i as int, block, a);
            }
            if i > 0 {
                assert(self.free()[i - 1].within(self.region()));
            }
            if i < self.free().len() {
                assert(self.free()[i as int].within(self.region()));
            }
        }
        let ghost released = spec_release(self.free(), i as int, block);
        let left = i > 0 && self.free[i - 1].start + self.free[i - 1].size == addr;
        let right = i < self.free.len() && addr + size == self.free[i].start;
        if left && right {
            let merged = Block {
                start: self.free[i - 1].start,
                size: self.free[i - 1].size + size + self.free[i].size,
            };
            self.free.set(i - 1, merged);
            self.free.remove(i);
        } else if left {
            let merged = Block { start: self.free[i - 1].start, size: self.free[i - 1].size + size };
            self.free.set(i - 1, merged);
        } else if right {
            let merged = Block { start: addr, size: size + self.free[i].size };
            self.free.set(i, merged);
        } else {
            self.free.insert(i, block);
        }
        assert(self.free@ =~= released);
        self.live = Ghost(self.live@.remove(k));
    }
}

} // verus!
