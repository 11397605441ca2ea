//! The boot-time map of physical memory, and the frames in its usable regions.

use bootloader::bootinfo::MemoryMap;
use vstd::prelude::*;

verus! {

/// A frame number at or above this one has no valid physical address.
pub const FRAME_NUMBER_LIMIT: u64 = 0x100_0000_0000;

/// One region of the memory map: the frames from `start_frame_number` up to,
/// not including, `end_frame_number`, and whether they are free for use.
#[derive(Clone, Copy, Debug, PartialEq, Eq, Structural)]
pub struct Region {
    pub start_frame_number: u64,
    pub end_frame_number: u64,
    pub usable: bool,
}

/// `bootloader::bootinfo::MemoryMap`: the regions of physical memory that the
/// bootloader found. Its contents are known only through
/// [`memory_map_regions`].
#[verifier::external_type_specification]
#[verifier::external_body]
pub struct ExMemoryMap(MemoryMap);

/// `bootloader::bootinfo::MemoryRegion`: the type of the entries that a
/// `MemoryMap` dereferences to. Nothing is read from a value of it here.
#[verifier::external_type_specification]
#[verifier::external_body]
pub struct ExMemoryMapEntry(bootloader::bootinfo::MemoryRegion);

/// The regions of a memory map, in the order in which the map holds them.
pub uninterp spec fn memory_map_regions(map: MemoryMap) -> Seq<Region>;

/// The length of the slice that a `bootloader::bootinfo::MemoryMap`
/// dereferences to: the number of its regions, which its array of 64 bounds.
#[verifier::external_body]
pub(crate) fn memory_map_len(map: &MemoryMap) -> (n: usize)
    ensures
        n == memory_map_regions(*map).len() && n <= 64,
{
    map.len()
}

/// The region at `index` of the slice that a
/// `bootloader::bootinfo::MemoryMap` dereferences to: its two frame numbers,
/// and whether its type equals `MemoryRegionType::Usable`.
#[verifier::external_body]
pub(crate) fn memory_map_region(map: &MemoryMap, index: usize) -> (region: Region)
    requires
        index < memory_map_regions(*map).len(),
    ensures
        region == memory_map_regions(*map)[index as int],
{
    let region = &map[index];
    Region {
        start_frame_number: region.range.start_frame_number,
        end_frame_number: region.range.end_frame_number,
        usable: region.region_type == bootloader::bootinfo::MemoryRegionType::Usable,
    }
}

/// Number of frames that a region contributes: all of its frames where it is
/// usable, none otherwise.
pub open spec fn region_frame_count(region: Region) -> nat {
    if region.usable && region.start_frame_number < region.end_frame_number {
        (region.end_frame_number - region.start_frame_number) as nat
    } else {
        0
    }
}

/// Start addresses of the frames that a region contributes, ascending.
pub open spec fn region_frames(region: Region) -> Seq<u64> {
    Seq::new(
        region_frame_count(region),
        |k: int| ((region.start_frame_number + k) * 4096) as u64,
    )
}

/// Start addresses of the frames in the usable regions, region by region in
/// the order of the map, and ascending within each region.
pub open spec fn usable_frames(regions: Seq<Region>) -> Seq<u64>
    decreases regions.len(),
{
    if regions.len() == 0 {
        Seq::empty()
    } else {
        usable_frames(regions.drop_last()) + region_frames(regions.last())
    }
}

/// Every frame of a usable region has a valid physical address.
pub open spec fn regions_valid(regions: Seq<Region>) -> bool {
    forall|i: int|
        0 <= i < regions.len() && (#[trigger] regions[i]).usable ==> regions[i].end_frame_number
            <= FRAME_NUMBER_LIMIT
}

/// No region ends before it starts, and each region ends where or before the
/// next one starts.
pub open spec fn regions_ordered(regions: Seq<Region>) -> bool {
    &&& forall|i: int|
        0 <= i < regions.len() ==> (#[trigger] regions[i]).start_frame_number
            <= regions[i].end_frame_number
    &&& forall|i: int, j: int|
        0 <= i < j < regions.len() ==> (#[trigger] regions[i]).end_frame_number <= (
        #[trigger] regions[j]).start_frame_number
}

/// Whether the frame that starts at `frame` lies in `region`.
pub open spec fn region_contains(region: Region, frame: u64) -> bool {
    region.start_frame_number * 4096 <= frame < region.end_frame_number * 4096
}

/// The usable frames of a prefix of the map come first among those of the map.
pub proof fn lemma_usable_frames_prefix(regions: Seq<Region>, n: int)
    requires
        0 <= n <= regions.len(),
    ensures
        usable_frames(regions.take(n)).len() <= usable_frames(regions).len(),
        usable_frames(regions.take(n)) == usable_frames(regions).take(
            usable_frames(regions.take(n)).len() as int,
        ),
    decreases regions.len() - n,
{
    if n == regions.len() {
        assert(regions.take(n) == regions);
    } else {
        lemma_usable_frames_prefix(regions, n + 1);
        assert(regions.take(n + 1).drop_last() == regions.take(n));
        let longer = usable_frames(regions.take(n + 1));
        let shorter = usable_frames(regions.take(n));
        assert(longer == shorter + region_frames(regions[n]));
        assert(shorter == longer.take(shorter.len() as int));
        assert(shorter == usable_frames(regions).take(shorter.len() as int));
    }
}

/// The frames of one more region follow those of the regions before it.
pub proof fn lemma_usable_frames_step(regions: Seq<Region>, n: int)
    requires
        0 <= n < regions.len(),
    ensures
        usable_frames(regions.take(n + 1)) == usable_frames(regions.take(n)) + region_frames(
            regions[n],
        ),
{
    assert(regions.take(n + 1).drop_last() == regions.take(n));
}

/// A valid map of `n` regions has at most `n * 2^40` usable frames.
pub proof fn lemma_usable_frames_bound(regions: Seq<Region>)
    requires
        regions_valid(regions),
    ensures
        usable_frames(regions).len() <= regions.len() * FRAME_NUMBER_LIMIT,
    decreases regions.len(),
{
    if regions.len() > 0 {
        let front = regions.drop_last();
        assert forall|i: int| 0 <= i < front.len() && (#[trigger] front[i]).usable implies front[i].end_frame_number
            <= FRAME_NUMBER_LIMIT by {
            assert(front[i] == regions[i]);
        }
        lemma_usable_frames_bound(front);
        let last = regions.last();
        assert(last == regions[regions.len() - 1]);
        assert(region_frame_count(last) <= FRAME_NUMBER_LIMIT);
        assert(regions.len() * FRAME_NUMBER_LIMIT == front.len() * FRAME_NUMBER_LIMIT
            + FRAME_NUMBER_LIMIT) by (nonlinear_arith)
            requires
                regions.len() == front.len() + 1,
        ;
    }
}

/// Each usable frame lies in a usable region of the map, and starts on a
/// 4096-byte boundary. The result is the index of such a region.
pub proof fn lemma_usable_frame_region(regions: Seq<Region>, k: int) -> (i: int)
    requires
        regions_valid(regions),
        0 <= k < usable_frames(regions).len(),
    ensures
        0 <= i < regions.len(),
        regions[i].usable,
        region_contains(regions[i], usable_frames(regions)[k]),
        usable_frames(regions)[k] % 4096 == 0,
        usable_frames(regions)[k] < 0x10_0000_0000_0000,
    decreases regions.len(),
{
    let front = regions.drop_last();
    let last = regions.last();
    if k < usable_frames(front).len() {
        assert forall|j: int| 0 <= j < front.len() && (#[trigger] front[j]).usable implies front[j].end_frame_number
            <= FRAME_NUMBER_LIMIT by {
            assert(front[j] == regions[j]);
        }
        let i = lemma_usable_frame_region(front, k);
        assert(front[i] == regions[i]);
        i
    } else {
        let offset = k - usable_frames(front).len();
        assert(usable_frames(regions)[k] == region_frames(last)[offset]);
        assert(last == regions[regions.len() - 1]);
        assert(last.end_frame_number <= FRAME_NUMBER_LIMIT);
        regions.len() - 1
    }
}

/// Frame uniqueness: where the regions of the map are in ascending order and
/// do not overlap, the usable frames are strictly ascending, so no frame is
/// handed out twice.
#[verifier::rlimit(50)]
pub proof fn lemma_usable_frames_increasing(regions: Seq<Region>)
    requires
        regions_valid(regions),
        regions_ordered(regions),
    ensures
        forall|i: int, j: int|
            0 <= i < j < usable_frames(regions).len() ==> usable_frames(regions)[i]
                < usable_frames(regions)[j],
    decreases regions.len(),
{
    if regions.len() > 0 {
        let front = regions.drop_last();
        let last = regions.last();
        assert(last == regions[regions.len() - 1]);
        assert forall|j: int| 0 <= j < front.len() && (#[trigger] front[j]).usable implies front[j].end_frame_number
            <= FRAME_NUMBER_LIMIT by {
            assert(front[j] == regions[j]);
        }
        assert(regions_ordered(front)) by {
            assert forall|i: int| 0 <= i < front.len() implies (#[trigger] front[i]).start_frame_number
                <= front[i].end_frame_number by {
                assert(front[i] == regions[i]);
            }
            assert forall|i: int, j: int| 0 <= i < j < front.len() implies (#[trigger] front[i]).end_frame_number
                <= (#[trigger] front[j]).start_frame_number by {
                assert(front[i] == regions[i]);
                assert(front[j] == regions[j]);
            }
        }
        lemma_usable_frames_increasing(front);
        let frames = usable_frames(regions);
        let n = usable_frames(front).len() as int;
        assert forall|i: int, j: int| 0 <= i < j < frames.len() implies frames[i] < frames[j] by {
            if j < n {
                assert(frames[i] == usable_frames(front)[i]);
                assert(frames[j] == usable_frames(front)[j]);
            } else {
                assert(frames[j] == region_frames(last)[j - n]);
                assert(last.end_frame_number <= FRAME_NUMBER_LIMIT);
                if i < n {
                    let r = lemma_usable_frame_region(front, i);
                    assert(front[r] == regions[r]);
                    assert(regions[r].end_frame_number <= last.start_frame_number);
                    assert(frames[i] == usable_frames(front)[i]);
                } else {
                    assert(frames[i] == region_frames(last)[i - n]);
                }
            }
        }
    }
}

/// Usable-only: where the regions of the map are in ascending order and do not
/// overlap, no usable frame lies in a region that is not marked usable.
pub proof fn lemma_usable_frame_not_reserved(regions: Seq<Region>, k: int, j: int)
    requires
        regions_valid(regions),
        regions_ordered(regions),
        0 <= k < usable_frames(regions).len(),
        0 <= j < regions.len(),
        !regions[j].usable,
    ensures
        !region_contains(regions[j], usable_frames(regions)[k]),
{
    let i = lemma_usable_frame_region(regions, k);
    if i < j {
        assert(regions[i].end_frame_number <= regions[j].start_frame_number);
    } else {
        assert(regions[j].end_frame_number <= regions[i].start_frame_number);
    }
}

/// Whether every frame of a usable region of the map has a valid physical
/// address.
pub fn memory_map_is_valid(map: &MemoryMap) -> (valid: bool)
    ensures
        valid == regions_valid(memory_map_regions(*map)),
{
    let n = memory_map_len(map);
    let mut i: usize = 0;
    while i < n
        invariant
            i <= n,
            n == memory_map_regions(*map).len(),
            regions_valid(memory_map_regions(*map).take(i as int)),
        decreases n - i,
    {
        let region = memory_map_region(map, i);
        if region.usable && region.end_frame_number > FRAME_NUMBER_LIMIT {
            return false;
        }
        proof {
            let regions = memory_map_regions(*map);
            assert forall|k: int|
                0 <= k < regions.take(i + 1).len() && (#[trigger] regions.take(
                    i + 1,
                )[k]).usable implies regions.take(i + 1)[k].end_frame_number
                <= FRAME_NUMBER_LIMIT by {
                if k < i {
                    assert(regions.take(i as int)[k] == regions[k]);
                }
            }
        }
        i += 1;
    }
    assert(memory_map_regions(*map).take(n as int) == memory_map_regions(*map));
    true
}

} // verus!
