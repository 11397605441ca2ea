//! Installing new mappings in the page-table hierarchy.

use crate::addr::{
    spec_align_down, spec_p1_index, spec_p2_index, spec_p3_index, spec_p4_index,
    spec_page_offset, Page, PhysFrame, VirtAddr,
};
use crate::hierarchy::{hierarchy_is_tree, lemma_map_isolated, spec_same_path};
use crate::memory::{
    spec_leaf_entry, spec_next_table, spec_translate, spec_walk, FrameAllocator,
    OffsetPageTable,
};
use crate::page_table::{
    empty_entries, entry_addr, entry_is_present, lemma_entry_addr_is_frame, lemma_make_entry,
    lemma_zero_entry, spec_entry, spec_make_entry, spec_table, tables_wf, FrameError,
    PageTableFlags, HUGE_PAGE, PRESENT,
};
use vstd::prelude::*;

verus! {

/// The flags with which a new table is entered in its parent: present and
/// writable.
pub const PARENT_TABLE_FLAGS: u64 = 3;

/// Why a page could not be mapped.
#[derive(Clone, Copy, Debug, PartialEq, Eq, Structural)]
pub enum MapError {
    /// A table had to be added and the frame allocator had no frame left.
    FrameExhausted,
    /// The page already has a present level 1 entry.
    AlreadyMapped,
    /// An entry above level 1 on the way to the page maps a huge page.
    UnsupportedHugePage,
}

/// A mapping that was installed and whose page may still have a stale
/// translation in the processor's cache.
#[derive(Debug)]
#[must_use]
pub struct Mapping {
    pub page: Page,
}

impl Mapping {
    /// The page whose cached translation must now be invalidated.
    pub fn flush(self) -> (page: Page)
        ensures
            page == self.page,
    {
        self.page
    }

    /// Gives up the mapping without asking for an invalidation: for a page
    /// that is known not to be cached.
    pub fn ignore(self) {
    }
}

/// The tables held in memory together with the frames that the allocator has
/// still to hand out.
pub ghost struct MapState {
    pub tables: Map<u64, Seq<u64>>,
    pub frames: Seq<u64>,
}

/// The tables after `entry` was written at `index` of the table in `table`.
pub open spec fn spec_write_entry(tables: Map<u64, Seq<u64>>, table: u64, index: int, entry: u64) -> Map<
    u64,
    Seq<u64>,
> {
    tables.insert(table, spec_table(tables, table).update(index, entry))
}

/// One step down the hierarchy on the way to a new mapping: the table that the
/// entry at `index` of `table` names. Where the entry is not present, the next
/// unused frame becomes an empty table and is entered there, present and
/// writable.
pub open spec fn spec_create_next_table(s: MapState, table: u64, index: int) -> (MapState, Result<
    u64,
    MapError,
>) {
    match spec_next_table(s.tables, table, index) {
        Ok(next) => (s, Ok(next)),
        Err(FrameError::HugeFrame) => (s, Err(MapError::UnsupportedHugePage)),
        Err(FrameError::FrameNotPresent) => if s.frames.len() == 0 {
            (s, Err(MapError::FrameExhausted))
        } else {
            let frame = s.frames[0];
            let zeroed = s.tables.insert(frame, empty_entries());
            (
                MapState {
                    tables: spec_write_entry(
                        zeroed,
                        table,
                        index,
                        spec_make_entry(frame, PARENT_TABLE_FLAGS),
                    ),
                    frames: s.frames.skip(1),
                },
                Ok(frame),
            )
        },
    }
}

/// Mapping the page at `page` to `frame` with `flags`, from the level 4 table
/// in frame `root`: three steps down, adding the tables that are missing, then
/// the level 1 entry, unless it is present already.
pub open spec fn spec_map_to(s: MapState, root: u64, page: u64, frame: u64, flags: u64) -> (
    MapState,
    Result<(), MapError>,
) {
    let (s1, r1) = spec_create_next_table(s, root, spec_p4_index(page));
    match r1 {
        Err(e) => (s1, Err(e)),
        Ok(p3) => {
            let (s2, r2) = spec_create_next_table(s1, p3, spec_p3_index(page));
            match r2 {
                Err(e) => (s2, Err(e)),
                Ok(p2) => {
                    let (s3, r3) = spec_create_next_table(s2, p2, spec_p2_index(page));
                    match r3 {
                        Err(e) => (s3, Err(e)),
                        Ok(p1) => if entry_is_present(
                            spec_entry(s3.tables, p1, spec_p1_index(page)),
                        ) {
                            (s3, Err(MapError::AlreadyMapped))
                        } else {
                            (
                                MapState {
                                    tables: spec_write_entry(
                                        s3.tables,
                                        p1,
                                        spec_p1_index(page),
                                        spec_make_entry(frame, flags),
                                    ),
                                    frames: s3.frames,
                                },
                                Ok(()),
                            )
                        },
                    }
                },
            }
        },
    }
}

/// Every entry that is present in `before` holds the same bits in `after`.
pub open spec fn tables_extend(before: Map<u64, Seq<u64>>, after: Map<u64, Seq<u64>>) -> bool {
    forall|t: u64, i: int|
        0 <= i < 512 && entry_is_present(#[trigger] spec_entry(before, t, i)) ==> spec_entry(
            after,
            t,
            i,
        ) == spec_entry(before, t, i)
}

/// No table is held for `frame`, and no present entry of a held table names it.
pub open spec fn frame_unused(tables: Map<u64, Seq<u64>>, frame: u64) -> bool {
    &&& !tables.contains_key(frame)
    &&& forall|t: u64, i: int|
        0 <= i < 512 && tables.contains_key(t) && entry_is_present(#[trigger] tables[t][i])
            ==> entry_addr(tables[t][i]) != frame
}

/// The frames still to be handed out are frames, differ from each other, and
/// are unused by the tables.
pub open spec fn frames_fresh(s: MapState) -> bool {
    &&& s.frames.no_duplicates()
    &&& forall|k: int|
        0 <= k < s.frames.len() ==> {
            &&& (#[trigger] s.frames[k]) % 4096 == 0
            &&& s.frames[k] < 0x10_0000_0000_0000
            &&& frame_unused(s.tables, s.frames[k])
        }
}

/// For a hierarchy that holds nothing but an empty level 4 table, frames are
/// fresh as soon as they are frames, differ from each other, and are not the
/// frame of that table.
pub proof fn lemma_frames_fresh_at_start(root: u64, frames: Seq<u64>)
    requires
        frames.no_duplicates(),
        !frames.contains(root),
        forall|k: int|
            0 <= k < frames.len() ==> (#[trigger] frames[k]) % 4096 == 0 && frames[k]
                < 0x10_0000_0000_0000,
    ensures
        frames_fresh(
            MapState {
                tables: Map::<u64, Seq<u64>>::empty().insert(root, empty_entries()),
                frames,
            },
        ),
{
    lemma_zero_entry();
    let tables = Map::<u64, Seq<u64>>::empty().insert(root, empty_entries());
    assert forall|k: int| 0 <= k < frames.len() implies frame_unused(tables, #[trigger] frames[k]) by {
        assert(frames.contains(frames[k]));
        assert forall|t: u64, i: int|
            0 <= i < 512 && tables.contains_key(t) && entry_is_present(
                #[trigger] tables[t][i],
            ) implies entry_addr(tables[t][i]) != frames[k] by {
            assert(tables[t][i] == 0);
        }
    }
}

/// Fresh frames stay fresh when the first `n` of them are taken away, and none
/// of those taken is among the rest.
pub proof fn lemma_frames_fresh_skip(s: MapState, n: int)
    requires
        frames_fresh(s),
        0 <= n <= s.frames.len(),
    ensures
        frames_fresh(MapState { tables: s.tables, frames: s.frames.skip(n) }),
        forall|f: u64| s.frames.skip(n).contains(f) ==> s.frames.contains(f),
        forall|k: int| 0 <= k < n ==> !s.frames.skip(n).contains(#[trigger] s.frames[k]),
{
    let rest = s.frames.skip(n);
    assert forall|f: u64| rest.contains(f) implies s.frames.contains(f) by {
        let k = choose|k: int| 0 <= k < rest.len() && rest[k] == f;
        assert(s.frames[k + n] == f);
    }
    assert forall|k: int| 0 <= k < n implies !rest.contains(#[trigger] s.frames[k]) by {
        if rest.contains(s.frames[k]) {
            let j = choose|j: int| 0 <= j < rest.len() && rest[j] == s.frames[k];
            assert(s.frames[j + n] == s.frames[k]);
        }
    }
    assert forall|a: int, b: int|
        0 <= a < rest.len() && 0 <= b < rest.len() && a != b implies rest[a] != rest[b] by {
        assert(rest[a] == s.frames[a + n]);
        assert(rest[b] == s.frames[b + n]);
    }
    assert forall|k: int| 0 <= k < rest.len() implies {
        &&& (#[trigger] rest[k]) % 4096 == 0
        &&& rest[k] < 0x10_0000_0000_0000
        &&& frame_unused(s.tables, rest[k])
    } by {
        assert(rest[k] == s.frames[k + n]);
    }
}

/// What one step down the hierarchy leaves behind. The tables stay
/// well-formed and the frames fresh; no present entry changes; the entry that
/// was followed names the table that the step yields, which is not among the
/// frames left; a table that was made is empty.
#[verifier::rlimit(50)]
pub proof fn lemma_create_next_table(s: MapState, table: u64, index: int)
    requires
        tables_wf(s.tables),
        frames_fresh(s),
        0 <= index < 512,
        !s.frames.contains(table),
    ensures
        ({
            let (after, r) = spec_create_next_table(s, table, index);
            &&& tables_wf(after.tables)
            &&& frames_fresh(after)
            &&& tables_extend(s.tables, after.tables)
            &&& forall|t: u64, i: int|
                0 <= i < 512 && !(t == table && i == index) ==> #[trigger] spec_entry(
                    after.tables,
                    t,
                    i,
                ) == spec_entry(s.tables, t, i)
            &&& forall|t: u64| s.tables.contains_key(t) ==> after.tables.contains_key(t)
            &&& forall|f: u64| after.frames.contains(f) ==> s.frames.contains(f)
            &&& r matches Ok(next) ==> {
                &&& spec_next_table(after.tables, table, index) == Ok::<u64, FrameError>(next)
                &&& after.tables.contains_key(table)
                &&& !after.frames.contains(next)
                &&& next % 4096 == 0
                &&& next < 0x10_0000_0000_0000
            }
            &&& r is Ok && spec_next_table(s.tables, table, index) is Err ==> {
                &&& s.frames.len() > 0
                &&& r == Ok::<u64, MapError>(s.frames[0])
                &&& after.frames == s.frames.skip(1)
                &&& spec_table(after.tables, s.frames[0]) == empty_entries()
            }
            &&& spec_next_table(s.tables, table, index) is Ok ==> after == s && r == Ok::<
                u64,
                MapError,
            >(spec_next_table(s.tables, table, index)->Ok_0)
            &&& r is Err ==> after == s
        }),
{
    let (after, r) = spec_create_next_table(s, table, index);
    let old_entry = spec_entry(s.tables, table, index);
    lemma_zero_entry();
    lemma_entry_addr_is_frame(old_entry);
    match spec_next_table(s.tables, table, index) {
        Ok(next) => {
            assert(entry_is_present(old_entry));
            assert(s.tables.contains_key(table));
            assert(old_entry == s.tables[table][index]);
            assert(!s.frames.contains(next)) by {
                if s.frames.contains(next) {
                    let k = choose|k: int| 0 <= k < s.frames.len() && s.frames[k] == next;
                    assert(frame_unused(s.tables, s.frames[k]));
                }
            }
        },
        Err(FrameError::HugeFrame) => {},
        Err(FrameError::FrameNotPresent) => {
            if s.frames.len() > 0 {
                let f = s.frames[0];
                assert(s.frames.contains(f));
                assert(f != table);
                assert(frame_unused(s.tables, f));
                let zeroed = s.tables.insert(f, empty_entries());
                let e = spec_make_entry(f, PARENT_TABLE_FLAGS);
                lemma_make_entry(f, PARENT_TABLE_FLAGS);
                assert(3u64 & 1 == 1) by (bit_vector);
                assert(3u64 & 0x80 != 0x80) by (bit_vector);
                assert(spec_table(zeroed, table) == spec_table(s.tables, table));
                let row = spec_table(s.tables, table).update(index, e);
                assert(after.tables == zeroed.insert(table, row));
                assert(row.len() == 512);
                assert(row[index] == e);
                assert(spec_entry(after.tables, table, index) == e);
                assert(tables_wf(after.tables));
                assert(spec_table(after.tables, f) == empty_entries());
                assert forall|t: u64, i: int|
                    0 <= i < 512 && entry_is_present(
                        #[trigger] spec_entry(s.tables, t, i),
                    ) implies spec_entry(after.tables, t, i) == spec_entry(s.tables, t, i) by {
                    if t == table {
                        assert(i != index);
                    } else if t == f {
                    } else {
                    }
                }
                assert forall|t: u64, i: int|
                    0 <= i < 512 && !(t == table && i == index) implies #[trigger] spec_entry(
                    after.tables,
                    t,
                    i,
                ) == spec_entry(s.tables, t, i) by {
                    if t == f {
                        assert(spec_entry(after.tables, t, i) == 0);
                    }
                }
                assert(after.frames == s.frames.skip(1));
                assert forall|g: u64| after.frames.contains(g) implies s.frames.contains(g) by {
                    let k = choose|k: int| 0 <= k < after.frames.len() && after.frames[k] == g;
                    assert(s.frames[k + 1] == g);
                }
                assert(!after.frames.contains(f)) by {
                    if after.frames.contains(f) {
                        let k = choose|k: int| 0 <= k < after.frames.len() && after.frames[k] == f;
                        assert(s.frames[k + 1] == f);
                    }
                }
                assert(after.frames.no_duplicates()) by {
                    assert forall|a: int, b: int|
                        0 <= a < after.frames.len() && 0 <= b < after.frames.len() && a
                            != b implies after.frames[a] != after.frames[b] by {
                        assert(after.frames[a] == s.frames[a + 1]);
                        assert(after.frames[b] == s.frames[b + 1]);
                    }
                }
                assert forall|k: int| 0 <= k < after.frames.len() implies {
                    &&& (#[trigger] after.frames[k]) % 4096 == 0
                    &&& after.frames[k] < 0x10_0000_0000_0000
                    &&& frame_unused(after.tables, after.frames[k])
                } by {
                    let g = after.frames[k];
                    assert(g == s.frames[k + 1]);
                    assert(frame_unused(s.tables, g));
                    assert(s.frames.contains(g));
                    assert(g != f);
                    assert(g != table);
                    assert forall|t: u64, i: int|
                        0 <= i < 512 && after.tables.contains_key(t) && entry_is_present(
                            #[trigger] after.tables[t][i],
                        ) implies entry_addr(after.tables[t][i]) != g by {
                        if t == table {
                            if i != index {
                                assert(after.tables[t][i] == spec_table(s.tables, table)[i]);
                                if s.tables.contains_key(table) {
                                    assert(after.tables[t][i] == s.tables[t][i]);
                                }
                            }
                        } else if t == f {
                            assert(after.tables[t][i] == 0);
                        } else {
                            assert(after.tables[t][i] == s.tables[t][i]);
                        }
                    }
                }
            }
        },
    }
}

/// How an attempt to map the page at `page` ends, read off the tables as they
/// are before it, with `available` frames left to hand out. A huge page above
/// level 1 on the way is refused; so is a level 1 entry that is present; where
/// the walk stops at a missing table, one frame is needed for each level below
/// it.
pub open spec fn spec_map_outcome(
    tables: Map<u64, Seq<u64>>,
    root: u64,
    page: u64,
    available: nat,
) -> Result<(), MapError> {
    match spec_next_table(tables, root, spec_p4_index(page)) {
        Err(FrameError::HugeFrame) => Err(MapError::UnsupportedHugePage),
        Err(FrameError::FrameNotPresent) => if available < 3 {
            Err(MapError::FrameExhausted)
        } else {
            Ok(())
        },
        Ok(p3) => match spec_next_table(tables, p3, spec_p3_index(page)) {
            Err(FrameError::HugeFrame) => Err(MapError::UnsupportedHugePage),
            Err(FrameError::FrameNotPresent) => if available < 2 {
                Err(MapError::FrameExhausted)
            } else {
                Ok(())
            },
            Ok(p2) => match spec_next_table(tables, p2, spec_p2_index(page)) {
                Err(FrameError::HugeFrame) => Err(MapError::UnsupportedHugePage),
                Err(FrameError::FrameNotPresent) => if available < 1 {
                    Err(MapError::FrameExhausted)
                } else {
                    Ok(())
                },
                Ok(p1) => if entry_is_present(spec_entry(tables, p1, spec_p1_index(page))) {
                    Err(MapError::AlreadyMapped)
                } else {
                    Ok(())
                },
            },
        },
    }
}

/// Number of tables that are missing on the way to the page at `page`: one for
/// each level below the first entry that is not present.
pub open spec fn spec_missing_tables(tables: Map<u64, Seq<u64>>, root: u64, page: u64) -> nat {
    match spec_next_table(tables, root, spec_p4_index(page)) {
        Err(FrameError::HugeFrame) => 0,
        Err(FrameError::FrameNotPresent) => 3,
        Ok(p3) => match spec_next_table(tables, p3, spec_p3_index(page)) {
            Err(FrameError::HugeFrame) => 0,
            Err(FrameError::FrameNotPresent) => 2,
            Ok(p2) => match spec_next_table(tables, p2, spec_p2_index(page)) {
                Err(FrameError::HugeFrame) => 0,
                Err(FrameError::FrameNotPresent) => 1,
                Ok(_) => 0,
            },
        },
    }
}

/// Keeping present entries is transitive.
pub proof fn lemma_tables_extend_trans(
    a: Map<u64, Seq<u64>>,
    b: Map<u64, Seq<u64>>,
    c: Map<u64, Seq<u64>>,
)
    requires
        tables_extend(a, b),
        tables_extend(b, c),
    ensures
        tables_extend(a, c),
{
    assert forall|t: u64, i: int|
        0 <= i < 512 && entry_is_present(#[trigger] spec_entry(a, t, i)) implies spec_entry(c, t, i)
        == spec_entry(a, t, i) by {
        assert(spec_entry(b, t, i) == spec_entry(a, t, i));
    }
}

/// Writing an entry that was not present keeps the present entries.
pub proof fn lemma_write_entry(tables: Map<u64, Seq<u64>>, table: u64, index: int, entry: u64)
    requires
        tables_wf(tables),
        0 <= index < 512,
        !entry_is_present(spec_entry(tables, table, index)),
    ensures
        tables_wf(spec_write_entry(tables, table, index, entry)),
        tables_extend(tables, spec_write_entry(tables, table, index, entry)),
        spec_entry(spec_write_entry(tables, table, index, entry), table, index) == entry,
        forall|t: u64, i: int|
            0 <= i < 512 && !(t == table && i == index) ==> #[trigger] spec_entry(
                spec_write_entry(tables, table, index, entry),
                t,
                i,
            ) == spec_entry(tables, t, i),
        forall|t: u64|
            tables.contains_key(t) ==> spec_write_entry(tables, table, index, entry).contains_key(t),
{
    let after = spec_write_entry(tables, table, index, entry);
    assert(spec_table(tables, table).len() == 512);
    assert forall|t: u64, i: int|
        0 <= i < 512 && entry_is_present(#[trigger] spec_entry(tables, t, i)) implies spec_entry(
        after,
        t,
        i,
    ) == spec_entry(tables, t, i) by {
        if t == table {
            assert(i != index);
        }
    }
}

/// A walk that does not stop at an entry that is not present reads present
/// entries only, so it ends the same way in tables that keep those.
pub proof fn lemma_walk_stable(
    before: Map<u64, Seq<u64>>,
    after: Map<u64, Seq<u64>>,
    root: u64,
    addr: u64,
)
    requires
        tables_extend(before, after),
        spec_walk(before, root, addr) != Err::<u64, FrameError>(FrameError::FrameNotPresent),
    ensures
        spec_leaf_entry(after, root, addr) == spec_leaf_entry(before, root, addr),
        spec_walk(after, root, addr) == spec_walk(before, root, addr),
{
    let i4 = spec_p4_index(addr);
    let i3 = spec_p3_index(addr);
    let i2 = spec_p2_index(addr);
    let i1 = spec_p1_index(addr);
    assert(entry_is_present(spec_entry(before, root, i4)));
    if let Ok(p3) = spec_next_table(before, root, i4) {
        assert(entry_is_present(spec_entry(before, p3, i3)));
        if let Ok(p2) = spec_next_table(before, p3, i3) {
            assert(entry_is_present(spec_entry(before, p2, i2)));
            if let Ok(p1) = spec_next_table(before, p2, i2) {
                assert(entry_is_present(spec_entry(before, p1, i1)));
            }
        }
    }
}

/// What an attempt to map a page leaves behind, where the frames still to be
/// handed out are fresh. It ends as the tables before it say. No present entry
/// changes. A refusal for a present entry or a huge page changes nothing. On
/// success the level 1 entry for the page holds the frame and the flags. The
/// frames left are the old ones without as many of the first as tables were
/// missing, and they stay fresh unless the mapped frame is one of them.
#[verifier::rlimit(50)]
pub proof fn lemma_map_to(s: MapState, root: u64, page: u64, frame: u64, flags: u64)
    requires
        tables_wf(s.tables),
        frames_fresh(s),
        s.tables.contains_key(root),
        frame % 4096 == 0,
        frame < 0x10_0000_0000_0000,
    ensures
        ({
            let (after, r) = spec_map_to(s, root, page, frame, flags);
            let missing = spec_missing_tables(s.tables, root, page);
            &&& r == spec_map_outcome(s.tables, root, page, s.frames.len())
            &&& tables_wf(after.tables)
            &&& after.tables.contains_key(root)
            &&& tables_extend(s.tables, after.tables)
            &&& forall|t: u64| s.tables.contains_key(t) ==> after.tables.contains_key(t)
            &&& after.frames == s.frames.skip(
                if missing <= s.frames.len() {
                    missing as int
                } else {
                    s.frames.len() as int
                },
            )
            &&& r is Ok ==> spec_leaf_entry(after.tables, root, page) == Ok::<u64, FrameError>(
                spec_make_entry(frame, flags),
            )
            &&& (r == Err::<(), MapError>(MapError::AlreadyMapped) || r == Err::<(), MapError>(
                MapError::UnsupportedHugePage,
            )) ==> after == s
            &&& !after.frames.contains(frame) ==> frames_fresh(after)
        }),
{
    let i4 = spec_p4_index(page);
    let i3 = spec_p3_index(page);
    let i2 = spec_p2_index(page);
    let i1 = spec_p1_index(page);
    lemma_zero_entry();
    assert(!s.frames.contains(root)) by {
        if s.frames.contains(root) {
            let k = choose|k: int| 0 <= k < s.frames.len() && s.frames[k] == root;
            assert(frame_unused(s.tables, s.frames[k]));
        }
    }
    assert(s.frames.skip(0) == s.frames);
    lemma_create_next_table(s, root, i4);
    let (s1, r1) = spec_create_next_table(s, root, i4);
    if let Ok(p3) = r1 {
        lemma_create_next_table(s1, p3, i3);
        let (s2, r2) = spec_create_next_table(s1, p3, i3);
        lemma_tables_extend_trans(s.tables, s1.tables, s2.tables);
        if s.frames.len() >= 2 {
            assert(s.frames.skip(1).skip(1) =~= s.frames.skip(2));
        }
        if let Ok(p2) = r2 {
            lemma_create_next_table(s2, p2, i2);
            let (s3, r3) = spec_create_next_table(s2, p2, i2);
            lemma_tables_extend_trans(s.tables, s2.tables, s3.tables);
            if s.frames.len() >= 3 {
                assert(s.frames.skip(2).skip(1) =~= s.frames.skip(3));
            }
            if let Ok(p1) = r3 {
                let leaf = spec_entry(s3.tables, p1, i1);
                assert(spec_next_table(s3.tables, root, i4) == Ok::<u64, FrameError>(p3));
                assert(spec_next_table(s3.tables, p3, i3) == Ok::<u64, FrameError>(p2));
                assert(spec_next_table(s3.tables, p2, i2) == Ok::<u64, FrameError>(p1));
                if !entry_is_present(leaf) {
                    let entry = spec_make_entry(frame, flags);
                    lemma_write_entry(s3.tables, p1, i1, entry);
                    lemma_make_entry(frame, flags);
                    let (after, r) = spec_map_to(s, root, page, frame, flags);
                    assert(after.tables == spec_write_entry(s3.tables, p1, i1, entry));
                    assert(after.frames == s3.frames);
                    lemma_tables_extend_trans(s.tables, s3.tables, after.tables);
                    assert(spec_next_table(after.tables, root, i4) == Ok::<u64, FrameError>(p3));
                    assert(spec_next_table(after.tables, p3, i3) == Ok::<u64, FrameError>(p2));
                    assert(spec_next_table(after.tables, p2, i2) == Ok::<u64, FrameError>(p1));
                    if !after.frames.contains(frame) {
                        assert forall|k: int| 0 <= k < after.frames.len() implies frame_unused(
                            after.tables,
                            #[trigger] after.frames[k],
                        ) by {
                            let g = after.frames[k];
                            assert(after.frames.contains(g));
                            assert(frame_unused(s3.tables, g));
                            assert(g != p1);
                            assert(g != frame);
                            assert forall|t: u64, i: int|
                                0 <= i < 512 && after.tables.contains_key(t) && entry_is_present(
                                    #[trigger] after.tables[t][i],
                                ) implies entry_addr(after.tables[t][i]) != g by {
                                if t == p1 {
                                    if i != i1 {
                                        assert(after.tables[t][i] == spec_table(s3.tables, p1)[i]);
                                        if s3.tables.contains_key(p1) {
                                            assert(after.tables[t][i] == s3.tables[t][i]);
                                        }
                                    }
                                } else {
                                    assert(after.tables[t][i] == s3.tables[t][i]);
                                }
                            }
                        }
                    }
                }
            }
        }
    }
}

/// Two addresses in one page have the same four table indices.
pub proof fn lemma_same_page_indices(a: u64, b: u64)
    requires
        spec_align_down(a) == spec_align_down(b),
    ensures
        spec_p4_index(a) == spec_p4_index(b),
        spec_p3_index(a) == spec_p3_index(b),
        spec_p2_index(a) == spec_p2_index(b),
        spec_p1_index(a) == spec_p1_index(b),
{
    assert(a / 4096 == b / 4096);
    assert(a / 4096 == b / 4096 ==> (a / 0x80_0000_0000) % 512 == (b / 0x80_0000_0000) % 512 && (a
        / 0x4000_0000) % 512 == (b / 0x4000_0000) % 512 && (a / 0x20_0000) % 512 == (b / 0x20_0000)
        % 512 && (a / 0x1000) % 512 == (b / 0x1000) % 512) by (bit_vector);
}

/// Translation round trip: once a page is mapped to a frame with flags that
/// say present and not huge, every address in the page translates to the
/// start of the frame plus the address's offset in the page.
pub proof fn lemma_map_then_translate(
    s: MapState,
    root: u64,
    page: u64,
    frame: u64,
    flags: u64,
    addr: u64,
)
    requires
        tables_wf(s.tables),
        frames_fresh(s),
        s.tables.contains_key(root),
        frame % 4096 == 0,
        frame < 0x10_0000_0000_0000,
        spec_map_to(s, root, page, frame, flags).1 is Ok,
        flags & PRESENT == PRESENT,
        flags & HUGE_PAGE != HUGE_PAGE,
        spec_align_down(addr) == spec_align_down(page),
    ensures
        spec_translate(spec_map_to(s, root, page, frame, flags).0.tables, root, addr) == Some(
            (frame + spec_page_offset(addr)) as u64,
        ),
{
    lemma_map_to(s, root, page, frame, flags);
    lemma_make_entry(frame, flags);
    lemma_same_page_indices(addr, page);
    let after = spec_map_to(s, root, page, frame, flags).0.tables;
    assert(spec_leaf_entry(after, root, addr) == spec_leaf_entry(after, root, page));
}

/// No overwrite: once a page is mapped with flags that say present, a second
/// attempt to map it, to whatever frame and whatever frames the allocator then
/// has, is refused as already mapped and changes nothing, so the page
/// translates as before.
pub proof fn lemma_map_twice(
    s: MapState,
    root: u64,
    page: u64,
    frame: u64,
    flags: u64,
    later_frames: Seq<u64>,
    other_frame: u64,
    other_flags: u64,
)
    requires
        tables_wf(s.tables),
        frames_fresh(s),
        s.tables.contains_key(root),
        frame % 4096 == 0,
        frame < 0x10_0000_0000_0000,
        spec_map_to(s, root, page, frame, flags).1 is Ok,
        flags & PRESENT == PRESENT,
    ensures
        ({
            let mapped = MapState {
                tables: spec_map_to(s, root, page, frame, flags).0.tables,
                frames: later_frames,
            };
            spec_map_to(mapped, root, page, other_frame, other_flags) == (
                mapped,
                Err::<(), MapError>(MapError::AlreadyMapped),
            )
        }),
{
    lemma_map_to(s, root, page, frame, flags);
    lemma_make_entry(frame, flags);
}

/// Mapping a page leaves every other translation alone: an address whose walk
/// did not stop at an entry that is not present has the same level 1 entry,
/// and so the same translation, afterwards, whether the attempt succeeded or
/// not.
pub proof fn lemma_map_keeps_translations(
    s: MapState,
    root: u64,
    page: u64,
    frame: u64,
    flags: u64,
    addr: u64,
)
    requires
        tables_wf(s.tables),
        frames_fresh(s),
        s.tables.contains_key(root),
        frame % 4096 == 0,
        frame < 0x10_0000_0000_0000,
        spec_walk(s.tables, root, addr) != Err::<u64, FrameError>(FrameError::FrameNotPresent),
    ensures
        spec_leaf_entry(spec_map_to(s, root, page, frame, flags).0.tables, root, addr)
            == spec_leaf_entry(s.tables, root, addr),
        spec_translate(spec_map_to(s, root, page, frame, flags).0.tables, root, addr)
            == spec_translate(s.tables, root, addr),
{
    lemma_map_to(s, root, page, frame, flags);
    lemma_walk_stable(s.tables, spec_map_to(s, root, page, frame, flags).0.tables, root, addr);
}

/// What an attempt to map the page at `page` to `frame` with `flags` does,
/// `s` being the tables and the fresh frames before it.
///
/// It ends as [`spec_map_outcome`] reads off the tables. No present entry
/// changes; a refusal for a present entry or a huge page changes nothing at
/// all. On success the level 1 entry for the page holds the frame and the
/// flags, and where the flags say present and not huge, every address in the
/// page translates to the frame plus its offset. The frames left stay fresh
/// unless the mapped frame is one of them. Where the hierarchy was a tree it
/// still is one, and no address but those with the table indices of the page
/// translates otherwise than before.
#[verifier::opaque]
pub open spec fn spec_page_mapped(s: MapState, root: u64, page: u64, frame: u64, flags: u64) -> bool {
    let (after, r) = spec_map_to(s, root, page, frame, flags);
    &&& r == spec_map_outcome(s.tables, root, page, s.frames.len())
    &&& tables_extend(s.tables, after.tables)
    &&& r is Ok ==> spec_leaf_entry(after.tables, root, page) == Ok::<u64, FrameError>(
        spec_make_entry(frame, flags),
    )
    &&& r is Ok && flags & PRESENT == PRESENT && flags & HUGE_PAGE != HUGE_PAGE ==> forall|
        addr: u64,
    |
        spec_align_down(addr) == spec_align_down(page) ==> #[trigger] spec_translate(
            after.tables,
            root,
            addr,
        ) == Some((frame + spec_page_offset(addr)) as u64)
    &&& (r == Err::<(), MapError>(MapError::AlreadyMapped) || r == Err::<(), MapError>(
        MapError::UnsupportedHugePage,
    )) ==> after == s
    &&& !after.frames.contains(frame) ==> frames_fresh(after)
    &&& hierarchy_is_tree(s.tables, root) ==> {
        &&& hierarchy_is_tree(after.tables, root)
        &&& forall|addr: u64|
            !spec_same_path(addr, page, 0) ==> #[trigger] spec_walk(after.tables, root, addr)
                == spec_walk(s.tables, root, addr)
    }
}

/// An attempt to map a page does what [`spec_page_mapped`] says, and leaves
/// the tables well-formed with the level 4 table among them.
pub proof fn lemma_map_laws(s: MapState, root: u64, page: u64, frame: u64, flags: u64)
    requires
        tables_wf(s.tables),
        frames_fresh(s),
        s.tables.contains_key(root),
        frame % 4096 == 0,
        frame < 0x10_0000_0000_0000,
    ensures
        spec_page_mapped(s, root, page, frame, flags),
        tables_wf(spec_map_to(s, root, page, frame, flags).0.tables),
        spec_map_to(s, root, page, frame, flags).0.tables.contains_key(root),
{
    reveal(spec_page_mapped);
    lemma_map_to(s, root, page, frame, flags);
    if hierarchy_is_tree(s.tables, root) {
        lemma_map_isolated(s, root, page, frame, flags);
    }
    let (after, r) = spec_map_to(s, root, page, frame, flags);
    if r is Ok && flags & PRESENT == PRESENT && flags & HUGE_PAGE != HUGE_PAGE {
        assert forall|addr: u64|
            spec_align_down(addr) == spec_align_down(page) implies #[trigger] spec_translate(
            after.tables,
            root,
            addr,
        ) == Some((frame + spec_page_offset(addr)) as u64) by {
            lemma_map_then_translate(s, root, page, frame, flags, addr);
        }
    }
}

impl OffsetPageTable {
    /// The tables and the frames of `allocator`, as one state.
    pub open spec fn state<A: FrameAllocator>(&self, allocator: &A) -> MapState {
        MapState { tables: self.tables(), frames: allocator.remaining() }
    }

    /// The table that the entry at `index` of `table` names, made from the
    /// next unused frame where the entry is not present.
    fn create_next_table<A: FrameAllocator>(
        &mut self,
        table: PhysFrame,
        index: u16,
        allocator: &mut A,
    ) -> (r: Result<PhysFrame, MapError>)
        requires
            old(self).memory.wf(),
            old(allocator).wf(),
            index < 512,
        ensures
            final(self).memory.wf(),
            final(allocator).wf(),
            final(self).level_4_frame == old(self).level_4_frame,
            final(self).state(final(allocator)) == spec_create_next_table(
                old(self).state(old(allocator)),
                table.start,
                index as int,
            ).0,
            r == match spec_create_next_table(
                old(self).state(old(allocator)),
                table.start,
                index as int,
            ).1 {
                Ok(start) => Ok(PhysFrame { start }),
                Err(e) => Err(e),
            },
            r matches Ok(next) ==> next.wf(),
    {
        match self.memory.entry_frame(table, index) {
            Ok(next) => Ok(next),
            Err(FrameError::HugeFrame) => Err(MapError::UnsupportedHugePage),
            Err(FrameError::FrameNotPresent) => match allocator.allocate_frame() {
                None => Err(MapError::FrameExhausted),
                Some(frame) => {
                    self.memory.zero_table(frame);
                    self.memory.set_entry(
                        table,
                        index,
                        frame,
                        PageTableFlags { bits: PARENT_TABLE_FLAGS },
                    );
                    Ok(frame)
                },
            },
        }
    }

    /// Walks down to the level 1 table for `page`, adding the tables that are
    /// missing, and writes the entry.
    #[verifier::rlimit(50)]
    fn install<A: FrameAllocator>(
        &mut self,
        page: Page,
        frame: PhysFrame,
        flags: PageTableFlags,
        allocator: &mut A,
    ) -> (r: Result<Mapping, MapError>)
        requires
            old(self).memory.wf(),
            old(allocator).wf(),
            frame.wf(),
        ensures
            final(self).memory.wf(),
            final(allocator).wf(),
            final(self).level_4_frame == old(self).level_4_frame,
            final(self).state(final(allocator)) == spec_map_to(
                old(self).state(old(allocator)),
                old(self).root(),
                page.start,
                frame.start,
                flags.bits,
            ).0,
            r == match spec_map_to(
                old(self).state(old(allocator)),
                old(self).root(),
                page.start,
                frame.start,
                flags.bits,
            ).1 {
                Ok(_) => Ok(Mapping { page }),
                Err(e) => Err(e),
            },
    {
        let addr = VirtAddr { addr: page.start };
        let root = self.level_4_frame;
        let p3 = match self.create_next_table(root, addr.p4_index(), allocator) {
            Ok(table) => table,
            Err(e) => return Err(e),
        };
        let p2 = match self.create_next_table(p3, addr.p3_index(), allocator) {
            Ok(table) => table,
            Err(e) => return Err(e),
        };
        let p1 = match self.create_next_table(p2, addr.p2_index(), allocator) {
            Ok(table) => table,
            Err(e) => return Err(e),
        };
        let index = addr.p1_index();
        match self.memory.entry_frame(p1, index) {
            Err(FrameError::FrameNotPresent) => {
                self.memory.set_entry(p1, index, frame, flags);
                Ok(Mapping { page })
            },
            _ => Err(MapError::AlreadyMapped),
        }
    }

    /// Maps `page` to `frame` with `flags`. Tables that are missing on the way
    /// are made from frames of `allocator`, zeroed, and entered present and
    /// writable. Nothing is overwritten: a page whose level 1 entry is present
    /// is refused, and so is a page behind a huge page. The mapping that comes
    /// back names the page whose cached translation the caller must
    /// invalidate before relying on it.
    ///
    /// What becomes of the tables and the frames is said for whatever they
    /// hold; what that means for translations, [`spec_page_mapped`], is said
    /// where the frames of the allocator are fresh, as they are when the
    /// allocator hands out only memory that is in fact unused.
    #[verifier::rlimit(50)]
    pub fn map_to<A: FrameAllocator>(
        &mut self,
        page: Page,
        frame: PhysFrame,
        flags: PageTableFlags,
        allocator: &mut A,
    ) -> (r: Result<Mapping, MapError>)
        requires
            old(self).memory.wf(),
            old(allocator).wf(),
            frame.wf(),
        ensures
            final(self).memory.wf(),
            final(allocator).wf(),
            final(self).level_4_frame == old(self).level_4_frame,
            final(self).state(final(allocator)) == spec_map_to(
                old(self).state(old(allocator)),
                old(self).root(),
                page.start,
                frame.start,
                flags.bits,
            ).0,
            r == match spec_map_to(
                old(self).state(old(allocator)),
                old(self).root(),
                page.start,
                frame.start,
                flags.bits,
            ).1 {
                Ok(_) => Ok(Mapping { page }),
                Err(e) => Err(e),
            },
            old(self).wf() && frames_fresh(old(self).state(old(allocator))) ==> final(self).wf()
                && spec_page_mapped(
                old(self).state(old(allocator)),
                old(self).root(),
                page.start,
                frame.start,
                flags.bits,
            ),
    {
        let r = self.install(page, frame, flags, allocator);
        proof {
            let s = old(self).state(old(allocator));
            if old(self).wf() && frames_fresh(s) {
                lemma_map_laws(s, old(self).root(), page.start, frame.start, flags.bits);
            }
        }
        r
    }
}

} // verus!
