//! The shape of the page-table hierarchy. Where every table has one place in
//! it, mapping a page changes the translation of that page and of no other.

use crate::addr::{spec_p1_index, spec_p2_index, spec_p3_index, spec_p4_index};
use crate::mapper::{
    frame_unused, frames_fresh, lemma_create_next_table, lemma_write_entry,
    spec_create_next_table, spec_map_to, spec_write_entry, MapState,
};
use crate::memory::{spec_level_1_table, spec_next_table, spec_walk};
use crate::page_table::{
    entry_is_present, lemma_zero_entry, spec_entry, spec_make_entry, tables_wf, FrameError,
};
use vstd::prelude::*;

verus! {

/// The index of `addr` into the table of the given level.
pub open spec fn spec_index_at(addr: u64, level: int) -> int {
    if level >= 4 {
        spec_p4_index(addr)
    } else if level == 3 {
        spec_p3_index(addr)
    } else if level == 2 {
        spec_p2_index(addr)
    } else {
        spec_p1_index(addr)
    }
}

/// The table of the given level that the walk for `addr` reads: the level 4
/// table in frame `root`, or the one that the entry above names.
pub open spec fn spec_table_at(tables: Map<u64, Seq<u64>>, root: u64, addr: u64, level: int) -> Result<
    u64,
    FrameError,
> {
    if level >= 4 {
        Ok(root)
    } else if level == 3 {
        spec_next_table(tables, root, spec_p4_index(addr))
    } else if level == 2 {
        match spec_next_table(tables, root, spec_p4_index(addr)) {
            Err(e) => Err(e),
            Ok(p3) => spec_next_table(tables, p3, spec_p3_index(addr)),
        }
    } else {
        spec_level_1_table(tables, root, addr)
    }
}

/// Whether the two addresses have the same index at every level above `level`.
pub open spec fn spec_same_path(a: u64, b: u64, level: int) -> bool {
    &&& level < 4 ==> spec_p4_index(a) == spec_p4_index(b)
    &&& level < 3 ==> spec_p3_index(a) == spec_p3_index(b)
    &&& level < 2 ==> spec_p2_index(a) == spec_p2_index(b)
    &&& level < 1 ==> spec_p1_index(a) == spec_p1_index(b)
}

/// Every table has one place in the hierarchy: a frame that two walks read as
/// a table is read by both at the same level, behind the same indices.
pub open spec fn hierarchy_is_tree(tables: Map<u64, Seq<u64>>, root: u64) -> bool {
    forall|a: u64, b: u64, m: int, l: int|
        1 <= m <= 4 && 1 <= l <= 4 && (#[trigger] spec_table_at(tables, root, a, m)) is Ok
            && spec_table_at(tables, root, a, m) == #[trigger] spec_table_at(tables, root, b, l)
            ==> m == l && spec_same_path(a, b, m)
}

/// No entry but the one at `index` of the table in `table` differs.
pub open spec fn only_entry_changed(
    before: Map<u64, Seq<u64>>,
    after: Map<u64, Seq<u64>>,
    table: u64,
    index: int,
) -> bool {
    forall|t: u64, i: int|
        0 <= i < 512 && !(t == table && i == index) ==> #[trigger] spec_entry(after, t, i)
            == spec_entry(before, t, i)
}

/// No walk reads `frame` as a table.
pub open spec fn frame_outside(tables: Map<u64, Seq<u64>>, root: u64, frame: u64) -> bool {
    forall|a: u64, l: int|
        1 <= l <= 4 ==> #[trigger] spec_table_at(tables, root, a, l) != Ok::<u64, FrameError>(frame)
}

/// A new table was entered on the way to `page`: the entry for `page` in its
/// table of level `level` was not present and now names `frame`, an empty
/// table that no walk read before; nothing else changed.
pub open spec fn new_table_step(
    before: Map<u64, Seq<u64>>,
    after: Map<u64, Seq<u64>>,
    root: u64,
    page: u64,
    level: int,
    table: u64,
    frame: u64,
) -> bool {
    &&& 2 <= level <= 4
    &&& spec_table_at(before, root, page, level) == Ok::<u64, FrameError>(table)
    &&& !entry_is_present(spec_entry(before, table, spec_index_at(page, level)))
    &&& only_entry_changed(before, after, table, spec_index_at(page, level))
    &&& spec_next_table(after, table, spec_index_at(page, level)) == Ok::<u64, FrameError>(frame)
    &&& forall|i: int| 0 <= i < 512 ==> #[trigger] spec_entry(before, frame, i) == 0
    &&& frame_outside(before, root, frame)
}

/// Behind a new table, a walk reads the tables it read before, but for the
/// walks on the way to `page`, which now read the new table one level down.
#[verifier::rlimit(50)]
pub proof fn lemma_new_table_at(
    before: Map<u64, Seq<u64>>,
    after: Map<u64, Seq<u64>>,
    root: u64,
    page: u64,
    level: int,
    table: u64,
    frame: u64,
    addr: u64,
    m: int,
)
    requires
        hierarchy_is_tree(before, root),
        new_table_step(before, after, root, page, level, table, frame),
        1 <= m <= 4,
    ensures
        spec_table_at(after, root, addr, m) == spec_table_at(before, root, addr, m) || (m == level
            - 1 && spec_table_at(after, root, addr, m) == Ok::<u64, FrameError>(frame)
            && spec_same_path(addr, page, level - 1)),
{
    lemma_zero_entry();
    let index = spec_index_at(page, level);
    let i4 = spec_p4_index(addr);
    let i3 = spec_p3_index(addr);
    let i2 = spec_p2_index(addr);
    assert(spec_table_at(before, root, page, level) == Ok::<u64, FrameError>(table));
    assert(spec_table_at(before, root, frame, 4) != Ok::<u64, FrameError>(frame));
    assert(frame != table) by {
        assert(spec_table_at(before, root, page, level) != Ok::<u64, FrameError>(frame));
    }
    let b4 = spec_table_at(before, root, addr, 4);
    let b3 = spec_table_at(before, root, addr, 3);
    let b2 = spec_table_at(before, root, addr, 2);
    let b1 = spec_table_at(before, root, addr, 1);
    let a3 = spec_table_at(after, root, addr, 3);
    let a2 = spec_table_at(after, root, addr, 2);
    let a1 = spec_table_at(after, root, addr, 1);
    if m <= 3 {
        // the entry read in the level 4 table
        if root == table && i4 == index {
            assert(b4 == spec_table_at(before, root, page, level));
            assert(level == 4);
            assert(a3 == Ok::<u64, FrameError>(frame));
            assert(spec_entry(after, frame, i3) == 0);
            assert(a2 == Err::<u64, FrameError>(FrameError::FrameNotPresent));
            assert(a1 == Err::<u64, FrameError>(FrameError::FrameNotPresent));
        } else {
            assert(spec_entry(after, root, i4) == spec_entry(before, root, i4));
            assert(a3 == b3);
            if m <= 2 {
                if let Ok(p3) = b3 {
                    if p3 == table && i3 == index {
                        assert(b3 == spec_table_at(before, root, page, level));
                        assert(level == 3);
                        assert(spec_same_path(addr, page, 3));
                        assert(a2 == Ok::<u64, FrameError>(frame));
                        assert(spec_entry(after, frame, i2) == 0);
                        assert(a1 == Err::<u64, FrameError>(FrameError::FrameNotPresent));
                    } else {
                        assert(spec_entry(after, p3, i3) == spec_entry(before, p3, i3));
                        assert(a2 == b2);
                        if m <= 1 {
                            if let Ok(p2) = b2 {
                                if p2 == table && i2 == index {
                                    assert(b2 == spec_table_at(before, root, page, level));
                                    assert(level == 2);
                                    assert(spec_same_path(addr, page, 2));
                                    assert(a1 == Ok::<u64, FrameError>(frame));
                                } else {
                                    assert(spec_entry(after, p2, i2) == spec_entry(before, p2, i2));
                                    assert(a1 == b1);
                                }
                            }
                        }
                    }
                }
            }
        }
    }
}

/// Entering a new table keeps the hierarchy a tree and every translation as
/// it was.
#[verifier::rlimit(50)]
pub proof fn lemma_new_table_keeps_tree(
    before: Map<u64, Seq<u64>>,
    after: Map<u64, Seq<u64>>,
    root: u64,
    page: u64,
    level: int,
    table: u64,
    frame: u64,
)
    requires
        hierarchy_is_tree(before, root),
        new_table_step(before, after, root, page, level, table, frame),
    ensures
        hierarchy_is_tree(after, root),
        forall|addr: u64| #[trigger] spec_walk(after, root, addr) == spec_walk(before, root, addr),
{
    lemma_zero_entry();
    assert forall|a: u64, b: u64, m: int, l: int|
        1 <= m <= 4 && 1 <= l <= 4 && (#[trigger] spec_table_at(after, root, a, m)) is Ok
            && spec_table_at(after, root, a, m) == #[trigger] spec_table_at(
            after,
            root,
            b,
            l,
        ) implies m == l && spec_same_path(a, b, m) by {
        lemma_new_table_at(before, after, root, page, level, table, frame, a, m);
        lemma_new_table_at(before, after, root, page, level, table, frame, b, l);
        let am = spec_table_at(after, root, a, m);
        let bm = spec_table_at(before, root, a, m);
        let al = spec_table_at(after, root, b, l);
        let bl = spec_table_at(before, root, b, l);
        if am == bm && al == bl {
        } else if am == bm {
            assert(bm != Ok::<u64, FrameError>(frame));
        } else if al == bl {
            assert(bl != Ok::<u64, FrameError>(frame));
        } else {
        }
    }
    assert forall|addr: u64| #[trigger]
        spec_walk(after, root, addr) == spec_walk(before, root, addr) by {
        lemma_new_table_at(before, after, root, page, level, table, frame, addr, 1);
        let index = spec_index_at(page, level);
        let i1 = spec_p1_index(addr);
        let b1 = spec_table_at(before, root, addr, 1);
        let a1 = spec_table_at(after, root, addr, 1);
        assert(spec_table_at(before, root, page, level) != Ok::<u64, FrameError>(frame));
        if a1 == b1 {
            if let Ok(p1) = b1 {
                if p1 == table && i1 == index {
                    assert(b1 == spec_table_at(before, root, page, level));
                }
                assert(spec_entry(after, p1, i1) == spec_entry(before, p1, i1));
            }
        } else {
            assert(level == 2);
            assert(spec_same_path(addr, page, 1));
            assert(spec_table_at(before, root, addr, 2) == spec_table_at(before, root, page, 2));
            assert(spec_entry(after, frame, i1) == 0);
            assert(b1 == Err::<u64, FrameError>(FrameError::FrameNotPresent));
        }
    }
}

/// Writing the level 1 entry for `page` keeps the hierarchy a tree, and the
/// translation of every address whose four indices are not those of `page`.
#[verifier::rlimit(50)]
pub proof fn lemma_leaf_entry_keeps_tree(
    before: Map<u64, Seq<u64>>,
    after: Map<u64, Seq<u64>>,
    root: u64,
    page: u64,
    table: u64,
)
    requires
        hierarchy_is_tree(before, root),
        spec_table_at(before, root, page, 1) == Ok::<u64, FrameError>(table),
        only_entry_changed(before, after, table, spec_p1_index(page)),
    ensures
        hierarchy_is_tree(after, root),
        forall|addr: u64, m: int|
            1 <= m <= 4 ==> #[trigger] spec_table_at(after, root, addr, m) == spec_table_at(
                before,
                root,
                addr,
                m,
            ),
        forall|addr: u64|
            !spec_same_path(addr, page, 0) ==> #[trigger] spec_walk(after, root, addr)
                == spec_walk(before, root, addr),
{
    let index = spec_p1_index(page);
    assert forall|addr: u64, m: int| 1 <= m <= 4 implies #[trigger] spec_table_at(
        after,
        root,
        addr,
        m,
    ) == spec_table_at(before, root, addr, m) by {
        let i4 = spec_p4_index(addr);
        let i3 = spec_p3_index(addr);
        let i2 = spec_p2_index(addr);
        let b4 = spec_table_at(before, root, addr, 4);
        let b3 = spec_table_at(before, root, addr, 3);
        let b2 = spec_table_at(before, root, addr, 2);
        assert(b4 != spec_table_at(before, root, page, 1));
        assert(spec_entry(after, root, i4) == spec_entry(before, root, i4));
        if let Ok(p3) = b3 {
            assert(b3 != spec_table_at(before, root, page, 1));
            assert(spec_entry(after, p3, i3) == spec_entry(before, p3, i3));
            if let Ok(p2) = b2 {
                assert(b2 != spec_table_at(before, root, page, 1));
                assert(spec_entry(after, p2, i2) == spec_entry(before, p2, i2));
            }
        }
    }
    assert forall|addr: u64| !spec_same_path(addr, page, 0) implies #[trigger] spec_walk(
        after,
        root,
        addr,
    ) == spec_walk(before, root, addr) by {
        let b1 = spec_table_at(before, root, addr, 1);
        assert(spec_table_at(after, root, addr, 1) == b1);
        if let Ok(p1) = b1 {
            let i1 = spec_p1_index(addr);
            if p1 == table && i1 == index {
                assert(b1 == spec_table_at(before, root, page, 1));
                assert(spec_same_path(addr, page, 1));
            }
            assert(spec_entry(after, p1, i1) == spec_entry(before, p1, i1));
        }
    }
}

/// A hierarchy whose level 4 table has no present entry is a tree.
pub proof fn lemma_empty_hierarchy_is_tree(tables: Map<u64, Seq<u64>>, root: u64)
    requires
        forall|i: int| 0 <= i < 512 ==> !entry_is_present(#[trigger] spec_entry(tables, root, i)),
    ensures
        hierarchy_is_tree(tables, root),
{
    assert forall|a: u64, b: u64, m: int, l: int|
        1 <= m <= 4 && 1 <= l <= 4 && (#[trigger] spec_table_at(tables, root, a, m)) is Ok
            && spec_table_at(tables, root, a, m) == #[trigger] spec_table_at(
            tables,
            root,
            b,
            l,
        ) implies m == l && spec_same_path(a, b, m) by {
        assert(!entry_is_present(spec_entry(tables, root, spec_p4_index(a))));
        assert(!entry_is_present(spec_entry(tables, root, spec_p4_index(b))));
    }
}

/// A frame that the tables do not use, and that is not the level 4 table, is
/// read by no walk.
pub proof fn lemma_unused_frame_outside(tables: Map<u64, Seq<u64>>, root: u64, frame: u64)
    requires
        frame_unused(tables, frame),
        frame != root,
    ensures
        frame_outside(tables, root, frame),
        forall|i: int| 0 <= i < 512 ==> #[trigger] spec_entry(tables, frame, i) == 0,
{
    lemma_zero_entry();
    assert forall|a: u64, l: int| 1 <= l <= 4 implies #[trigger] spec_table_at(tables, root, a, l)
        != Ok::<u64, FrameError>(frame) by {
        let i4 = spec_p4_index(a);
        let i3 = spec_p3_index(a);
        let i2 = spec_p2_index(a);
        if l <= 3 {
            if let Ok(p3) = spec_next_table(tables, root, i4) {
                assert(tables.contains_key(root));
                assert(entry_is_present(tables[root][i4]));
                if l <= 2 {
                    if let Ok(p2) = spec_next_table(tables, p3, i3) {
                        assert(tables.contains_key(p3));
                        assert(entry_is_present(tables[p3][i3]));
                        if l <= 1 {
                            if let Ok(p1) = spec_next_table(tables, p2, i2) {
                                assert(tables.contains_key(p2));
                                assert(entry_is_present(tables[p2][i2]));
                            }
                        }
                    }
                }
            }
        }
    }
}

/// One step down the hierarchy on the way to a new mapping keeps the
/// hierarchy a tree and every translation as it was, and yields the table
/// that the walk for the page reads one level down.
#[verifier::rlimit(50)]
pub proof fn lemma_create_next_table_tree(
    s: MapState,
    root: u64,
    page: u64,
    level: int,
    table: u64,
)
    requires
        tables_wf(s.tables),
        frames_fresh(s),
        s.tables.contains_key(root),
        hierarchy_is_tree(s.tables, root),
        2 <= level <= 4,
        spec_table_at(s.tables, root, page, level) == Ok::<u64, FrameError>(table),
        !s.frames.contains(table),
    ensures
        ({
            let (after, r) = spec_create_next_table(s, table, spec_index_at(page, level));
            &&& hierarchy_is_tree(after.tables, root)
            &&& forall|addr: u64| #[trigger]
                spec_walk(after.tables, root, addr) == spec_walk(s.tables, root, addr)
            &&& r matches Ok(next) ==> spec_table_at(after.tables, root, page, level - 1) == Ok::<
                u64,
                FrameError,
            >(next)
        }),
{
    let index = spec_index_at(page, level);
    let (after, r) = spec_create_next_table(s, table, index);
    lemma_create_next_table(s, table, index);
    if spec_next_table(s.tables, table, index) is Err && r is Ok {
        let frame = s.frames[0];
        assert(s.frames.contains(frame));
        assert(frame_unused(s.tables, frame));
        lemma_unused_frame_outside(s.tables, root, frame);
        assert(new_table_step(s.tables, after.tables, root, page, level, table, frame));
        lemma_new_table_keeps_tree(s.tables, after.tables, root, page, level, table, frame);
        lemma_new_table_at(s.tables, after.tables, root, page, level, table, frame, page, level);
    }
}

/// Isolation: where every table has one place in the hierarchy, mapping a page
/// leaves it so, and changes the translation of no address but those with the
/// four table indices of the page.
#[verifier::rlimit(50)]
pub proof fn lemma_map_isolated(s: MapState, root: u64, page: u64, frame: u64, flags: u64)
    requires
        tables_wf(s.tables),
        frames_fresh(s),
        s.tables.contains_key(root),
        hierarchy_is_tree(s.tables, root),
        frame % 4096 == 0,
        frame < 0x10_0000_0000_0000,
    ensures
        hierarchy_is_tree(spec_map_to(s, root, page, frame, flags).0.tables, root),
        forall|addr: u64|
            !spec_same_path(addr, page, 0) ==> #[trigger] spec_walk(
                spec_map_to(s, root, page, frame, flags).0.tables,
                root,
                addr,
            ) == spec_walk(s.tables, root, addr),
{
    let i4 = spec_p4_index(page);
    let i3 = spec_p3_index(page);
    let i2 = spec_p2_index(page);
    let i1 = spec_p1_index(page);
    assert(!s.frames.contains(root)) by {
        if s.frames.contains(root) {
            let k = choose|k: int| 0 <= k < s.frames.len() && s.frames[k] == root;
            assert(frame_unused(s.tables, s.frames[k]));
        }
    }
    lemma_create_next_table(s, root, i4);
    lemma_create_next_table_tree(s, root, page, 4, root);
    let (s1, r1) = spec_create_next_table(s, root, i4);
    if let Ok(p3) = r1 {
        lemma_create_next_table(s1, p3, i3);
        lemma_create_next_table_tree(s1, root, page, 3, p3);
        let (s2, r2) = spec_create_next_table(s1, p3, i3);
        if let Ok(p2) = r2 {
            lemma_create_next_table(s2, p2, i2);
            lemma_create_next_table_tree(s2, root, page, 2, p2);
            let (s3, r3) = spec_create_next_table(s2, p2, i2);
            if let Ok(p1) = r3 {
                if !entry_is_present(spec_entry(s3.tables, p1, i1)) {
                    let entry = spec_make_entry(frame, flags);
                    let after = spec_write_entry(s3.tables, p1, i1, entry);
                    lemma_write_entry(s3.tables, p1, i1, entry);
                    assert(only_entry_changed(s3.tables, after, p1, i1));
                    lemma_leaf_entry_keeps_tree(s3.tables, after, root, page, p1);
                    assert(spec_map_to(s, root, page, frame, flags).0.tables == after);
                }
            }
        }
    }
}

} // verus!
