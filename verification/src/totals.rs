//! Why the file type breakdown of a directory accounts for its whole size.
use vstd::prelude::*;

use crate::consistency::{contribution, dir_consistent, sizes_consistent, visible_sum};
use crate::counts::{files_reached, lemma_seen_descend, lemma_seen_from_file, lemma_seen_lift, lemma_seen_live, lemma_seen_unique};
use crate::filetype::{
    extension_keys, is_breakdown, lemma_group_witness,
    counted_file, counted_size, group_count, group_size, is_grouping, row_before, rows_cover, rows_total,
    seen_from, FileTypeTotal,
};
use crate::tree::{child_ok, in_removal, is_ancestor, parent_of, removal_result, tree_wf, NodeView};

verus! {

/// The sizes of the files reached from each node of `ks`, added up, among the
/// first `n` nodes.
pub open spec fn sizes_reached_from_all(t: Seq<NodeView>, d: int, ks: Seq<usize>, n: int) -> int
    decreases ks.len(),
{
    if ks.len() == 0 {
        0
    } else {
        sizes_reached_from_all(t, d, ks.drop_last(), n) + counted_size(t, ks.last() as int, n)
    }
}

/// What node `x` adds to the sums of the nodes `ks`: its size once for each
/// of them that reaches it as a file.
pub open spec fn size_hits(t: Seq<NodeView>, ks: Seq<usize>, x: int) -> int
    decreases ks.len(),
{
    if ks.len() == 0 {
        0
    } else {
        size_hits(t, ks.drop_last(), x) + if counted_file(t, ks.last() as int, x) {
            t[x].size as int
        } else {
            0
        }
    }
}

/// The sizes of the rows, added up.
pub open spec fn rows_size_sum(rows: Seq<FileTypeTotal>) -> int
    decreases rows.len(),
{
    if rows.len() == 0 {
        0
    } else {
        rows_size_sum(rows.drop_last()) + rows.last().size
    }
}

/// The file counts of the rows, added up.
pub open spec fn rows_count_sum(rows: Seq<FileTypeTotal>) -> int
    decreases rows.len(),
{
    if rows.len() == 0 {
        0
    } else {
        rows_count_sum(rows.drop_last()) + rows.last().count
    }
}

/// The sizes of the groups that the rows name, among the first `n` nodes.
pub open spec fn groups_size_sum(t: Seq<NodeView>, d: int, ks: Seq<Seq<char>>, rows: Seq<FileTypeTotal>, n: int) -> int
    decreases rows.len(),
{
    if rows.len() == 0 {
        0
    } else {
        groups_size_sum(t, d, ks, rows.drop_last(), n) + group_size(t, d, ks, rows.last().extension@, n)
    }
}

/// What node `x` adds to the groups that the rows name.
pub open spec fn group_hits(t: Seq<NodeView>, d: int, ks: Seq<Seq<char>>, rows: Seq<FileTypeTotal>, x: int) -> int
    decreases rows.len(),
{
    if rows.len() == 0 {
        0
    } else {
        group_hits(t, d, ks, rows.drop_last(), x) + if counted_file(t, d, x) && ks[x] == rows.last().extension@ {
            t[x].size as int
        } else {
            0
        }
    }
}

/// A file's size goes to at most one child of a directory.
proof fn lemma_size_hits_one(t: Seq<NodeView>, d: int, x: int, m: int)
    requires
        tree_wf(t),
        0 <= d < t.len(),
        0 <= m <= t[d].children.len(),
    ensures
        size_hits(t, t[d].children.take(m), x) == if exists|k: int|
            0 <= k < m && #[trigger] counted_file(t, t[d].children[k] as int, x) {
            t[x].size as int
        } else {
            0
        },
    decreases m,
{
    let ks = t[d].children;
    if m > 0 {
        lemma_size_hits_one(t, d, x, m - 1);
        assert(ks.take(m).drop_last() =~= ks.take(m - 1));
        assert(ks.take(m).last() == ks[m - 1]);
        if counted_file(t, ks[m - 1] as int, x) {
            if exists|k: int| 0 <= k < m - 1 && #[trigger] counted_file(t, ks[k] as int, x) {
                let k = choose|k: int| 0 <= k < m - 1 && #[trigger] counted_file(t, ks[k] as int, x);
                lemma_seen_unique(t, d, k, m - 1, x);
            }
        } else {
            if exists|k: int| 0 <= k < m && #[trigger] counted_file(t, ks[k] as int, x) {
                let k = choose|k: int| 0 <= k < m && #[trigger] counted_file(t, ks[k] as int, x);
                assert(k < m - 1);
            }
        }
    } else {
        assert(ks.take(0).len() == 0);
    }
}

/// Taking one more node adds its size for the children that reach it.
proof fn lemma_sizes_step(t: Seq<NodeView>, d: int, ks: Seq<usize>, n: int)
    requires
        n > 0,
    ensures
        sizes_reached_from_all(t, d, ks, n) == sizes_reached_from_all(t, d, ks, n - 1) + size_hits(t, ks, n - 1),
    decreases ks.len(),
{
    if ks.len() > 0 {
        lemma_sizes_step(t, d, ks.drop_last(), n);
    }
}

/// Among no nodes no size is counted.
proof fn lemma_sizes_zero(t: Seq<NodeView>, d: int, ks: Seq<usize>)
    ensures
        sizes_reached_from_all(t, d, ks, 0) == 0,
    decreases ks.len(),
{
    if ks.len() > 0 {
        lemma_sizes_zero(t, d, ks.drop_last());
    }
}

/// The files reached from a live directory weigh what the files reached
/// from its children weigh together.
proof fn lemma_dir_size(t: Seq<NodeView>, d: int, n: int)
    requires
        tree_wf(t),
        0 <= d < t.len(),
        t[d].is_dir,
        !t[d].deleted,
        0 <= n,
    ensures
        counted_size(t, d, n) == sizes_reached_from_all(t, d, t[d].children, n),
    decreases n,
{
    let ks = t[d].children;
    if n == 0 {
        lemma_sizes_zero(t, d, ks);
    } else {
        lemma_dir_size(t, d, n - 1);
        lemma_sizes_step(t, d, ks, n);
        let x = n - 1;
        lemma_size_hits_one(t, d, x, ks.len() as int);
        assert(ks.take(ks.len() as int) =~= ks);
        if counted_file(t, d, x) {
            assert(x != d);
            let k = lemma_seen_descend(t, d, x);
            assert(counted_file(t, ks[k] as int, x));
        }
        if exists|k: int| 0 <= k < ks.len() && #[trigger] counted_file(t, ks[k] as int, x) {
            let k = choose|k: int| 0 <= k < ks.len() && #[trigger] counted_file(t, ks[k] as int, x);
            assert(child_ok(t, d, k));
            lemma_seen_lift(t, d, ks[k] as int, x);
        }
    }
}

/// No size is counted from a deleted node.
proof fn lemma_size_of_deleted(t: Seq<NodeView>, d: int, n: int)
    requires
        0 <= d < t.len(),
        t[d].deleted,
    ensures
        counted_size(t, d, n) == 0,
    decreases n,
{
    if n > 0 {
        lemma_size_of_deleted(t, d, n - 1);
        if seen_from(t, d, n - 1) {
            lemma_seen_live(t, d, n - 1);
        }
    }
}

/// A live file counts its own size once it is among the nodes taken.
proof fn lemma_size_of_file(t: Seq<NodeView>, d: int, n: int)
    requires
        0 <= d < t.len(),
        !t[d].deleted,
        !t[d].is_dir,
        0 <= n,
    ensures
        counted_size(t, d, n) == if n > d { t[d].size as int } else { 0 },
    decreases n,
{
    if n > 0 {
        lemma_size_of_file(t, d, n - 1);
        if seen_from(t, d, n - 1) {
            lemma_seen_from_file(t, d, n - 1);
        }
        assert(seen_from(t, d, d));
    }
}

/// When each child counts what it contributes, the children's counted sizes
/// add up to their visible sum.
proof fn lemma_children_sums(t: Seq<NodeView>, d: int, ks: Seq<usize>)
    requires
        forall|i: int| 0 <= i < ks.len() ==> #[trigger] counted_size(t, ks[i] as int, t.len() as int)
            == contribution(t, ks[i] as int),
    ensures
        sizes_reached_from_all(t, d, ks, t.len() as int) == visible_sum(t, ks),
    decreases ks.len(),
{
    if ks.len() > 0 {
        let ks2 = ks.drop_last();
        assert forall|i: int| 0 <= i < ks2.len() implies #[trigger] counted_size(t, ks2[i] as int, t.len() as int)
            == contribution(t, ks2[i] as int) by {
            assert(ks2[i] == ks[i]);
        }
        lemma_children_sums(t, d, ks2);
        assert(counted_size(t, ks[ks.len() - 1] as int, t.len() as int) == contribution(t, ks[ks.len() - 1] as int));
    }
}

/// In a tree with consistent sizes, the files reached from a live directory
/// add up to the directory's size.
pub proof fn lemma_files_make_up_dir_size(t: Seq<NodeView>, d: int)
    requires
        tree_wf(t),
        sizes_consistent(t),
        0 <= d < t.len(),
        t[d].is_dir,
        !t[d].deleted,
    ensures
        counted_size(t, d, t.len() as int) == t[d].size,
    decreases t.len() - d,
{
    let n = t.len() as int;
    let ks = t[d].children;
    lemma_dir_size(t, d, n);
    assert forall|i: int| 0 <= i < ks.len() implies #[trigger] counted_size(t, ks[i] as int, n) == contribution(
        t,
        ks[i] as int,
    ) by {
        assert(child_ok(t, d, i));
        let c = ks[i] as int;
        if t[c].deleted {
            lemma_size_of_deleted(t, c, n);
        } else if !t[c].is_dir {
            lemma_size_of_file(t, c, n);
        } else {
            lemma_files_make_up_dir_size(t, c);
        }
    }
    lemma_children_sums(t, d, ks);
    assert(dir_consistent(t, d));
}

/// A counted file's size goes to at most one row.
proof fn lemma_group_hits_one(t: Seq<NodeView>, d: int, ks: Seq<Seq<char>>, rows: Seq<FileTypeTotal>, x: int)
    requires
        forall|i: int, k: int| 0 <= i < k < rows.len() ==> (#[trigger] rows[i]).extension@ != (#[trigger] rows[k]).extension@,
    ensures
        group_hits(t, d, ks, rows, x) == if counted_file(t, d, x) && exists|i: int|
            0 <= i < rows.len() && (#[trigger] rows[i]).extension@ == ks[x] {
            t[x].size as int
        } else {
            0
        },
    decreases rows.len(),
{
    if rows.len() > 0 {
        let r2 = rows.drop_last();
        assert forall|i: int, k: int| 0 <= i < k < r2.len() implies (#[trigger] r2[i]).extension@ != (#[trigger] r2[k]).extension@ by {
            assert(r2[i] == rows[i] && r2[k] == rows[k]);
        }
        lemma_group_hits_one(t, d, ks, r2, x);
        let last = rows.len() - 1;
        if exists|i: int| 0 <= i < rows.len() && (#[trigger] rows[i]).extension@ == ks[x] {
            let i = choose|i: int| 0 <= i < rows.len() && (#[trigger] rows[i]).extension@ == ks[x];
            if i < last {
                assert(r2[i] == rows[i]);
                assert(rows[i].extension@ != rows[last].extension@);
            }
        }
        if exists|i: int| 0 <= i < r2.len() && (#[trigger] r2[i]).extension@ == ks[x] {
            let i = choose|i: int| 0 <= i < r2.len() && (#[trigger] r2[i]).extension@ == ks[x];
            assert(rows[i] == r2[i]);
            assert(rows[i].extension@ != rows[last].extension@);
        }
    }
}

/// Taking one more node adds its size to the row of its group.
proof fn lemma_groups_step(t: Seq<NodeView>, d: int, ks: Seq<Seq<char>>, rows: Seq<FileTypeTotal>, n: int)
    requires
        n > 0,
    ensures
        groups_size_sum(t, d, ks, rows, n) == groups_size_sum(t, d, ks, rows, n - 1) + group_hits(t, d, ks, rows, n - 1),
    decreases rows.len(),
{
    if rows.len() > 0 {
        lemma_groups_step(t, d, ks, rows.drop_last(), n);
    }
}

/// Rows that cover every group, one per group, take up every counted size.
proof fn lemma_groups_add_up(t: Seq<NodeView>, d: int, ks: Seq<Seq<char>>, rows: Seq<FileTypeTotal>, n: int)
    requires
        0 <= n <= t.len(),
        forall|i: int, k: int| 0 <= i < k < rows.len() ==> (#[trigger] rows[i]).extension@ != (#[trigger] rows[k]).extension@,
        rows_cover(t, d, ks, rows, t.len() as int),
    ensures
        groups_size_sum(t, d, ks, rows, n) == counted_size(t, d, n),
    decreases n,
{
    if n == 0 {
        lemma_groups_zero(t, d, ks, rows);
    } else {
        lemma_groups_add_up(t, d, ks, rows, n - 1);
        lemma_groups_step(t, d, ks, rows, n);
        lemma_group_hits_one(t, d, ks, rows, n - 1);
        if counted_file(t, d, n - 1) {
            let i = choose|i: int| 0 <= i < rows.len() && (#[trigger] rows[i]).extension@ == ks[n - 1];
            assert(rows[i].extension@ == ks[n - 1]);
        }
    }
}

/// Among no nodes the rows count no size.
proof fn lemma_groups_zero(t: Seq<NodeView>, d: int, ks: Seq<Seq<char>>, rows: Seq<FileTypeTotal>)
    ensures
        groups_size_sum(t, d, ks, rows, 0) == 0,
    decreases rows.len(),
{
    if rows.len() > 0 {
        lemma_groups_zero(t, d, ks, rows.drop_last());
    }
}

/// Rows that total their groups add up to what their groups count.
proof fn lemma_rows_are_groups(t: Seq<NodeView>, d: int, ks: Seq<Seq<char>>, rows: Seq<FileTypeTotal>)
    requires
        rows_total(t, d, ks, rows, t.len() as int),
    ensures
        rows_size_sum(rows) == groups_size_sum(t, d, ks, rows, t.len() as int),
    decreases rows.len(),
{
    if rows.len() > 0 {
        let r2 = rows.drop_last();
        assert forall|i: int| 0 <= i < r2.len() implies {
            &&& (#[trigger] r2[i]).size == group_size(t, d, ks, r2[i].extension@, t.len() as int)
            &&& r2[i].count == group_count(t, d, ks, r2[i].extension@, t.len() as int)
            &&& group_count(t, d, ks, r2[i].extension@, t.len() as int) > 0
        } by {
            assert(r2[i] == rows[i]);
        }
        lemma_rows_are_groups(t, d, ks, r2);
        assert(rows[rows.len() - 1] == rows[rows.len() - 1]);
    }
}

/// The rows of a grouping add up to the size of all the files reached.
pub proof fn lemma_grouping_adds_up(t: Seq<NodeView>, d: int, ks: Seq<Seq<char>>, rows: Seq<FileTypeTotal>)
    requires
        is_grouping(t, d, ks, rows),
    ensures
        rows_size_sum(rows) == counted_size(t, d, t.len() as int),
{
    let n = t.len() as int;
    assert forall|i: int, k: int| 0 <= i < k < rows.len() implies (#[trigger] rows[i]).extension@ != (
    #[trigger] rows[k]).extension@ by {
        assert(row_before(rows[i], rows[k]));
        if rows[i].extension@ == rows[k].extension@ {
            assert(rows[i] == rows[i] && rows[k] == rows[k]);
            crate::filetype::lemma_text_before_irreflexive(rows[i].extension@);
        }
    }
    lemma_rows_are_groups(t, d, ks, rows);
    lemma_groups_add_up(t, d, ks, rows, n);
}

/// In a tree with consistent sizes, the rows of a live directory's file type
/// breakdown add up to the directory's size.
pub proof fn lemma_breakdown_adds_up_to_dir_size(t: Seq<NodeView>, d: int, ks: Seq<Seq<char>>, rows: Seq<FileTypeTotal>)
    requires
        tree_wf(t),
        sizes_consistent(t),
        0 <= d < t.len(),
        t[d].is_dir,
        !t[d].deleted,
        is_grouping(t, d, ks, rows),
    ensures
        rows_size_sum(rows) == t[d].size,
{
    lemma_grouping_adds_up(t, d, ks, rows);
    lemma_files_make_up_dir_size(t, d);
}

/// The file counts of the groups that the rows name, among the first `n`
/// nodes.
pub open spec fn groups_count_sum(t: Seq<NodeView>, d: int, ks: Seq<Seq<char>>, rows: Seq<FileTypeTotal>, n: int) -> int
    decreases rows.len(),
{
    if rows.len() == 0 {
        0
    } else {
        groups_count_sum(t, d, ks, rows.drop_last(), n) + group_count(t, d, ks, rows.last().extension@, n)
    }
}

/// How many of the groups that the rows name count node `x`.
pub open spec fn group_count_hits(t: Seq<NodeView>, d: int, ks: Seq<Seq<char>>, rows: Seq<FileTypeTotal>, x: int) -> int
    decreases rows.len(),
{
    if rows.len() == 0 {
        0
    } else {
        group_count_hits(t, d, ks, rows.drop_last(), x) + if counted_file(t, d, x) && ks[x] == rows.last().extension@ {
            1int
        } else {
            0
        }
    }
}

/// A counted file is counted by at most one row.
proof fn lemma_count_hits_one(t: Seq<NodeView>, d: int, ks: Seq<Seq<char>>, rows: Seq<FileTypeTotal>, x: int)
    requires
        forall|i: int, k: int| 0 <= i < k < rows.len() ==> (#[trigger] rows[i]).extension@ != (#[trigger] rows[k]).extension@,
    ensures
        group_count_hits(t, d, ks, rows, x) == if counted_file(t, d, x) && exists|i: int|
            0 <= i < rows.len() && (#[trigger] rows[i]).extension@ == ks[x] {
            1int
        } else {
            0
        },
    decreases rows.len(),
{
    if rows.len() > 0 {
        let r2 = rows.drop_last();
        assert forall|i: int, k: int| 0 <= i < k < r2.len() implies (#[trigger] r2[i]).extension@ != (#[trigger] r2[k]).extension@ by {
            assert(r2[i] == rows[i] && r2[k] == rows[k]);
        }
        lemma_count_hits_one(t, d, ks, r2, x);
        let last = rows.len() - 1;
        if exists|i: int| 0 <= i < rows.len() && (#[trigger] rows[i]).extension@ == ks[x] {
            let i = choose|i: int| 0 <= i < rows.len() && (#[trigger] rows[i]).extension@ == ks[x];
            if i < last {
                assert(r2[i] == rows[i]);
                assert(rows[i].extension@ != rows[last].extension@);
            }
        }
        if exists|i: int| 0 <= i < r2.len() && (#[trigger] r2[i]).extension@ == ks[x] {
            let i = choose|i: int| 0 <= i < r2.len() && (#[trigger] r2[i]).extension@ == ks[x];
            assert(rows[i] == r2[i]);
            assert(rows[i].extension@ != rows[last].extension@);
        }
    }
}

/// Taking one more node adds one to the row of its group, if it is a
/// counted file.
proof fn lemma_groups_count_step(t: Seq<NodeView>, d: int, ks: Seq<Seq<char>>, rows: Seq<FileTypeTotal>, n: int)
    requires
        n > 0,
    ensures
        groups_count_sum(t, d, ks, rows, n) == groups_count_sum(t, d, ks, rows, n - 1) + group_count_hits(t, d, ks, rows, n - 1),
    decreases rows.len(),
{
    if rows.len() > 0 {
        lemma_groups_count_step(t, d, ks, rows.drop_last(), n);
    }
}

/// Among no nodes the rows count no file.
proof fn lemma_groups_count_zero(t: Seq<NodeView>, d: int, ks: Seq<Seq<char>>, rows: Seq<FileTypeTotal>)
    ensures
        groups_count_sum(t, d, ks, rows, 0) == 0,
    decreases rows.len(),
{
    if rows.len() > 0 {
        lemma_groups_count_zero(t, d, ks, rows.drop_last());
    }
}

/// Rows that cover every group, one per group, count every reached file.
proof fn lemma_groups_count_add_up(t: Seq<NodeView>, d: int, ks: Seq<Seq<char>>, rows: Seq<FileTypeTotal>, n: int)
    requires
        0 <= n <= t.len(),
        forall|i: int, k: int| 0 <= i < k < rows.len() ==> (#[trigger] rows[i]).extension@ != (#[trigger] rows[k]).extension@,
        rows_cover(t, d, ks, rows, t.len() as int),
    ensures
        groups_count_sum(t, d, ks, rows, n) == files_reached(t, d, n),
    decreases n,
{
    if n == 0 {
        lemma_groups_count_zero(t, d, ks, rows);
    } else {
        lemma_groups_count_add_up(t, d, ks, rows, n - 1);
        lemma_groups_count_step(t, d, ks, rows, n);
        lemma_count_hits_one(t, d, ks, rows, n - 1);
        if counted_file(t, d, n - 1) {
            let i = choose|i: int| 0 <= i < rows.len() && (#[trigger] rows[i]).extension@ == ks[n - 1];
            assert(rows[i].extension@ == ks[n - 1]);
        }
    }
}

/// Rows that total their groups count what their groups count.
proof fn lemma_rows_count_groups(t: Seq<NodeView>, d: int, ks: Seq<Seq<char>>, rows: Seq<FileTypeTotal>)
    requires
        rows_total(t, d, ks, rows, t.len() as int),
    ensures
        rows_count_sum(rows) == groups_count_sum(t, d, ks, rows, t.len() as int),
    decreases rows.len(),
{
    if rows.len() > 0 {
        let r2 = rows.drop_last();
        assert forall|i: int| 0 <= i < r2.len() implies {
            &&& (#[trigger] r2[i]).size == group_size(t, d, ks, r2[i].extension@, t.len() as int)
            &&& r2[i].count == group_count(t, d, ks, r2[i].extension@, t.len() as int)
            &&& group_count(t, d, ks, r2[i].extension@, t.len() as int) > 0
        } by {
            assert(r2[i] == rows[i]);
        }
        lemma_rows_count_groups(t, d, ks, r2);
        assert(rows[rows.len() - 1] == rows[rows.len() - 1]);
    }
}

/// The rows of a grouping count, together, every file reached from the
/// directory: as many as its file count.
pub proof fn lemma_grouping_counts_files(t: Seq<NodeView>, d: int, ks: Seq<Seq<char>>, rows: Seq<FileTypeTotal>)
    requires
        is_grouping(t, d, ks, rows),
    ensures
        rows_count_sum(rows) == files_reached(t, d, t.len() as int),
{
    let n = t.len() as int;
    assert forall|i: int, k: int| 0 <= i < k < rows.len() implies (#[trigger] rows[i]).extension@ != (
    #[trigger] rows[k]).extension@ by {
        assert(row_before(rows[i], rows[k]));
        if rows[i].extension@ == rows[k].extension@ {
            assert(rows[i] == rows[i] && rows[k] == rows[k]);
            crate::filetype::lemma_text_before_irreflexive(rows[i].extension@);
        }
    }
    lemma_rows_count_groups(t, d, ks, rows);
    lemma_groups_count_add_up(t, d, ks, rows, n);
}

/// The sizes of the files reached from `d`, among the first `n` nodes, that
/// go when `k` is deleted.
pub open spec fn removed_size(t: Seq<NodeView>, d: int, k: int, n: int) -> int
    decreases n,
{
    if n <= 0 {
        0
    } else {
        removed_size(t, d, k, n - 1) + if counted_file(t, d, n - 1) && in_removal(t, k, n - 1) {
            t[n - 1].size as int
        } else {
            0
        }
    }
}

/// The number of files reached from `d`, among the first `n` nodes, that go
/// when `k` is deleted.
pub open spec fn removed_count(t: Seq<NodeView>, d: int, k: int, n: int) -> int
    decreases n,
{
    if n <= 0 {
        0
    } else {
        removed_count(t, d, k, n - 1) + if counted_file(t, d, n - 1) && in_removal(t, k, n - 1) {
            1int
        } else {
            0
        }
    }
}

/// After `k` is deleted, a node is reached from `d` when it was before and
/// does not go with `k`.
proof fn lemma_seen_after_removal(t: Seq<NodeView>, k: int, p: bool, d: int, j: int)
    ensures
        seen_from(removal_result(t, k, p), d, j) == (seen_from(t, d, j) && !in_removal(t, k, j)),
    decreases j,
{
    let t2 = removal_result(t, k, p);
    if 0 <= j < t.len() {
        assert(t2[j] == t2[j]);
        if j != d && d < j && t[j].parent is Some && parent_of(t, j) < j {
            let q = parent_of(t, j);
            assert(t2[q] == t2[q]);
            assert(parent_of(t2, j) == q);
            lemma_seen_after_removal(t, k, p, d, q);
            if k > j {
                assert(!in_removal(t, k, q));
            }
        }
    }
}

/// After `k`, all of whose ancestors are directories, is deleted, the files
/// reached from `d` are those reached before that do not go with `k`, with
/// the same sizes.
proof fn lemma_counted_after_removal(t: Seq<NodeView>, k: int, p: bool, d: int, j: int)
    requires
        forall|a: int| is_ancestor(t, a, k) ==> #[trigger] t[a].is_dir,
    ensures
        counted_file(removal_result(t, k, p), d, j) == (counted_file(t, d, j) && !in_removal(t, k, j)),
        counted_file(removal_result(t, k, p), d, j) ==> removal_result(t, k, p)[j].size == t[j].size,
{
    lemma_seen_after_removal(t, k, p, d, j);
    let t2 = removal_result(t, k, p);
    if 0 <= j < t.len() {
        assert(t2[j] == t2[j]);
    }
}

/// What a group counts after `k` is deleted is at most what it counted
/// before.
proof fn lemma_group_after_removal(t: Seq<NodeView>, k: int, p: bool, d: int, ks: Seq<Seq<char>>, e: Seq<char>, n: int)
    requires
        n <= t.len(),
        forall|a: int| is_ancestor(t, a, k) ==> #[trigger] t[a].is_dir,
    ensures
        group_size(removal_result(t, k, p), d, ks, e, n) <= group_size(t, d, ks, e, n),
        group_count(removal_result(t, k, p), d, ks, e, n) <= group_count(t, d, ks, e, n),
    decreases n,
{
    if n > 0 {
        lemma_group_after_removal(t, k, p, d, ks, e, n - 1);
        lemma_counted_after_removal(t, k, p, d, n - 1);
    }
}

/// After `k` is deleted, the files reached from `d` lose exactly the sizes
/// and the number of those that go with `k`.
proof fn lemma_totals_after_removal(t: Seq<NodeView>, k: int, p: bool, d: int, n: int)
    requires
        n <= t.len(),
        forall|a: int| is_ancestor(t, a, k) ==> #[trigger] t[a].is_dir,
    ensures
        counted_size(removal_result(t, k, p), d, n) == counted_size(t, d, n) - removed_size(t, d, k, n),
        files_reached(removal_result(t, k, p), d, n) == files_reached(t, d, n) - removed_count(t, d, k, n),
    decreases n,
{
    if n > 0 {
        lemma_totals_after_removal(t, k, p, d, n - 1);
        lemma_counted_after_removal(t, k, p, d, n - 1);
    }
}

/// Deleting an item, all of whose ancestors are directories, only shrinks
/// the file type breakdown of a directory: every row left has a row before
/// with the same extension and at least its size and count, and the rows
/// lose, together, exactly the sizes and the number of the files reached
/// from the directory that went with the item.
pub proof fn lemma_breakdown_after_delete(
    t: Seq<NodeView>,
    d: int,
    k: int,
    propagate: bool,
    before: Seq<FileTypeTotal>,
    after: Seq<FileTypeTotal>,
)
    requires
        tree_wf(t),
        0 <= k < t.len(),
        forall|a: int| is_ancestor(t, a, k) ==> #[trigger] t[a].is_dir,
        is_breakdown(t, d, before),
        is_breakdown(removal_result(t, k, propagate), d, after),
    ensures
        forall|i: int|
            0 <= i < after.len() ==> exists|q: int|
                0 <= q < before.len() && (#[trigger] before[q]).extension@ == (#[trigger] after[i]).extension@
                    && before[q].size >= after[i].size && before[q].count >= after[i].count,
        rows_size_sum(after) == rows_size_sum(before) - removed_size(t, d, k, t.len() as int),
        rows_count_sum(after) == rows_count_sum(before) - removed_count(t, d, k, t.len() as int),
{
    let t2 = removal_result(t, k, propagate);
    let n = t.len() as int;
    let ks = extension_keys(t);
    assert(extension_keys(t2) =~= ks) by {
        assert forall|j: int| 0 <= j < n implies #[trigger] extension_keys(t2)[j] == ks[j] by {
            assert(t2[j] == t2[j]);
        }
    }
    assert forall|i: int| 0 <= i < after.len() implies exists|q: int|
        0 <= q < before.len() && (#[trigger] before[q]).extension@ == (#[trigger] after[i]).extension@
            && before[q].size >= after[i].size && before[q].count >= after[i].count by {
        let e = after[i].extension@;
        assert(after[i] == after[i]);
        let w = lemma_group_witness(t2, d, ks, e, n);
        lemma_counted_after_removal(t, k, propagate, d, w);
        let q = choose|q: int| 0 <= q < before.len() && (#[trigger] before[q]).extension@ == ks[w];
        assert(before[q] == before[q]);
        lemma_group_after_removal(t, k, propagate, d, ks, e, n);
    }
    lemma_grouping_adds_up(t, d, ks, before);
    lemma_grouping_adds_up(t2, d, ks, after);
    lemma_grouping_counts_files(t, d, ks, before);
    lemma_grouping_counts_files(t2, d, ks, after);
    lemma_totals_after_removal(t, k, propagate, d, n);
}

} // verus!
