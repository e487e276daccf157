//! Directory sizes that agree with their contents, and why deleting an item
//! keeps them so.
use vstd::prelude::*;

use crate::trav::total_size;
use crate::tree::{
    child_ok, is_ancestor, in_removal, lemma_ancestor_below, lemma_ancestor_step, parent_of, parent_ok,
    removal_result, tree_wf, NodeView,
};

verus! {

/// What child `c` adds to its directory's size: nothing once it is deleted.
pub open spec fn contribution(t: Seq<NodeView>, c: int) -> int {
    if t[c].deleted {
        0
    } else {
        t[c].size as int
    }
}

/// The sum of what the nodes `ks` add to a directory's size.
pub open spec fn visible_sum(t: Seq<NodeView>, ks: Seq<usize>) -> int
    decreases ks.len(),
{
    if ks.len() == 0 {
        0
    } else {
        visible_sum(t, ks.drop_last()) + contribution(t, ks.last() as int)
    }
}

/// A live directory's size is the sum of its live children's sizes.
pub open spec fn dir_consistent(t: Seq<NodeView>, d: int) -> bool {
    t[d].is_dir && !t[d].deleted ==> t[d].size == visible_sum(t, t[d].children)
}

/// A deleted directory has only deleted children.
pub open spec fn deletion_closed(t: Seq<NodeView>, d: int) -> bool {
    t[d].is_dir && t[d].deleted ==> forall|k: int|
        0 <= k < t[d].children.len() ==> #[trigger] t[t[d].children[k] as int].deleted
}

/// Every live directory's size is what its live children add up to, and
/// deleting a directory has deleted what it held.
pub open spec fn sizes_consistent(t: Seq<NodeView>) -> bool {
    &&& forall|d: int| 0 <= d < t.len() ==> #[trigger] dir_consistent(t, d)
    &&& forall|d: int| 0 <= d < t.len() ==> #[trigger] deletion_closed(t, d)
}

/// The child of `d` on the way from `d` down to its descendant `j`.
pub open spec fn chain_child(t: Seq<NodeView>, d: int, j: int) -> int
    decreases j,
{
    if 0 <= j < t.len() && t[j].parent is Some && parent_of(t, j) < j {
        if parent_of(t, j) == d {
            j
        } else {
            chain_child(t, d, parent_of(t, j))
        }
    } else {
        j
    }
}

/// Sizes add up to no less than zero.
proof fn lemma_sum_nonneg(t: Seq<NodeView>, ks: Seq<usize>)
    ensures
        visible_sum(t, ks) >= 0,
    decreases ks.len(),
{
    if ks.len() > 0 {
        lemma_sum_nonneg(t, ks.drop_last());
    }
}

/// A directory's visible sum holds each of its children's contributions.
proof fn lemma_sum_ge(t: Seq<NodeView>, ks: Seq<usize>, m: int)
    requires
        0 <= m < ks.len(),
    ensures
        visible_sum(t, ks) >= contribution(t, ks[m] as int),
    decreases ks.len(),
{
    lemma_sum_nonneg(t, ks.drop_last());
    if m < ks.len() - 1 {
        lemma_sum_ge(t, ks.drop_last(), m);
        assert(ks.drop_last()[m] == ks[m]);
    }
}

/// Two trees in which every listed node contributes the same have the same
/// visible sum.
proof fn lemma_sum_same(t1: Seq<NodeView>, t2: Seq<NodeView>, ks: Seq<usize>)
    requires
        forall|k: int|
            0 <= k < ks.len() ==> #[trigger] contribution(t1, ks[k] as int) == contribution(
                t2,
                ks[k] as int,
            ),
    ensures
        visible_sum(t1, ks) == visible_sum(t2, ks),
    decreases ks.len(),
{
    if ks.len() > 0 {
        let ks2 = ks.drop_last();
        assert forall|k: int| 0 <= k < ks2.len() implies #[trigger] contribution(t1, ks2[k] as int)
            == contribution(t2, ks2[k] as int) by {
            assert(ks2[k] == ks[k]);
        }
        lemma_sum_same(t1, t2, ks2);
        assert(contribution(t1, ks[ks.len() - 1] as int) == contribution(t2, ks[ks.len() - 1] as int));
    }
}

/// When one listed node contributes `s` less and the rest the same, the
/// visible sum is `s` less.
proof fn lemma_sum_one_change(t1: Seq<NodeView>, t2: Seq<NodeView>, ks: Seq<usize>, m: int, s: int)
    requires
        0 <= m < ks.len(),
        forall|k: int|
            0 <= k < ks.len() && k != m ==> #[trigger] contribution(t1, ks[k] as int) == contribution(
                t2,
                ks[k] as int,
            ),
        contribution(t2, ks[m] as int) == contribution(t1, ks[m] as int) - s,
    ensures
        visible_sum(t2, ks) == visible_sum(t1, ks) - s,
    decreases ks.len(),
{
    let ks2 = ks.drop_last();
    let last = ks.len() - 1;
    if m == last {
        assert forall|k: int| 0 <= k < ks2.len() implies #[trigger] contribution(t1, ks2[k] as int)
            == contribution(t2, ks2[k] as int) by {
            assert(ks2[k] == ks[k]);
        }
        lemma_sum_same(t1, t2, ks2);
    } else {
        assert forall|k: int| 0 <= k < ks2.len() && k != m implies #[trigger] contribution(
            t1,
            ks2[k] as int,
        ) == contribution(t2, ks2[k] as int) by {
            assert(ks2[k] == ks[k]);
        }
        assert(ks2[m] == ks[m]);
        lemma_sum_one_change(t1, t2, ks2, m, s);
        assert(contribution(t1, ks[last] as int) == contribution(t2, ks[last] as int));
    }
}

/// The child of `d` towards its descendant `j` exists and is the only child of
/// `d` that is `j` or an ancestor of `j`.
pub proof fn lemma_chain_child(t: Seq<NodeView>, d: int, j: int)
    requires
        tree_wf(t),
        0 <= j < t.len(),
        is_ancestor(t, d, j),
    ensures
        0 < chain_child(t, d, j) < t.len(),
        t[chain_child(t, d, j)].parent == Some(d as usize),
        chain_child(t, d, j) == j || is_ancestor(t, chain_child(t, d, j), j),
        forall|c: int|
            #![trigger t[c]]
            0 <= c < t.len() && t[c].parent == Some(d as usize) && (c == j || is_ancestor(t, c, j))
                ==> c == chain_child(t, d, j),
    decreases j,
{
    let p = parent_of(t, j);
    lemma_ancestor_below(t, d, j);
    assert(j != 0);
    assert(parent_ok(t, j));
    if p == d {
        assert(chain_child(t, d, j) == j);
        assert forall|c: int|
            0 <= c < t.len() && t[c].parent == Some(d as usize) && (c == j || is_ancestor(t, c, j))
                implies c == chain_child(t, d, j) by {
            if c != j {
                assert(c != 0);
                assert(parent_ok(t, c));
                if c != p {
                    assert(is_ancestor(t, c, p));
                    lemma_ancestor_below(t, c, p);
                }
            }
        }
    } else {
        lemma_chain_child(t, d, p);
        let cc = chain_child(t, d, p);
        assert(chain_child(t, d, j) == cc);
        assert(is_ancestor(t, cc, j));
        assert forall|c: int|
            0 <= c < t.len() && t[c].parent == Some(d as usize) && (c == j || is_ancestor(t, c, j))
                implies c == chain_child(t, d, j) by {
            if c == j {
                assert(t[j].parent == Some(p as usize));
            } else if c != p {
                assert(is_ancestor(t, c, p));
                assert(c == cc);
            } else {
                assert(c == cc);
            }
        }
    }
}

/// `a` above `b` above `j` makes `a` an ancestor of `j`.
pub proof fn lemma_ancestor_transitive(t: Seq<NodeView>, a: int, b: int, j: int)
    requires
        is_ancestor(t, a, b),
        is_ancestor(t, b, j),
    ensures
        is_ancestor(t, a, j),
    decreases j,
{
    let p = parent_of(t, j);
    if p != b {
        lemma_ancestor_transitive(t, a, b, p);
    }
}

/// The ancestors of a live node all of whose ancestors are directories are
/// live, and none of them is smaller than it.
proof fn lemma_ancestors_live(t: Seq<NodeView>, j: int)
    requires
        tree_wf(t),
        sizes_consistent(t),
        0 <= j < t.len(),
        !t[j].deleted,
        forall|a: int| is_ancestor(t, a, j) ==> #[trigger] t[a].is_dir,
    ensures
        forall|a: int| is_ancestor(t, a, j) ==> !(#[trigger] t[a].deleted) && t[a].size >= t[j].size,
    decreases j,
{
    if j > 0 {
        let p = parent_of(t, j);
        assert(parent_ok(t, j));
        assert(is_ancestor(t, p, j));
        let m = t[p].children.index_of(j as usize);
        assert(child_ok(t, p, m));
        assert(deletion_closed(t, p));
        assert(!t[p].deleted) by {
            if t[p].deleted {
                assert(t[t[p].children[m] as int].deleted);
            }
        }
        assert(dir_consistent(t, p));
        assert(t[p].is_dir);
        assert(t[p].children[m] == j as usize);
        lemma_sum_ge(t, t[p].children, m);
        assert(t[p].size >= t[j].size);
        assert forall|a: int| is_ancestor(t, a, p) implies #[trigger] t[a].is_dir by {
            assert(is_ancestor(t, a, j));
        }
        lemma_ancestors_live(t, p);
        assert forall|a: int| is_ancestor(t, a, j) implies !(#[trigger] t[a].deleted) && t[a].size
            >= t[j].size by {
            if a != p {
                assert(is_ancestor(t, a, p));
                assert(!t[a].deleted);
            }
        }
    } else {
        assert forall|a: int| is_ancestor(t, a, j) implies !(#[trigger] t[a].deleted) && t[a].size
            >= t[j].size by {
        }
    }
}

/// Every ancestor of a live node, all of whose ancestors are live
/// directories, is at least as large as it, when live directories' sizes
/// are their live children's sums.
proof fn lemma_ancestors_hold_size(t: Seq<NodeView>, j: int)
    requires
        tree_wf(t),
        forall|d: int| 0 <= d < t.len() ==> #[trigger] dir_consistent(t, d),
        0 <= j < t.len(),
        !t[j].deleted,
        forall|a: int| is_ancestor(t, a, j) ==> #[trigger] t[a].is_dir && !t[a].deleted,
    ensures
        forall|a: int| is_ancestor(t, a, j) ==> (#[trigger] t[a].size) >= t[j].size,
    decreases j,
{
    if j > 0 {
        let p = parent_of(t, j);
        assert(parent_ok(t, j));
        assert(is_ancestor(t, p, j));
        let m = t[p].children.index_of(j as usize);
        assert(child_ok(t, p, m));
        assert(dir_consistent(t, p));
        assert(t[p].children[m] == j as usize);
        lemma_sum_ge(t, t[p].children, m);
        assert forall|a: int| is_ancestor(t, a, p) implies #[trigger] t[a].is_dir && !t[a].deleted by {
            assert(is_ancestor(t, a, j));
        }
        lemma_ancestors_hold_size(t, p);
        assert forall|a: int| is_ancestor(t, a, j) implies (#[trigger] t[a].size) >= t[j].size by {
            if a != p {
                assert(is_ancestor(t, a, p));
            }
        }
    }
}

/// Deleting a live item, all of whose ancestors are live directories, with
/// its size taken off those ancestors, keeps every live directory's size
/// equal to the sum of its live children's sizes.
pub proof fn lemma_delete_keeps_dir_sizes(t: Seq<NodeView>, idx: int)
    requires
        tree_wf(t),
        forall|d: int| 0 <= d < t.len() ==> #[trigger] dir_consistent(t, d),
        0 <= idx < t.len(),
        !t[idx].deleted,
        forall|a: int| is_ancestor(t, a, idx) ==> #[trigger] t[a].is_dir && !t[a].deleted,
    ensures
        forall|d: int| 0 <= d < t.len() ==> #[trigger] dir_consistent(removal_result(t, idx, true), d),
{
    let t2 = removal_result(t, idx, true);
    let s = t[idx].size as int;
    lemma_ancestors_hold_size(t, idx);
    assert forall|d: int| 0 <= d < t2.len() implies #[trigger] dir_consistent(t2, d) by {
        assert(t2[d] == t2[d]);
        if t2[d].is_dir && !t2[d].deleted {
            assert(dir_consistent(t, d));
            let ks = t[d].children;
            assert(t2[d].children == ks);
            if is_ancestor(t, d, idx) {
                lemma_ancestor_below(t, d, idx);
                lemma_chain_child(t, d, idx);
                let cs = chain_child(t, d, idx);
                assert(parent_ok(t, cs));
                let m = ks.index_of(cs as usize);
                assert(ks[m] == cs as usize);
                assert forall|k: int| 0 <= k < ks.len() && k != m implies #[trigger] contribution(
                    t,
                    ks[k] as int,
                ) == contribution(t2, ks[k] as int) by {
                    let c = ks[k] as int;
                    assert(child_ok(t, d, k));
                    assert(ks[k] != ks[m]) by {
                        if k < m {
                            assert(ks[k] < ks[m]);
                        } else {
                            assert(ks[m] < ks[k]);
                        }
                    }
                    assert(!is_ancestor(t, c, idx));
                    assert(c != idx);
                    assert(!in_removal(t, idx, c));
                    assert(t2[c] == t2[c]);
                }
                assert(child_ok(t, d, m));
                assert(t2[cs] == t2[cs]);
                if cs != idx {
                    assert(!in_removal(t, idx, cs)) by {
                        lemma_ancestor_below(t, cs, idx);
                        if in_removal(t, idx, cs) {
                            crate::tree::lemma_removal_above(t, idx, cs);
                        }
                    }
                    assert(is_ancestor(t, cs, idx));
                    assert(!t[cs].deleted);
                    assert(t[cs].size >= s);
                }
                lemma_sum_one_change(t, t2, ks, m, s);
                assert(!t[d].deleted);
                assert(t[d].size >= s);
            } else {
                assert forall|k: int| 0 <= k < ks.len() implies #[trigger] contribution(t, ks[k] as int)
                    == contribution(t2, ks[k] as int) by {
                    let c = ks[k] as int;
                    assert(child_ok(t, d, k));
                    if is_ancestor(t, c, idx) {
                        lemma_ancestor_step(t, c, idx);
                    }
                    assert(c != idx);
                    if in_removal(t, idx, c) {
                        assert(in_removal(t, idx, d));
                    }
                    assert(t2[c] == t2[c]);
                }
                lemma_sum_same(t, t2, ks);
            }
        }
    }
}

/// Deleting a live item, all of whose ancestors are directories, with its size
/// taken off those ancestors, leaves every live directory's size equal to the
/// sum of its live children's sizes.
pub proof fn lemma_delete_keeps_sizes_consistent(t: Seq<NodeView>, idx: int)
    requires
        tree_wf(t),
        sizes_consistent(t),
        0 <= idx < t.len(),
        !t[idx].deleted,
        forall|a: int| is_ancestor(t, a, idx) ==> #[trigger] t[a].is_dir,
    ensures
        sizes_consistent(removal_result(t, idx, true)),
{
    let t2 = removal_result(t, idx, true);
    let s = t[idx].size as int;
    lemma_ancestors_live(t, idx);
    lemma_delete_keeps_dir_sizes(t, idx);
    assert forall|d: int| 0 <= d < t2.len() implies #[trigger] deletion_closed(t2, d) by {
        assert(t2[d] == t2[d]);
        if t2[d].is_dir && t2[d].deleted {
            assert forall|k: int| 0 <= k < t2[d].children.len() implies #[trigger] t2[t2[d].children[k] as int].deleted by {
                assert(child_ok(t, d, k));
                let c = t[d].children[k] as int;
                assert(t2[c] == t2[c]);
                if t[d].deleted {
                    assert(deletion_closed(t, d));
                } else {
                    assert(in_removal(t, idx, d));
                    crate::tree::lemma_removal_above(t, idx, d);
                    assert(in_removal(t, idx, c));
                }
            }
        }
    }
}

/// With nothing deleted, the visible sum is the plain total.
proof fn lemma_sum_without_deletions(t: Seq<NodeView>, ks: Seq<usize>)
    requires
        forall|i: int| 0 <= i < ks.len() ==> !(#[trigger] t[ks[i] as int]).deleted,
    ensures
        visible_sum(t, ks) == total_size(t, ks),
    decreases ks.len(),
{
    if ks.len() > 0 {
        let ks2 = ks.drop_last();
        assert forall|i: int| 0 <= i < ks2.len() implies !(#[trigger] t[ks2[i] as int]).deleted by {
            assert(ks2[i] == ks[i]);
        }
        lemma_sum_without_deletions(t, ks2);
        assert(!t[ks[ks.len() - 1] as int].deleted);
    }
}

/// A freshly scanned tree, where nothing is deleted and every directory's
/// size is the sum of its children's sizes, has consistent sizes.
pub proof fn lemma_scanned_tree_consistent(t: Seq<NodeView>)
    requires
        tree_wf(t),
        forall|j: int| 0 <= j < t.len() ==> !(#[trigger] t[j]).deleted,
        forall|d: int| 0 <= d < t.len() && (#[trigger] t[d]).is_dir ==> t[d].size == total_size(t, t[d].children),
    ensures
        sizes_consistent(t),
{
    assert forall|d: int| 0 <= d < t.len() implies #[trigger] dir_consistent(t, d) by {
        if t[d].is_dir {
            assert forall|i: int| 0 <= i < t[d].children.len() implies !(#[trigger] t[t[d].children[i] as int]).deleted by {
                assert(child_ok(t, d, i));
            }
            lemma_sum_without_deletions(t, t[d].children);
        }
    }
    assert forall|d: int| 0 <= d < t.len() implies #[trigger] deletion_closed(t, d) by {
        assert(!t[d].deleted);
    }
}

} // verus!
