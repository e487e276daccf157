//! How many files each directory holds.
use vstd::prelude::*;

use crate::arena::{child_list_count, child_list_get};
use crate::consistency::lemma_chain_child;
use crate::filetype::{counted_file, seen_from};
use crate::tree::{child_ok, is_ancestor, parent_of, parent_ok, tree_wf, DirTree, NodeView};

verus! {

/// The number of files among the first `n` nodes that are reached from `d`
/// (as the breakdown of `d` counts them).
pub open spec fn files_reached(t: Seq<NodeView>, d: int, n: int) -> int
    decreases n,
{
    if n <= 0 {
        0
    } else {
        files_reached(t, d, n - 1) + if counted_file(t, d, n - 1) {
            1int
        } else {
            0
        }
    }
}

/// The files reached from the nodes `ks`, added up, among the first `n` nodes.
pub open spec fn files_reached_from_all(t: Seq<NodeView>, ks: Seq<usize>, n: int) -> int
    decreases ks.len(),
{
    if ks.len() == 0 {
        0
    } else {
        files_reached_from_all(t, ks.drop_last(), n) + files_reached(t, ks.last() as int, n)
    }
}

/// The number of nodes of `ks` from which node `x` is a reached file.
pub open spec fn reaching(t: Seq<NodeView>, ks: Seq<usize>, x: int) -> int
    decreases ks.len(),
{
    if ks.len() == 0 {
        0
    } else {
        reaching(t, ks.drop_last(), x) + if counted_file(t, ks.last() as int, x) {
            1int
        } else {
            0
        }
    }
}

/// A node reached from `d` is `d` or below it, and `d` is live.
pub proof fn lemma_seen_live(t: Seq<NodeView>, d: int, x: int)
    requires
        seen_from(t, d, x),
    ensures
        0 <= d <= x < t.len(),
        !t[d].deleted,
        x == d || is_ancestor(t, d, x),
    decreases x,
{
    if x != d {
        let p = parent_of(t, x);
        lemma_seen_live(t, d, p);
    }
}

/// From a file only the file itself is reached.
pub proof fn lemma_seen_from_file(t: Seq<NodeView>, d: int, x: int)
    requires
        seen_from(t, d, x),
        !t[d].is_dir,
    ensures
        x == d,
    decreases x,
{
    if x != d {
        lemma_seen_from_file(t, d, parent_of(t, x));
    }
}

/// What is reached from a child of a live directory is reached from it.
pub proof fn lemma_seen_lift(t: Seq<NodeView>, d: int, c: int, x: int)
    requires
        tree_wf(t),
        0 <= d < t.len(),
        t[d].is_dir,
        !t[d].deleted,
        0 <= c < t.len(),
        t[c].parent == Some(d as usize),
        seen_from(t, c, x),
    ensures
        seen_from(t, d, x),
    decreases x,
{
    assert(c != 0);
    assert(parent_ok(t, c));
    if x == c {
        assert(seen_from(t, d, d));
    } else {
        let p = parent_of(t, x);
        lemma_seen_live(t, c, p);
        lemma_seen_lift(t, d, c, p);
    }
}

/// What is reached from a live directory, other than itself, is reached from
/// one of its children.
pub proof fn lemma_seen_descend(t: Seq<NodeView>, d: int, x: int) -> (k: int)
    requires
        tree_wf(t),
        0 <= d < t.len(),
        seen_from(t, d, x),
        x != d,
    ensures
        0 <= k < t[d].children.len(),
        seen_from(t, t[d].children[k] as int, x),
    decreases x,
{
    let p = parent_of(t, x);
    assert(x != 0);
    assert(parent_ok(t, x));
    if p == d {
        let k = t[d].children.index_of(x as usize);
        k
    } else {
        let k = lemma_seen_descend(t, d, p);
        let c = t[d].children[k] as int;
        lemma_seen_live(t, c, p);
        assert(child_ok(t, d, k));
        k
    }
}

/// No file is reached from two children of a directory.
pub proof fn lemma_seen_unique(t: Seq<NodeView>, d: int, k1: int, k2: int, x: int)
    requires
        tree_wf(t),
        0 <= d < t.len(),
        0 <= k1 < t[d].children.len(),
        0 <= k2 < t[d].children.len(),
        seen_from(t, t[d].children[k1] as int, x),
        seen_from(t, t[d].children[k2] as int, x),
    ensures
        k1 == k2,
{
    let c1 = t[d].children[k1] as int;
    let c2 = t[d].children[k2] as int;
    assert(child_ok(t, d, k1));
    assert(child_ok(t, d, k2));
    lemma_seen_live(t, c1, x);
    lemma_seen_live(t, c2, x);
    if c1 != x {
        crate::consistency::lemma_ancestor_transitive(t, d, c1, x);
    }
    assert(is_ancestor(t, d, x));
    lemma_chain_child(t, d, x);
    assert(t[c1] == t[c1]);
    assert(t[c2] == t[c2]);
    if k1 != k2 {
        if k1 < k2 {
            assert(t[d].children[k1] < t[d].children[k2]);
        } else {
            assert(t[d].children[k2] < t[d].children[k1]);
        }
    }
}

/// A node is a reached file of at most one child of a directory.
proof fn lemma_reaching_one(t: Seq<NodeView>, d: int, x: int, m: int)
    requires
        tree_wf(t),
        0 <= d < t.len(),
        0 <= m <= t[d].children.len(),
    ensures
        reaching(t, t[d].children.take(m), x) == if exists|k: int|
            0 <= k < m && #[trigger] counted_file(t, t[d].children[k] as int, x) {
            1int
        } else {
            0
        },
    decreases m,
{
    let ks = t[d].children;
    if m > 0 {
        lemma_reaching_one(t, d, x, m - 1);
        assert(ks.take(m).drop_last() =~= ks.take(m - 1));
        assert(ks.take(m).last() == ks[m - 1]);
        if counted_file(t, ks[m - 1] as int, x) {
            if exists|k: int| 0 <= k < m - 1 && #[trigger] counted_file(t, ks[k] as int, x) {
                let k = choose|k: int| 0 <= k < m - 1 && #[trigger] counted_file(t, ks[k] as int, x);
                lemma_seen_unique(t, d, k, m - 1, x);
            }
        } else {
            if exists|k: int| 0 <= k < m && #[trigger] counted_file(t, ks[k] as int, x) {
                let k = choose|k: int| 0 <= k < m && #[trigger] counted_file(t, ks[k] as int, x);
                assert(k < m - 1);
            }
        }
    } else {
        assert(ks.take(0).len() == 0);
    }
}

/// Taking one more node adds the children that reach it.
proof fn lemma_all_step(t: Seq<NodeView>, ks: Seq<usize>, n: int)
    requires
        n > 0,
    ensures
        files_reached_from_all(t, ks, n) == files_reached_from_all(t, ks, n - 1) + reaching(t, ks, n - 1),
    decreases ks.len(),
{
    if ks.len() > 0 {
        lemma_all_step(t, ks.drop_last(), n);
    }
}

/// Among no nodes nothing is reached.
proof fn lemma_all_zero(t: Seq<NodeView>, ks: Seq<usize>)
    ensures
        files_reached_from_all(t, ks, 0) == 0,
    decreases ks.len(),
{
    if ks.len() > 0 {
        lemma_all_zero(t, ks.drop_last());
    }
}

/// The files reached from a live directory are those reached from its
/// children, each counted once.
proof fn lemma_dir_count(t: Seq<NodeView>, d: int, n: int)
    requires
        tree_wf(t),
        0 <= d < t.len(),
        t[d].is_dir,
        !t[d].deleted,
        0 <= n,
    ensures
        files_reached(t, d, n) == files_reached_from_all(t, t[d].children, n),
    decreases n,
{
    let ks = t[d].children;
    if n == 0 {
        lemma_all_zero(t, ks);
    } else {
        lemma_dir_count(t, d, n - 1);
        lemma_all_step(t, ks, n);
        let x = n - 1;
        lemma_reaching_one(t, d, x, ks.len() as int);
        assert(ks.take(ks.len() as int) =~= ks);
        if counted_file(t, d, x) {
            assert(x != d);
            let k = lemma_seen_descend(t, d, x);
            assert(counted_file(t, ks[k] as int, x));
        }
        if exists|k: int| 0 <= k < ks.len() && #[trigger] counted_file(t, ks[k] as int, x) {
            let k = choose|k: int| 0 <= k < ks.len() && #[trigger] counted_file(t, ks[k] as int, x);
            assert(child_ok(t, d, k));
            lemma_seen_lift(t, d, ks[k] as int, x);
        }
    }
}

/// Nothing is reached from a deleted node.
proof fn lemma_count_zero(t: Seq<NodeView>, d: int, n: int)
    requires
        0 <= d < t.len(),
        t[d].deleted,
    ensures
        files_reached(t, d, n) == 0,
    decreases n,
{
    if n > 0 {
        lemma_count_zero(t, d, n - 1);
        if seen_from(t, d, n - 1) {
            lemma_seen_live(t, d, n - 1);
        }
    }
}

/// A live file counts itself once it is among the nodes taken.
proof fn lemma_count_file(t: Seq<NodeView>, d: int, n: int)
    requires
        0 <= d < t.len(),
        !t[d].deleted,
        !t[d].is_dir,
        0 <= n,
    ensures
        files_reached(t, d, n) == if n > d { 1int } else { 0 },
    decreases n,
{
    if n > 0 {
        lemma_count_file(t, d, n - 1);
        if seen_from(t, d, n - 1) {
            lemma_seen_from_file(t, d, n - 1);
        }
        assert(seen_from(t, d, d));
    }
}

/// At most one file is counted per node taken.
proof fn lemma_count_bound(t: Seq<NodeView>, d: int, n: int)
    ensures
        0 <= files_reached(t, d, n) <= if n > 0 { n } else { 0 },
    decreases n,
{
    if n > 0 {
        lemma_count_bound(t, d, n - 1);
    }
}

/// For every node, the number of live files reached from it: 1 for a live
/// file, the files below a live directory, 0 for a deleted item.
pub fn file_counts(tree: &DirTree) -> (r: Vec<u64>)
    requires
        tree.wf(),
    ensures
        r@.len() == tree@.len(),
        forall|j: int| 0 <= j < tree@.len() ==> #[trigger] r@[j] == files_reached(tree@, j, tree@.len() as int),
{
    let ghost t = tree@;
    proof {
        tree.lemma_wf_shape();
    }
    let n = tree.len();
    let mut r: Vec<u64> = Vec::new();
    let mut i: usize = 0;
    while i < n
        invariant
            i <= n,
            r@.len() == i,
        decreases n - i,
    {
        r.push(0);
        i += 1;
    }
    let mut j = n;
    while j > 0
        invariant
            t == tree@,
            tree_wf(t),
            n == t.len(),
            j <= n,
            r@.len() == n,
            forall|i: int| j <= i < n ==> #[trigger] r@[i] == files_reached(t, i, n as int),
        decreases j,
    {
        j -= 1;
        let node = tree.get_node(j);
        let count: u64 = if node.deleted {
            proof {
                lemma_count_zero(t, j as int, n as int);
            }
            0
        } else if !node.is_dir {
            proof {
                lemma_count_file(t, j as int, n as int);
            }
            1
        } else {
            let ghost ks = t[j as int].children;
            let mut sum: u64 = 0;
            let mut k: usize = 0;
            proof {
                lemma_dir_count(t, j as int, n as int);
                lemma_count_bound(t, j as int, n as int);
                lemma_all_prefix_grows(t, ks, 0, n as int);
                assert(ks.take(0) =~= Seq::<usize>::empty());
            }
            while k < child_list_count(&node.children)
                invariant
                    t == tree@,
                    tree_wf(t),
                    n == t.len(),
                    j < n,
                    node@ == t[j as int],
                    ks == t[j as int].children,
                    k <= ks.len(),
                    r@.len() == n,
                    forall|i: int| j < i < n ==> #[trigger] r@[i] == files_reached(t, i, n as int),
                    sum == files_reached_from_all(t, ks.take(k as int), n as int),
                    sum <= files_reached_from_all(t, ks, n as int),
                    files_reached_from_all(t, ks, n as int) == files_reached(t, j as int, n as int),
                    files_reached(t, j as int, n as int) <= n,
                decreases ks.len() - k,
            {
                let c = child_list_get(&node.children, k);
                proof {
                    assert(child_ok(t, j as int, k as int));
                    assert(ks.take(k + 1).drop_last() =~= ks.take(k as int));
                    lemma_all_prefix_grows(t, ks, (k + 1) as int, n as int);
                }
                sum = sum + r[c];
                k += 1;
            }
            proof {
                assert(ks.take(ks.len() as int) =~= ks);
            }
            sum
        };
        proof {
            if !node.deleted && node.is_dir {
                lemma_dir_count(t, j as int, n as int);
            }
        }
        r.set(j, count);
    }
    r
}

/// Counts from more children are no smaller.
proof fn lemma_all_prefix_grows(t: Seq<NodeView>, ks: Seq<usize>, k: int, n: int)
    requires
        0 <= k <= ks.len(),
    ensures
        files_reached_from_all(t, ks.take(k), n) <= files_reached_from_all(t, ks, n),
    decreases ks.len() - k,
{
    if k < ks.len() {
        lemma_all_prefix_grows(t, ks, k + 1, n);
        assert(ks.take(k + 1).drop_last() =~= ks.take(k));
        lemma_count_bound(t, ks[k] as int, n);
    } else {
        assert(ks.take(k) =~= ks);
    }
}

/// The number of files among the first `n` nodes that are `v` itself or lie
/// below it.
pub open spec fn files_below(t: Seq<NodeView>, v: int, n: int) -> int
    decreases n,
{
    if n <= 0 {
        0
    } else {
        files_below(t, v, n - 1) + if !t[n - 1].is_dir && (n - 1 == v || is_ancestor(t, v, n - 1)) {
            1int
        } else {
            0
        }
    }
}

/// As a scan leaves a tree (nothing deleted, every parent a directory), a
/// node is reached from `v` exactly when it is `v` or lies below it.
proof fn lemma_seen_is_below(t: Seq<NodeView>, v: int, j: int)
    requires
        tree_wf(t),
        0 <= v < t.len(),
        0 <= j < t.len(),
        forall|x: int| 0 <= x < t.len() ==> !(#[trigger] t[x]).deleted,
        forall|x: int| 0 < x < t.len() ==> t[parent_of(t, x)].is_dir,
    ensures
        seen_from(t, v, j) == (j == v || is_ancestor(t, v, j)),
    decreases j,
{
    assert(!t[j].deleted);
    if j != v && j > 0 {
        assert(parent_ok(t, j));
        let p = parent_of(t, j);
        assert(t[p].is_dir);
        lemma_seen_is_below(t, v, p);
        if is_ancestor(t, v, j) {
            crate::tree::lemma_ancestor_below(t, v, j);
        }
    }
}

/// On a tree as a scan leaves it (nothing deleted, every parent a
/// directory), the file count of a node is the number of files that are the
/// node itself or lie below it.
pub proof fn lemma_file_count_is_files_below(t: Seq<NodeView>, v: int)
    requires
        tree_wf(t),
        0 <= v < t.len(),
        forall|x: int| 0 <= x < t.len() ==> !(#[trigger] t[x]).deleted,
        forall|x: int| 0 < x < t.len() ==> t[parent_of(t, x)].is_dir,
    ensures
        files_reached(t, v, t.len() as int) == files_below(t, v, t.len() as int),
{
    lemma_files_below_prefix(t, v, t.len() as int);
}

/// The counts agree on every prefix of the nodes.
proof fn lemma_files_below_prefix(t: Seq<NodeView>, v: int, n: int)
    requires
        tree_wf(t),
        0 <= v < t.len(),
        n <= t.len(),
        forall|x: int| 0 <= x < t.len() ==> !(#[trigger] t[x]).deleted,
        forall|x: int| 0 < x < t.len() ==> t[parent_of(t, x)].is_dir,
    ensures
        files_reached(t, v, n) == files_below(t, v, n),
    decreases n,
{
    if n > 0 {
        lemma_files_below_prefix(t, v, n - 1);
        lemma_seen_is_below(t, v, n - 1);
    }
}

} // verus!
