//! The listing of a directory: its live children, largest first.
use vstd::prelude::*;

use crate::arena::{child_indices, child_list_count, child_list_get};
use crate::tree::{child_ok, tree_wf, DirTree, NodeView};

verus! {

/// `a` is listed before `b`: it is larger, or as large and earlier in the
/// tree. Children are kept in increasing index order, so among equal sizes
/// this keeps the order in which they were found.
pub open spec fn key_before(t: Seq<NodeView>, a: usize, b: usize) -> bool {
    t[a as int].size > t[b as int].size || (t[a as int].size == t[b as int].size && a < b)
}

/// Each node of `s` is listed before every node after it.
pub open spec fn listed(t: Seq<NodeView>, s: Seq<usize>) -> bool {
    forall|i: int, j: int| 0 <= i < j < s.len() ==> key_before(t, #[trigger] s[i], #[trigger] s[j])
}

/// The nodes of `ks` that are not deleted, in order.
pub open spec fn live_of(t: Seq<NodeView>, ks: Seq<usize>) -> Seq<usize>
    decreases ks.len(),
{
    if ks.len() == 0 {
        Seq::empty()
    } else if t[ks.last() as int].deleted {
        live_of(t, ks.drop_last())
    } else {
        live_of(t, ks.drop_last()).push(ks.last())
    }
}

/// `r` lists the live children of `p`, each once, largest first.
pub open spec fn is_listing(t: Seq<NodeView>, p: int, r: Seq<usize>) -> bool {
    &&& listed(t, r)
    &&& r.to_multiset() == live_of(t, t[p].children).to_multiset()
}

/// The listing of the directory `p`.
pub open spec fn visible_order(t: Seq<NodeView>, p: int) -> Seq<usize> {
    choose|r: Seq<usize>| is_listing(t, p, r)
}

/// A sequence with `y` pushed holds what it held, and `y`.
pub proof fn lemma_push_contains(s: Seq<usize>, y: usize, x: usize)
    ensures
        s.push(y).contains(x) <==> s.contains(x) || x == y,
{
    if s.push(y).contains(x) && x != y {
        let i = s.push(y).index_of(x);
        assert(s[i] == x);
    }
    if s.contains(x) {
        let i = s.index_of(x);
        assert(s.push(y)[i] == x);
    }
    assert(s.push(y)[s.len() as int] == y);
}

/// The live nodes of `ks` are the nodes of `ks` that are not deleted.
pub proof fn lemma_live_of_contains(t: Seq<NodeView>, ks: Seq<usize>, x: usize)
    ensures
        live_of(t, ks).contains(x) <==> ks.contains(x) && !t[x as int].deleted,
    decreases ks.len(),
{
    if ks.len() > 0 {
        let ks2 = ks.drop_last();
        lemma_live_of_contains(t, ks2, x);
        assert(ks =~= ks2.push(ks.last()));
        lemma_push_contains(ks2, ks.last(), x);
        lemma_push_contains(live_of(t, ks2), ks.last(), x);
    }
}

/// Two listings of the same nodes are the same.
pub proof fn lemma_listing_unique(t: Seq<NodeView>, r1: Seq<usize>, r2: Seq<usize>)
    requires
        listed(t, r1),
        listed(t, r2),
        r1.to_multiset() == r2.to_multiset(),
    ensures
        r1 == r2,
    decreases r1.len(),
{
    broadcast use vstd::seq_lib::group_to_multiset_ensures;

    if r1.len() == 0 {
        vstd::seq_lib::to_multiset_len(r1);
        vstd::seq_lib::to_multiset_len(r2);
        assert(r2 =~= r1);
    } else {
        vstd::seq_lib::to_multiset_len(r1);
        vstd::seq_lib::to_multiset_len(r2);
        assert(r2.len() == r1.len());
        let x1 = r1[0];
        let x2 = r2[0];
        assert(r1.to_multiset().count(x1) > 0);
        assert(r2.contains(x1));
        assert(r2.to_multiset().count(x2) > 0);
        assert(r1.contains(x2));
        if x1 != x2 {
            let k1 = r1.index_of(x2);
            let k2 = r2.index_of(x1);
            assert(key_before(t, r1[0], r1[k1]));
            assert(key_before(t, r2[0], r2[k2]));
        }
        vstd::seq_lib::to_multiset_remove(r1, 0);
        vstd::seq_lib::to_multiset_remove(r2, 0);
        assert(r1.remove(0) =~= r1.drop_first());
        assert(r2.remove(0) =~= r2.drop_first());
        let d1 = r1.drop_first();
        let d2 = r2.drop_first();
        assert(listed(t, d1)) by {
            assert forall|i: int, j: int| 0 <= i < j < d1.len() implies key_before(t, #[trigger] d1[i], #[trigger] d1[j]) by {
                assert(d1[i] == r1[i + 1] && d1[j] == r1[j + 1]);
            }
        }
        assert(listed(t, d2)) by {
            assert forall|i: int, j: int| 0 <= i < j < d2.len() implies key_before(t, #[trigger] d2[i], #[trigger] d2[j]) by {
                assert(d2[i] == r2[i + 1] && d2[j] == r2[j + 1]);
            }
        }
        lemma_listing_unique(t, d1, d2);
        assert(r1 =~= r2) by {
            assert forall|i: int| 0 <= i < r1.len() implies r1[i] == r2[i] by {
                if i > 0 {
                    assert(r1[i] == d1[i - 1]);
                    assert(r2[i] == d2[i - 1]);
                }
            }
        }
    }
}

/// `x` put into the listing `r` just before the first node it is listed
/// before.
pub open spec fn insert_listed(t: Seq<NodeView>, r: Seq<usize>, x: usize) -> Seq<usize>
    decreases r.len(),
{
    if r.len() == 0 {
        seq![x]
    } else if key_before(t, x, r[0]) {
        seq![x] + r
    } else {
        seq![r[0]] + insert_listed(t, r.drop_first(), x)
    }
}

/// Putting a new node into a listing keeps it a listing, of one more node.
proof fn lemma_insert_listed(t: Seq<NodeView>, r: Seq<usize>, x: usize)
    requires
        listed(t, r),
        !r.contains(x),
    ensures
        listed(t, insert_listed(t, r, x)),
        insert_listed(t, r, x).to_multiset() == r.to_multiset().insert(x),
    decreases r.len(),
{
    broadcast use vstd::seq_lib::group_to_multiset_ensures;

    if r.len() == 0 {
        assert(seq![x] =~= Seq::<usize>::empty().push(x));
    } else if key_before(t, x, r[0]) {
        let s = seq![x] + r;
        assert(s =~= r.insert(0, x));
        vstd::seq_lib::to_multiset_insert(r, 0, x);
        assert forall|i: int, j: int| 0 <= i < j < s.len() implies key_before(t, #[trigger] s[i], #[trigger] s[j]) by {
            if i == 0 {
                assert(s[j] == r[j - 1]);
                if j > 1 {
                    assert(key_before(t, r[0], r[j - 1]));
                }
            } else {
                assert(s[i] == r[i - 1] && s[j] == r[j - 1]);
            }
        }
    } else {
        let rest = r.drop_first();
        assert(listed(t, rest)) by {
            assert forall|i: int, j: int| 0 <= i < j < rest.len() implies key_before(t, #[trigger] rest[i], #[trigger] rest[j]) by {
                assert(rest[i] == r[i + 1] && rest[j] == r[j + 1]);
            }
        }
        assert(!rest.contains(x)) by {
            if rest.contains(x) {
                let k = rest.index_of(x);
                assert(r[k + 1] == x);
            }
        }
        lemma_insert_listed(t, rest, x);
        let ins = insert_listed(t, rest, x);
        let s = seq![r[0]] + ins;
        assert(s =~= ins.insert(0, r[0]));
        vstd::seq_lib::to_multiset_insert(ins, 0, r[0]);
        assert(r =~= rest.insert(0, r[0]));
        vstd::seq_lib::to_multiset_insert(rest, 0, r[0]);
        assert(r[0] != x) by {
            assert(r[0] == r[0]);
        }
        assert(key_before(t, r[0], x));
        assert forall|i: int, j: int| 0 <= i < j < s.len() implies key_before(t, #[trigger] s[i], #[trigger] s[j]) by {
            if i == 0 {
                let y = s[j];
                assert(y == ins[j - 1]);
                assert(ins.contains(y));
                assert(ins.to_multiset().count(y) > 0);
                if y != x {
                    assert(rest.to_multiset().count(y) > 0);
                    assert(rest.contains(y));
                    let k = rest.index_of(y);
                    assert(r[k + 1] == y);
                }
            } else {
                assert(s[i] == ins[i - 1] && s[j] == ins[j - 1]);
            }
        }
        assert(s.to_multiset() =~= r.to_multiset().insert(x));
    }
}

/// Distinct nodes can be put in a listing.
proof fn lemma_listing_of(t: Seq<NodeView>, s: Seq<usize>) -> (r: Seq<usize>)
    requires
        forall|i: int, j: int| 0 <= i < j < s.len() ==> s[i] != s[j],
    ensures
        listed(t, r),
        r.to_multiset() == s.to_multiset(),
    decreases s.len(),
{
    broadcast use vstd::seq_lib::group_to_multiset_ensures;

    if s.len() == 0 {
        Seq::empty()
    } else {
        let front = s.drop_last();
        let x = s.last();
        let r0 = lemma_listing_of(t, front);
        assert(!front.contains(x)) by {
            if front.contains(x) {
                let k = front.index_of(x);
                assert(s[k] == s[s.len() - 1]);
            }
        }
        assert(!r0.contains(x)) by {
            if r0.contains(x) {
                assert(r0.to_multiset().count(x) > 0);
            }
        }
        lemma_insert_listed(t, r0, x);
        assert(s =~= front.push(x));
        insert_listed(t, r0, x)
    }
}

/// The live nodes of an increasing list are distinct, and no more than the
/// list holds.
proof fn lemma_live_of_distinct(t: Seq<NodeView>, ks: Seq<usize>)
    requires
        forall|k1: int, k2: int| 0 <= k1 < k2 < ks.len() ==> #[trigger] ks[k1] < #[trigger] ks[k2],
    ensures
        forall|i: int, j: int| 0 <= i < j < live_of(t, ks).len() ==> live_of(t, ks)[i] != live_of(t, ks)[j],
        live_of(t, ks).len() <= ks.len(),
    decreases ks.len(),
{
    if ks.len() > 0 {
        let ks2 = ks.drop_last();
        let x = ks.last();
        assert forall|k1: int, k2: int| 0 <= k1 < k2 < ks2.len() implies #[trigger] ks2[k1] < #[trigger] ks2[k2] by {
            assert(ks2[k1] == ks[k1] && ks2[k2] == ks[k2]);
        }
        lemma_live_of_distinct(t, ks2);
        lemma_live_of_contains(t, ks2, x);
        assert(!ks2.contains(x)) by {
            if ks2.contains(x) {
                let k = ks2.index_of(x);
                assert(ks[k] < ks[ks.len() - 1]);
            }
        }
        let l2 = live_of(t, ks2);
        if !t[x as int].deleted {
            let l = l2.push(x);
            assert(live_of(t, ks) == l);
            assert forall|i: int, j: int| 0 <= i < j < l.len() implies l[i] != l[j] by {
                if j == l.len() - 1 {
                    assert(l[i] == l2[i]);
                    assert(l2.contains(l2[i]));
                } else {
                    assert(l[i] == l2[i] && l[j] == l2[j]);
                }
            }
        }
    }
}

/// In a well-formed tree the listing of a directory is a listing: each of
/// its live children once, largest first; so it holds distinct nodes, each
/// a live child of the directory, and fewer than the tree holds.
pub proof fn lemma_visible_order_is_listing(t: Seq<NodeView>, p: int)
    requires
        tree_wf(t),
        0 <= p < t.len(),
    ensures
        is_listing(t, p, visible_order(t, p)),
        visible_order(t, p).len() < t.len(),
        forall|i: int|
            0 <= i < visible_order(t, p).len() ==> {
                &&& t[p].children.contains(#[trigger] visible_order(t, p)[i])
                &&& !t[visible_order(t, p)[i] as int].deleted
                &&& visible_order(t, p)[i] < t.len()
            },
        forall|i: int, j: int|
            0 <= i < j < visible_order(t, p).len() ==> visible_order(t, p)[i] != visible_order(t, p)[j],
{
    broadcast use vstd::seq_lib::group_to_multiset_ensures;

    let ks = t[p].children;
    lemma_live_of_distinct(t, ks);
    let w = lemma_listing_of(t, live_of(t, ks));
    assert(is_listing(t, p, w));
    let r = visible_order(t, p);
    assert(is_listing(t, p, r));
    assert forall|k: int| 0 <= k < ks.len() implies p + 1 <= #[trigger] ks[k] < t.len() by {
        assert(child_ok(t, p, k));
    }
    crate::tree::lemma_increasing_len(ks, p + 1, t.len() as int);
    assert(r.len() == r.to_multiset().len());
    assert(live_of(t, ks).len() == live_of(t, ks).to_multiset().len());
    assert forall|i: int| 0 <= i < r.len() implies {
        &&& t[p].children.contains(#[trigger] r[i])
        &&& !t[r[i] as int].deleted
        &&& r[i] < t.len()
    } by {
        let y = r[i];
        assert(r.contains(y));
        assert(r.to_multiset().count(y) > 0);
        assert(live_of(t, ks).contains(y));
        lemma_live_of_contains(t, ks, y);
        let k = ks.index_of(y);
        assert(child_ok(t, p, k));
    }
    assert forall|i: int, j: int| 0 <= i < j < r.len() implies r[i] != r[j] by {
        assert(key_before(t, r[i], r[j]));
    }
}

/// Whether node `a` is listed before node `b`.
fn is_listed_before(tree: &DirTree, a: usize, b: usize) -> (r: bool)
    requires
        a < tree@.len(),
        b < tree@.len(),
    ensures
        r == key_before(tree@, a, b),
{
    let sa = tree.get_node(a).size;
    let sb = tree.get_node(b).size;
    sa > sb || (sa == sb && a < b)
}

/// Merges two listings of disjoint sets of nodes.
fn merge_listings(tree: &DirTree, a: Vec<usize>, b: Vec<usize>) -> (r: Vec<usize>)
    requires
        listed(tree@, a@),
        listed(tree@, b@),
        forall|i: int| 0 <= i < a@.len() ==> #[trigger] a@[i] < tree@.len(),
        forall|i: int| 0 <= i < b@.len() ==> #[trigger] b@[i] < tree@.len(),
        forall|i: int, j: int| 0 <= i < a@.len() && 0 <= j < b@.len() ==> #[trigger] a@[i] != #[trigger] b@[j],
    ensures
        listed(tree@, r@),
        r@.to_multiset() == a@.to_multiset().add(b@.to_multiset()),
        forall|i: int| 0 <= i < r@.len() ==> #[trigger] r@[i] < tree@.len(),
{
    broadcast use vstd::seq_lib::group_to_multiset_ensures;
    broadcast use vstd::multiset::group_multiset_axioms;

    let ghost t = tree@;
    let mut r: Vec<usize> = Vec::new();
    assert(a@.take(0) =~= Seq::<usize>::empty());
    assert(b@.take(0) =~= Seq::<usize>::empty());
    assert(r@.to_multiset() =~= a@.take(0).to_multiset().add(b@.take(0).to_multiset()));
    let mut i: usize = 0;
    let mut j: usize = 0;
    while i < a.len() || j < b.len()
        invariant
            t == tree@,
            listed(t, a@),
            listed(t, b@),
            forall|p: int| 0 <= p < a@.len() ==> #[trigger] a@[p] < t.len(),
            forall|q: int| 0 <= q < b@.len() ==> #[trigger] b@[q] < t.len(),
            forall|p: int, q: int| 0 <= p < a@.len() && 0 <= q < b@.len() ==> #[trigger] a@[p] != #[trigger] b@[q],
            i <= a@.len(),
            j <= b@.len(),
            listed(t, r@),
            forall|k: int| 0 <= k < r@.len() ==> #[trigger] r@[k] < t.len(),
            r@.to_multiset() == a@.take(i as int).to_multiset().add(b@.take(j as int).to_multiset()),
            forall|k: int, p: int|
                0 <= k < r@.len() && i <= p < a@.len() ==> key_before(t, #[trigger] r@[k], #[trigger] a@[p]),
            forall|k: int, q: int|
                0 <= k < r@.len() && j <= q < b@.len() ==> key_before(t, #[trigger] r@[k], #[trigger] b@[q]),
        decreases a@.len() + b@.len() - i - j,
    {
        let take_a = if j >= b.len() {
            true
        } else if i >= a.len() {
            false
        } else {
            is_listed_before(tree, a[i], b[j])
        };
        let ghost r0 = r@;
        if take_a {
            let x = a[i];
            r.push(x);
            proof {
                assert(a@.take(i + 1) =~= a@.take(i as int).push(x));
                assert forall|k: int, q: int|
                    0 <= k < r@.len() && j <= q < b@.len() implies key_before(t, #[trigger] r@[k], #[trigger] b@[q]) by {
                    if k == r0.len() && q > j {
                        assert(key_before(t, b@[j as int], b@[q]));
                    }
                }
                assert forall|k: int, p: int|
                    0 <= k < r@.len() && i + 1 <= p < a@.len() implies key_before(t, #[trigger] r@[k], #[trigger] a@[p]) by {
                    if k == r0.len() {
                        assert(key_before(t, a@[i as int], a@[p]));
                    } else {
                        assert(r@[k] == r0[k]);
                    }
                }
                assert forall|k1: int, k2: int| 0 <= k1 < k2 < r@.len() implies key_before(t, #[trigger] r@[k1], #[trigger] r@[k2]) by {
                    if k2 == r0.len() {
                        assert(r@[k1] == r0[k1]);
                    } else {
                        assert(r@[k1] == r0[k1] && r@[k2] == r0[k2]);
                    }
                }
                assert(r@ == r0.push(x));
                vstd::seq_lib::to_multiset_build(r0, x);
                vstd::seq_lib::to_multiset_build(a@.take(i as int), x);
                assert(r@.to_multiset() == r0.to_multiset().insert(x));
                assert(a@.take(i + 1).to_multiset() == a@.take(i as int).to_multiset().insert(x));
                assert(r@.to_multiset() =~= a@.take(i + 1).to_multiset().add(b@.take(j as int).to_multiset()));
            }
            i += 1;
        } else {
            let x = b[j];
            r.push(x);
            proof {
                assert(b@.take(j + 1) =~= b@.take(j as int).push(x));
                if i < a@.len() {
                    assert(a@[i as int] != b@[j as int]);
                }
                assert forall|k: int, p: int|
                    0 <= k < r@.len() && i <= p < a@.len() implies key_before(t, #[trigger] r@[k], #[trigger] a@[p]) by {
                    if k == r0.len() {
                        assert(a@[i as int] != b@[j as int]);
                        if p > i {
                            assert(key_before(t, a@[i as int], a@[p]));
                        }
                    } else {
                        assert(r@[k] == r0[k]);
                    }
                }
                assert forall|k: int, q: int|
                    0 <= k < r@.len() && j + 1 <= q < b@.len() implies key_before(t, #[trigger] r@[k], #[trigger] b@[q]) by {
                    if k == r0.len() {
                        assert(key_before(t, b@[j as int], b@[q]));
                    } else {
                        assert(r@[k] == r0[k]);
                    }
                }
                assert forall|k1: int, k2: int| 0 <= k1 < k2 < r@.len() implies key_before(t, #[trigger] r@[k1], #[trigger] r@[k2]) by {
                    if k2 == r0.len() {
                        assert(r@[k1] == r0[k1]);
                    } else {
                        assert(r@[k1] == r0[k1] && r@[k2] == r0[k2]);
                    }
                }
                assert(r@ == r0.push(x));
                vstd::seq_lib::to_multiset_build(r0, x);
                vstd::seq_lib::to_multiset_build(b@.take(j as int), x);
                assert(r@.to_multiset() == r0.to_multiset().insert(x));
                assert(b@.take(j + 1).to_multiset() == b@.take(j as int).to_multiset().insert(x));
                assert(r@.to_multiset() =~= a@.take(i as int).to_multiset().add(b@.take(j + 1).to_multiset()));
            }
            j += 1;
        }
    }
    assert(a@.take(a@.len() as int) =~= a@);
    assert(b@.take(b@.len() as int) =~= b@);
    r
}

/// Sorts distinct nodes into a listing.
fn sort_listing(tree: &DirTree, v: Vec<usize>) -> (r: Vec<usize>)
    requires
        forall|i: int| 0 <= i < v@.len() ==> #[trigger] v@[i] < tree@.len(),
        forall|i: int, j: int| 0 <= i < j < v@.len() ==> #[trigger] v@[i] != #[trigger] v@[j],
    ensures
        listed(tree@, r@),
        r@.to_multiset() == v@.to_multiset(),
        forall|i: int| 0 <= i < r@.len() ==> #[trigger] r@[i] < tree@.len(),
    decreases v@.len(),
{
    broadcast use vstd::seq_lib::group_to_multiset_ensures;

    if v.len() <= 1 {
        return v;
    }
    let ghost v0 = v@;
    let mut left = v;
    let mid = left.len() / 2;
    let right = left.split_off(mid);
    let ghost l0 = left@;
    let ghost r0 = right@;
    assert(v0 =~= l0 + r0);
    let sl = sort_listing(tree, left);
    let sr = sort_listing(tree, right);
    proof {
        assert forall|i: int, j: int| 0 <= i < sl@.len() && 0 <= j < sr@.len() implies #[trigger] sl@[i]
            != #[trigger] sr@[j] by {
            if sl@[i] == sr@[j] {
                let x = sl@[i];
                assert(sl@.to_multiset().count(x) > 0);
                assert(sr@.to_multiset().count(x) > 0);
                assert(l0.contains(x));
                assert(r0.contains(x));
                let p = l0.index_of(x);
                let q = r0.index_of(x);
                assert(v0[p] == v0[mid + q]);
            }
        }
        vstd::seq_lib::lemma_multiset_commutative(l0, r0);
    }
    merge_listings(tree, sl, sr)
}

/// The live children of `parent_idx`, largest first; among equal sizes, in
/// the order they were added.
pub fn visible_children(tree: &DirTree, parent_idx: usize) -> (r: Vec<usize>)
    requires
        tree.wf(),
        parent_idx < tree@.len(),
    ensures
        is_listing(tree@, parent_idx as int, r@),
        r@ == visible_order(tree@, parent_idx as int),
        forall|x: usize|
            r@.contains(x) <==> tree@[parent_idx as int].children.contains(x) && !tree@[x as int].deleted,
        forall|i: int| 0 <= i < r@.len() ==> #[trigger] r@[i] < tree@.len(),
{
    broadcast use vstd::seq_lib::group_to_multiset_ensures;

    proof {
        tree.lemma_wf_shape();
    }
    let ghost t = tree@;
    let node = tree.get_node(parent_idx);
    let ghost ks = child_indices(node.children);
    let mut live: Vec<usize> = Vec::new();
    let mut k: usize = 0;
    while k < child_list_count(&node.children)
        invariant
            t == tree@,
            tree_wf(t),
            parent_idx < t.len(),
            ks == t[parent_idx as int].children,
            ks == child_indices(node.children),
            k <= ks.len(),
            live@ == live_of(t, ks.take(k as int)),
            forall|i: int| 0 <= i < live@.len() ==> #[trigger] live@[i] < t.len(),
            forall|i: int, j: int| 0 <= i < j < live@.len() ==> #[trigger] live@[i] < #[trigger] live@[j],
            forall|i: int| 0 <= i < live@.len() ==> #[trigger] live@[i] < ks[k as int] || k == ks.len(),
        decreases ks.len() - k,
    {
        let c = child_list_get(&node.children, k);
        proof {
            assert(child_ok(t, parent_idx as int, k as int));
            assert(ks.take(k + 1).drop_last() =~= ks.take(k as int));
            if k + 1 < ks.len() {
                assert(ks[k as int] < ks[k + 1]);
            }
        }
        if !tree.get_node(c).deleted {
            live.push(c);
        }
        k += 1;
    }
    assert(ks.take(ks.len() as int) =~= ks);
    let r = sort_listing(tree, live);
    proof {
        let lv = live_of(t, ks);
        assert(r@.to_multiset() == lv.to_multiset());
        assert(is_listing(t, parent_idx as int, r@));
        let w = visible_order(t, parent_idx as int);
        assert(is_listing(t, parent_idx as int, w));
        lemma_listing_unique(t, r@, w);
        assert forall|x: usize| r@.contains(x) <==> ks.contains(x) && !t[x as int].deleted by {
            lemma_live_of_contains(t, ks, x);
            assert(r@.contains(x) <==> r@.to_multiset().count(x) > 0);
            assert(lv.contains(x) <==> lv.to_multiset().count(x) > 0);
        }
    }
    r
}

/// In the listing of a directory of a well-formed tree, every node is at
/// least as large as each node after it (over the full 64-bit sizes), and
/// nodes of equal size keep the order in which they were added.
pub proof fn lemma_listing_largest_first(t: Seq<NodeView>, p: int, i: int, j: int)
    requires
        tree_wf(t),
        0 <= p < t.len(),
        0 <= i < j < visible_order(t, p).len(),
    ensures
        t[visible_order(t, p)[i] as int].size >= t[visible_order(t, p)[j] as int].size,
        t[visible_order(t, p)[i] as int].size == t[visible_order(t, p)[j] as int].size ==> visible_order(t, p)[i]
            < visible_order(t, p)[j],
{
    lemma_visible_order_is_listing(t, p);
    let r = visible_order(t, p);
    assert(key_before(t, r[i], r[j]));
}

} // verus!
