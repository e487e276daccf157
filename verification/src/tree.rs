//! The directory tree: nodes in an arena, linked by parent and child indices.
use vstd::prelude::*;

use crate::arena::{
    arena_count, arena_get, arena_get_mut, arena_new, arena_nodes, arena_push, child_indices,
    child_list_count, child_list_get, child_list_new, child_list_push, ARENA_LIMIT,
};

verus! {

/// One file or directory of the tree.
pub struct Node {
    pub path: String,
    /// The exact bytes of the path, as the file system gives them, when they
    /// were recorded (empty otherwise); the text may have lost some of them.
    pub raw_path: Vec<u8>,
    pub is_dir: bool,
    pub size: u64,
    pub children: boxcar::Vec<usize>,
    pub parent: Option<usize>,
    pub deleted: bool,
    pub unable_to_read: bool,
}

/// The mathematical value of a node.
pub struct NodeView {
    pub path: Seq<char>,
    pub raw_path: Seq<u8>,
    pub is_dir: bool,
    pub size: u64,
    pub children: Seq<usize>,
    pub parent: Option<usize>,
    pub deleted: bool,
    pub unable_to_read: bool,
}

impl View for Node {
    type V = NodeView;

    open spec fn view(&self) -> NodeView {
        NodeView {
            path: self.path@,
            raw_path: self.raw_path@,
            is_dir: self.is_dir,
            size: self.size,
            children: child_indices(self.children),
            parent: self.parent,
            deleted: self.deleted,
            unable_to_read: self.unable_to_read,
        }
    }
}

/// A directory tree. Node 0 is the root; every other node has a parent with
/// a smaller index, and lists of children hold increasing indices.
pub struct DirTree {
    nodes: boxcar::Vec<Node>,
    root: usize,
}

// ---------------------------------------------------------------------------
// The shape of a tree and what it means to be well formed.
// ---------------------------------------------------------------------------

/// The parent index of node `j` (meaningful when it has one).
pub open spec fn parent_of(t: Seq<NodeView>, j: int) -> int {
    t[j].parent->0 as int
}

/// Node `j` has a parent before it, and that parent lists `j` as a child.
pub open spec fn parent_ok(t: Seq<NodeView>, j: int) -> bool {
    &&& t[j].parent is Some
    &&& parent_of(t, j) < j
    &&& t[parent_of(t, j)].children.contains(j as usize)
}

/// The `k`-th child of node `j` comes after `j`, within the tree, and names
/// `j` as its parent.
pub open spec fn child_ok(t: Seq<NodeView>, j: int, k: int) -> bool {
    let c = t[j].children[k] as int;
    &&& j < c < t.len()
    &&& t[c].parent == Some(j as usize)
}

/// A well-formed tree: a parentless root, at most `ARENA_LIMIT` nodes, every
/// other node listed by a parent before it, and children lists that are
/// increasing and point back to their parent.
pub open spec fn tree_wf(t: Seq<NodeView>) -> bool {
    &&& 1 <= t.len() <= ARENA_LIMIT
    &&& t[0].parent is None
    &&& forall|j: int| 0 < j < t.len() ==> #[trigger] parent_ok(t, j)
    &&& forall|j: int, k: int|
        0 <= j < t.len() && 0 <= k < t[j].children.len() ==> #[trigger] child_ok(t, j, k)
    &&& forall|j: int, k1: int, k2: int|
        0 <= j < t.len() && 0 <= k1 < k2 < t[j].children.len() ==> #[trigger] t[j].children[k1]
            < #[trigger] t[j].children[k2]
}

/// Two trees whose nodes agree on everything but their sizes and flags.
pub open spec fn same_shape(t1: Seq<NodeView>, t2: Seq<NodeView>) -> bool {
    &&& t1.len() == t2.len()
    &&& forall|j: int|
        0 <= j < t1.len() ==> {
            &&& (#[trigger] t1[j]).path == t2[j].path
            &&& t1[j].is_dir == t2[j].is_dir
            &&& t1[j].children == t2[j].children
            &&& t1[j].parent == t2[j].parent
        }
}

/// `a` is a strict ancestor of node `j`.
pub open spec fn is_ancestor(t: Seq<NodeView>, a: int, j: int) -> bool
    decreases j,
{
    if 0 <= j < t.len() && t[j].parent is Some && parent_of(t, j) < j {
        parent_of(t, j) == a || is_ancestor(t, a, parent_of(t, j))
    } else {
        false
    }
}

/// Node `j` goes when `top` is deleted: it is `top`, or its parent goes and
/// is a directory.
pub open spec fn in_removal(t: Seq<NodeView>, top: int, j: int) -> bool
    decreases j,
{
    if j == top {
        true
    } else if top < j < t.len() && t[j].parent is Some && parent_of(t, j) < j {
        t[parent_of(t, j)].is_dir && in_removal(t, top, parent_of(t, j))
    } else {
        false
    }
}

/// The tree after `delete_node(top, propagate)`: `top` and everything it
/// takes with it are marked deleted, and with `propagate` every ancestor of
/// `top` loses `top`'s size, wrapping as the size counters do.
pub open spec fn removal_result(t: Seq<NodeView>, top: int, propagate: bool) -> Seq<NodeView> {
    Seq::new(
        t.len(),
        |j: int|
            NodeView {
                deleted: t[j].deleted || in_removal(t, top, j),
                size: if propagate && is_ancestor(t, j, top) {
                    vstd::wrapping::u64_specs::wrapping_sub(t[j].size, t[top].size)
                } else {
                    t[j].size
                },
                ..t[j]
            },
    )
}

/// `t` with a new node appended as the last child of `parent`.
pub open spec fn with_new_child(
    t: Seq<NodeView>,
    parent: int,
    path: Seq<char>,
    is_dir: bool,
    size: u64,
) -> Seq<NodeView> {
    t.update(
        parent,
        NodeView { children: t[parent].children.push(t.len() as usize), ..t[parent] },
    ).push(
        NodeView {
            path,
            raw_path: Seq::empty(),
            is_dir,
            size,
            children: Seq::empty(),
            parent: Some(parent as usize),
            deleted: false,
            unable_to_read: false,
        },
    )
}

/// `n` with its deleted flag set to `deleted`.
pub open spec fn with_deleted(n: NodeView, deleted: bool) -> NodeView {
    NodeView { deleted, ..n }
}

/// `n` with its size set to `size`.
pub open spec fn with_size(n: NodeView, size: u64) -> NodeView {
    NodeView { size, ..n }
}

/// Whether node `j` is one of the first `k` children of `i`, or goes with one
/// of them.
pub open spec fn removed_by_first(t: Seq<NodeView>, i: int, k: int, j: int) -> bool
    decreases k,
{
    if k <= 0 {
        false
    } else {
        removed_by_first(t, i, k - 1, j) || in_removal(t, t[i].children[k - 1] as int, j)
    }
}

// ---------------------------------------------------------------------------
// Lemmas on the shape.
// ---------------------------------------------------------------------------

/// A strictly increasing list of indices drawn from `lo..hi` has at most
/// `hi - lo` entries.
pub(crate) proof fn lemma_increasing_len(s: Seq<usize>, lo: int, hi: int)
    requires
        lo <= hi,
        forall|k: int| 0 <= k < s.len() ==> lo <= #[trigger] s[k] < hi,
        forall|k1: int, k2: int| 0 <= k1 < k2 < s.len() ==> #[trigger] s[k1] < #[trigger] s[k2],
    ensures
        s.len() <= hi - lo,
    decreases s.len(),
{
    if s.len() > 0 {
        let top = s.last() as int;
        let rest = s.drop_last();
        assert forall|k: int| 0 <= k < rest.len() implies lo <= #[trigger] rest[k] < top by {
            assert(s[k] < s[s.len() - 1]);
        }
        lemma_increasing_len(rest, lo, top);
    }
}

/// Well-formedness depends only on the shape.
pub proof fn lemma_same_shape_wf(t1: Seq<NodeView>, t2: Seq<NodeView>)
    requires
        tree_wf(t1),
        same_shape(t1, t2),
    ensures
        tree_wf(t2),
{
    assert forall|j: int| 0 < j < t2.len() implies #[trigger] parent_ok(t2, j) by {
        assert(parent_ok(t1, j));
        assert(t1[j] == t1[j]);
        assert(t1[parent_of(t1, j)] == t1[parent_of(t1, j)]);
    }
    assert forall|j: int, k: int|
        0 <= j < t2.len() && 0 <= k < t2[j].children.len() implies #[trigger] child_ok(t2, j, k) by {
        assert(t1[j] == t1[j]);
        assert(child_ok(t1, j, k));
        let c = t1[j].children[k] as int;
        assert(t1[c] == t1[c]);
    }
    assert forall|j: int, k1: int, k2: int|
        0 <= j < t2.len() && 0 <= k1 < k2 < t2[j].children.len() implies #[trigger] t2[j].children[k1]
            < #[trigger] t2[j].children[k2] by {
        assert(t1[j] == t1[j]);
        assert(t1[j].children[k1] < t1[j].children[k2]);
    }
    assert(t1[0] == t1[0]);
}

/// What goes with a node depends only on the shape.
pub proof fn lemma_same_shape_removal(t1: Seq<NodeView>, t2: Seq<NodeView>, top: int, j: int)
    requires
        same_shape(t1, t2),
    ensures
        in_removal(t1, top, j) == in_removal(t2, top, j),
    decreases j,
{
    if j != top && top < j < t1.len() {
        assert(t1[j] == t1[j]);
        if t1[j].parent is Some && parent_of(t1, j) < j {
            let p = parent_of(t1, j);
            assert(t1[p] == t1[p]);
            lemma_same_shape_removal(t1, t2, top, p);
        }
    }
}

/// An ancestor comes before its descendant.
pub proof fn lemma_ancestor_below(t: Seq<NodeView>, a: int, j: int)
    requires
        is_ancestor(t, a, j),
    ensures
        0 <= a < j,
    decreases j,
{
    let p = parent_of(t, j);
    if p != a {
        lemma_ancestor_below(t, a, p);
    }
}

/// What goes with `top` comes at or after `top`.
pub proof fn lemma_removal_above(t: Seq<NodeView>, top: int, j: int)
    requires
        in_removal(t, top, j),
    ensures
        top <= j,
    decreases j,
{
}

/// Ancestors of `j` form a chain: an ancestor of `j` that comes before an
/// ancestor `b` of `j` (or before `j` itself) is an ancestor of `b`.
pub proof fn lemma_ancestor_chain(t: Seq<NodeView>, a: int, b: int, j: int)
    requires
        is_ancestor(t, a, j),
        b == j || is_ancestor(t, b, j),
    ensures
        a >= b || is_ancestor(t, a, b),
    decreases j,
{
    if b == j {
    } else {
        let p = parent_of(t, j);
        if a == p {
            if b != p {
                lemma_ancestor_below(t, b, p);
            }
        } else {
            if b == p {
            } else {
                lemma_ancestor_chain(t, a, b, p);
            }
        }
    }
}

/// A file takes nothing else with it.
pub proof fn lemma_removal_of_file(t: Seq<NodeView>, top: int, j: int)
    requires
        0 <= top < t.len(),
        !t[top].is_dir,
        in_removal(t, top, j),
    ensures
        j == top,
    decreases j,
{
    if j != top {
        let p = parent_of(t, j);
        lemma_removal_of_file(t, top, p);
    }
}

/// Nothing at or before a directory goes with one of its children.
proof fn lemma_removed_by_first_below(t: Seq<NodeView>, i: int, k: int, j: int)
    requires
        tree_wf(t),
        0 <= i < t.len(),
        k <= t[i].children.len(),
        j <= i,
    ensures
        !removed_by_first(t, i, k, j),
    decreases k,
{
    if k > 0 {
        lemma_removed_by_first_below(t, i, k - 1, j);
        assert(child_ok(t, i, k - 1));
        if in_removal(t, t[i].children[k - 1] as int, j) {
            lemma_removal_above(t, t[i].children[k - 1] as int, j);
        }
    }
}

/// The parent of an ancestor of `j` is an ancestor of `j`.
pub proof fn lemma_ancestor_step(t: Seq<NodeView>, b: int, j: int)
    requires
        is_ancestor(t, b, j),
        0 <= b < t.len(),
        t[b].parent is Some,
        parent_of(t, b) < b,
    ensures
        is_ancestor(t, parent_of(t, b), j),
    decreases j,
{
    let p = parent_of(t, j);
    if p != b {
        lemma_ancestor_step(t, b, p);
    } else {
        assert(is_ancestor(t, parent_of(t, b), b));
    }
}

/// What goes with the `m`-th child goes with one of the first `k > m`.
proof fn lemma_removed_by_first_intro(t: Seq<NodeView>, i: int, k: int, m: int, j: int)
    requires
        0 <= m < k,
        in_removal(t, t[i].children[m] as int, j),
    ensures
        removed_by_first(t, i, k, j),
    decreases k,
{
    if m < k - 1 {
        lemma_removed_by_first_intro(t, i, k - 1, m, j);
    }
}

/// What goes with one of the first `k` children goes with a particular one.
proof fn lemma_removed_by_first_elim(t: Seq<NodeView>, i: int, k: int, j: int) -> (m: int)
    requires
        removed_by_first(t, i, k, j),
    ensures
        0 <= m < k,
        in_removal(t, t[i].children[m] as int, j),
    decreases k,
{
    if in_removal(t, t[i].children[k - 1] as int, j) {
        k - 1
    } else {
        lemma_removed_by_first_elim(t, i, k - 1, j)
    }
}

/// What goes with a child of a directory goes with the directory.
proof fn lemma_removal_lift(t: Seq<NodeView>, i: int, c: int, j: int)
    requires
        tree_wf(t),
        0 <= i < t.len(),
        t[i].is_dir,
        0 <= c < t.len(),
        t[c].parent == Some(i as usize),
        in_removal(t, c, j),
    ensures
        in_removal(t, i, j),
    decreases j,
{
    assert(c != 0);
    assert(parent_ok(t, c));
    if j == c {
        assert(in_removal(t, i, i));
    } else {
        let p = parent_of(t, j);
        lemma_removal_above(t, c, p);
        lemma_removal_lift(t, i, c, p);
    }
}

/// Deleting a directory deletes it and what goes with each of its children.
pub proof fn lemma_removal_by_children(t: Seq<NodeView>, i: int, j: int)
    requires
        tree_wf(t),
        0 <= i < t.len(),
        t[i].is_dir,
        j != i,
    ensures
        in_removal(t, i, j) == removed_by_first(t, i, t[i].children.len() as int, j),
    decreases j,
{
    let n = t[i].children.len() as int;
    if in_removal(t, i, j) {
        let p = parent_of(t, j);
        assert(parent_ok(t, j));
        if p == i {
            let m = t[i].children.index_of(j as usize);
            assert(t[i].children[m] == j as usize);
            lemma_removed_by_first_intro(t, i, n, m, j);
        } else {
            lemma_removal_by_children(t, i, p);
            let m = lemma_removed_by_first_elim(t, i, n, p);
            let c = t[i].children[m] as int;
            lemma_removal_above(t, c, p);
            lemma_removed_by_first_intro(t, i, n, m, j);
        }
    }
    if removed_by_first(t, i, n, j) {
        let m = lemma_removed_by_first_elim(t, i, n, j);
        assert(child_ok(t, i, m));
        lemma_removal_lift(t, i, t[i].children[m] as int, j);
    }
}

// ---------------------------------------------------------------------------
// The tree's operations.
// ---------------------------------------------------------------------------

impl View for DirTree {
    type V = Seq<NodeView>;

    closed spec fn view(&self) -> Seq<NodeView> {
        arena_nodes(self.nodes).map_values(|n: Node| n@)
    }
}

impl DirTree {
    /// The nodes form a well-formed tree rooted at index 0.
    pub closed spec fn wf(&self) -> bool {
        &&& tree_wf(self@)
        &&& self.root == 0
    }

    /// A well-formed tree has a well-formed shape.
    pub proof fn lemma_wf_shape(&self)
        requires
            self.wf(),
        ensures
            tree_wf(self@),
    {
    }

    /// Writing one node of the arena updates the view at that index.
    proof fn lemma_view_update(&self, old_nodes: Seq<Node>, i: int, n: Node)
        requires
            0 <= i < old_nodes.len(),
            arena_nodes(self.nodes) == old_nodes.update(i, n),
        ensures
            self@ == old_nodes.map_values(|n: Node| n@).update(i, n@),
    {
        assert(self@ =~= old_nodes.map_values(|n: Node| n@).update(i, n@));
    }

    /// A tree holding only its root, a directory at `path` of size 0.
    pub fn new(path: String) -> (tree: DirTree)
        ensures
            tree.wf(),
            tree@ == seq![
                NodeView {
                    path: path@,
                    raw_path: Seq::empty(),
                    is_dir: true,
                    size: 0,
                    children: Seq::empty(),
                    parent: None,
                    deleted: false,
                    unable_to_read: false,
                },
            ],
    {
        let mut nodes = arena_new();
        let node = Node {
            path,
            is_dir: true,
            size: 0,
            raw_path: Vec::new(),
            children: child_list_new(),
            parent: None,
            deleted: false,
            unable_to_read: false,
        };
        arena_push(&mut nodes, node);
        let tree = DirTree { nodes, root: 0 };
        assert(tree@ =~= seq![node@]);
        tree
    }

    /// The root's index.
    pub fn root(&self) -> (r: usize)
        requires
            self.wf(),
        ensures
            r == 0,
    {
        self.root
    }

    /// The number of nodes, deleted ones included.
    pub fn len(&self) -> (n: usize)
        ensures
            n == self@.len(),
    {
        arena_count(&self.nodes)
    }

    /// The node at `idx`.
    pub fn get_node(&self, idx: usize) -> (node: &Node)
        requires
            idx < self@.len(),
        ensures
            node@ == self@[idx as int],
    {
        arena_get(&self.nodes, idx)
    }

    /// Whether the tree is well formed: its root is node 0 with no parent,
    /// every other node has an earlier parent that lists it, and every list
    /// of children holds later nodes naming their parent, in increasing order.
    pub fn is_well_formed(&self) -> (r: bool)
        ensures
            r == self.wf(),
    {
        let ghost t = self@;
        if self.root != 0 {
            return false;
        }
        let n = arena_count(&self.nodes);
        if n < 1 || n > ARENA_LIMIT {
            return false;
        }
        if arena_get(&self.nodes, 0).parent.is_some() {
            return false;
        }
        let mut listed: Vec<bool> = Vec::new();
        let mut i: usize = 0;
        while i < n
            invariant
                i <= n,
                listed@.len() == i,
                forall|c: int| 0 <= c < i ==> !(#[trigger] listed@[c]),
            decreases n - i,
        {
            listed.push(false);
            i += 1;
        }
        let mut j: usize = 0;
        while j < n
            invariant
                t == self@,
                n == t.len(),
                1 <= n <= ARENA_LIMIT,
                self.root == 0,
                t[0].parent is None,
                j <= n,
                listed@.len() == n,
                forall|a: int, k: int| 0 <= a < j && 0 <= k < t[a].children.len() ==> #[trigger] child_ok(t, a, k),
                forall|a: int, k1: int, k2: int|
                    0 <= a < j && 0 <= k1 < k2 < t[a].children.len() ==> #[trigger] t[a].children[k1]
                        < #[trigger] t[a].children[k2],
                forall|c: int| 0 <= c < n ==> (#[trigger] listed@[c] <==> exists|a: int| 0 <= a < j && #[trigger] t[a].children.contains(c as usize)),
            decreases n - j,
        {
            let node = arena_get(&self.nodes, j);
            let m = child_list_count(&node.children);
            let mut k: usize = 0;
            let ghost listed0 = listed@;
            while k < m
                invariant
                    t == self@,
                    n == t.len(),
                    j < n,
                    node@ == t[j as int],
                    m == t[j as int].children.len(),
                    k <= m,
                    listed@.len() == n,
                    forall|q: int| 0 <= q < k ==> #[trigger] child_ok(t, j as int, q),
                    forall|k1: int, k2: int| 0 <= k1 < k2 < k ==> #[trigger] t[j as int].children[k1]
                        < #[trigger] t[j as int].children[k2],
                    forall|c: int| 0 <= c < n ==> (#[trigger] listed@[c] <==> (listed0[c] || t[j as int].children.take(k as int).contains(c as usize))),
                decreases m - k,
            {
                let c = child_list_get(&node.children, k);
                if !(j < c && c < n) {
                    proof {
                        assert(!child_ok(t, j as int, k as int));
                    }
                    return false;
                }
                if arena_get(&self.nodes, c).parent != Some(j) {
                    proof {
                        assert(!child_ok(t, j as int, k as int));
                    }
                    return false;
                }
                if k > 0 && child_list_get(&node.children, k - 1) >= c {
                    return false;
                }
                let ghost before = listed@;
                listed.set(c, true);
                proof {
                    let ks = t[j as int].children;
                    assert(ks.take(k + 1) =~= ks.take(k as int).push(c));
                    assert forall|x: int| 0 <= x < n implies (#[trigger] listed@[x] <==> (listed0[x] || ks.take(k + 1).contains(x as usize))) by {
                        crate::listing::lemma_push_contains(ks.take(k as int), c, x as usize);
                    }
                    assert forall|k1: int, k2: int| 0 <= k1 < k2 < k + 1 implies #[trigger] ks[k1] < #[trigger] ks[k2] by {
                        if k2 == k && k1 < k - 1 {
                            assert(ks[k1] < ks[k - 1]);
                        }
                    }
                }
                k += 1;
            }
            proof {
                let ks = t[j as int].children;
                assert(ks.take(m as int) =~= ks);
                assert forall|c: int| 0 <= c < n implies (#[trigger] listed@[c] <==> exists|a: int| 0 <= a < j + 1 && #[trigger] t[a].children.contains(c as usize)) by {
                    if listed0[c] {
                        let a = choose|a: int| 0 <= a < j && #[trigger] t[a].children.contains(c as usize);
                        assert(t[a].children.contains(c as usize));
                    }
                    if ks.contains(c as usize) {
                        assert(t[j as int].children.contains(c as usize));
                    }
                    if exists|a: int| 0 <= a < j + 1 && #[trigger] t[a].children.contains(c as usize) {
                        let a = choose|a: int| 0 <= a < j + 1 && #[trigger] t[a].children.contains(c as usize);
                        if a < j {
                            assert(listed0[c]);
                        }
                    }
                }
            }
            j += 1;
        }
        let mut c: usize = 1;
        while c < n
            invariant
                t == self@,
                n == t.len(),
                1 <= n <= ARENA_LIMIT,
                self.root == 0,
                t[0].parent is None,
                1 <= c <= n,
                listed@.len() == n,
                forall|a: int, k: int| 0 <= a < n && 0 <= k < t[a].children.len() ==> #[trigger] child_ok(t, a, k),
                forall|a: int, k1: int, k2: int|
                    0 <= a < n && 0 <= k1 < k2 < t[a].children.len() ==> #[trigger] t[a].children[k1]
                        < #[trigger] t[a].children[k2],
                forall|x: int| 0 <= x < n ==> (#[trigger] listed@[x] <==> exists|a: int| 0 <= a < n && #[trigger] t[a].children.contains(x as usize)),
                forall|x: int| 0 < x < c ==> #[trigger] parent_ok(t, x),
            decreases n - c,
        {
            let parent = arena_get(&self.nodes, c).parent;
            match parent {
                None => {
                    assert(!parent_ok(t, c as int));
                    return false;
                },
                Some(p) => {
                    if p >= c {
                        assert(!parent_ok(t, c as int));
                        return false;
                    }
                    if !listed[c] {
                        proof {
                            assert(!t[p as int].children.contains(c as usize));
                            assert(!parent_ok(t, c as int));
                        }
                        return false;
                    }
                    proof {
                        let a = choose|a: int| 0 <= a < n && #[trigger] t[a].children.contains(c as usize);
                        let k = t[a].children.index_of(c as usize);
                        assert(child_ok(t, a, k));
                        assert(parent_ok(t, c as int));
                    }
                },
            }
            c += 1;
        }
        true
    }

    /// Appends a node under `parent_idx` and returns its index, which is the
    /// number of nodes before the call.
    pub fn add_node(&mut self, path: String, is_dir: bool, size: u64, parent_idx: usize) -> (idx: usize)
        requires
            old(self).wf(),
            parent_idx < old(self)@.len(),
            old(self)@.len() < ARENA_LIMIT,
        ensures
            final(self).wf(),
            idx == old(self)@.len(),
            final(self)@ == with_new_child(old(self)@, parent_idx as int, path@, is_dir, size),
    {
        let ghost t0 = self@;
        let new_node = Node {
            path,
            is_dir,
            size,
            raw_path: Vec::new(),
            children: child_list_new(),
            parent: Some(parent_idx),
            deleted: false,
            unable_to_read: false,
        };
        let ghost nv = new_node@;
        let ghost nodes0 = arena_nodes(self.nodes);
        let new_node_idx = arena_push(&mut self.nodes, new_node);
        let ghost nodes1 = arena_nodes(self.nodes);
        assert(self@ =~= t0.push(nv));
        proof {
            let ks = t0[parent_idx as int].children;
            assert forall|k: int| 0 <= k < ks.len() implies parent_idx + 1 <= #[trigger] ks[k] < t0.len() by {
                assert(child_ok(t0, parent_idx as int, k));
            }
            lemma_increasing_len(ks, parent_idx + 1, t0.len() as int);
        }
        let p = arena_get_mut(&mut self.nodes, parent_idx);
        child_list_push(&mut p.children, new_node_idx);
        let ghost pn = *p;
        proof {
            self.lemma_view_update(nodes1, parent_idx as int, pn);
            let t1 = t0.push(nv);
            let t2 = self@;
            assert(t2 =~= t0.update(
                parent_idx as int,
                NodeView { children: t0[parent_idx as int].children.push(new_node_idx), ..t0[parent_idx as int] },
            ).push(nv));
            assert forall|j: int| 0 < j < t2.len() implies #[trigger] parent_ok(t2, j) by {
                if j < t0.len() {
                    assert(parent_ok(t0, j));
                    let pj = parent_of(t0, j);
                    if pj == parent_idx {
                        assert(t2[pj].children[t0[pj].children.index_of(j as usize)] == j as usize);
                    }
                } else {
                    assert(t2[parent_idx as int].children.last() == j as usize);
                }
            }
            assert forall|j: int, k: int|
                0 <= j < t2.len() && 0 <= k < t2[j].children.len() implies #[trigger] child_ok(t2, j, k) by {
                if j < t0.len() && k < t0[j].children.len() {
                    assert(child_ok(t0, j, k));
                }
            }
            assert forall|j: int, k1: int, k2: int|
                0 <= j < t2.len() && 0 <= k1 < k2 < t2[j].children.len() implies #[trigger] t2[j].children[k1]
                    < #[trigger] t2[j].children[k2] by {
                if k2 < t0[j].children.len() {
                    assert(t0[j].children[k1] < t0[j].children[k2]);
                } else {
                    assert(child_ok(t0, j, k1));
                }
            }
        }
        new_node_idx
    }

    /// Sets the size recorded for the node at `idx`.
    pub fn set_size(&mut self, idx: usize, size: u64)
        requires
            old(self).wf(),
            idx < old(self)@.len(),
        ensures
            final(self).wf(),
            final(self)@ == old(self)@.update(idx as int, NodeView { size, ..old(self)@[idx as int] }),
    {
        let ghost nodes0 = arena_nodes(self.nodes);
        let n = arena_get_mut(&mut self.nodes, idx);
        n.size = size;
        let ghost nn = *n;
        proof {
            self.lemma_view_update(nodes0, idx as int, nn);
            lemma_same_shape_wf(nodes0.map_values(|n: Node| n@), self@);
        }
    }

    /// Marks the node at `idx` as one whose directory could not be read.
    pub fn set_unable_to_read(&mut self, idx: usize)
        requires
            old(self).wf(),
            idx < old(self)@.len(),
        ensures
            final(self).wf(),
            final(self)@ == old(self)@.update(
                idx as int,
                NodeView { unable_to_read: true, ..old(self)@[idx as int] },
            ),
    {
        let ghost nodes0 = arena_nodes(self.nodes);
        let n = arena_get_mut(&mut self.nodes, idx);
        n.unable_to_read = true;
        let ghost nn = *n;
        proof {
            self.lemma_view_update(nodes0, idx as int, nn);
            lemma_same_shape_wf(nodes0.map_values(|n: Node| n@), self@);
        }
    }

    /// Records the exact bytes of the path of the node at `idx`.
    pub fn set_raw_path(&mut self, idx: usize, raw_path: Vec<u8>)
        requires
            old(self).wf(),
            idx < old(self)@.len(),
        ensures
            final(self).wf(),
            final(self)@ == old(self)@.update(idx as int, NodeView { raw_path: raw_path@, ..old(self)@[idx as int] }),
    {
        let ghost nodes0 = arena_nodes(self.nodes);
        let n = arena_get_mut(&mut self.nodes, idx);
        n.raw_path = raw_path;
        let ghost nn = *n;
        proof {
            self.lemma_view_update(nodes0, idx as int, nn);
            lemma_same_shape_wf(nodes0.map_values(|n: Node| n@), self@);
        }
    }

    /// Marks the node at `idx` deleted, and with it, when it is a directory,
    /// everything below it (recursively through directories). With
    /// `propagate_size`, every ancestor of `idx` loses `idx`'s size; the
    /// nodes below `idx` do not pass their sizes on.
    pub fn delete_node(&mut self, idx: usize, propagate_size: bool)
        requires
            old(self).wf(),
            idx < old(self)@.len(),
        ensures
            final(self).wf(),
            final(self)@ == removal_result(old(self)@, idx as int, propagate_size),
        decreases old(self)@.len() - idx,
    {
        let ghost t0 = self@;
        let (is_dir, n_children, parent, node_size) = {
            let node = arena_get(&self.nodes, idx);
            (node.is_dir, child_list_count(&node.children), node.parent, node.size)
        };
        if is_dir {
            let mut k: usize = 0;
            while k < n_children
                invariant
                    self.wf(),
                    tree_wf(t0),
                    t0 == old(self)@,
                    same_shape(t0, self@),
                    idx < t0.len(),
                    t0[idx as int].is_dir,
                    n_children == t0[idx as int].children.len(),
                    k <= n_children,
                    forall|j: int|
                        0 <= j < t0.len() ==> #[trigger] self@[j] == with_deleted(
                            t0[j],
                            t0[j].deleted || removed_by_first(t0, idx as int, k as int, j),
                        ),
                decreases n_children - k,
            {
                let ghost tp = self@;
                assert(tp[idx as int].children == t0[idx as int].children);
                assert(child_ok(t0, idx as int, k as int));
                let child = child_list_get(&arena_get(&self.nodes, idx).children, k);
                assert(idx < child < self@.len());
                self.delete_node(child, false);
                proof {
                    let tn = self@;
                    assert forall|j: int| 0 <= j < t0.len() implies #[trigger] tn[j] == with_deleted(
                        t0[j],
                        t0[j].deleted || removed_by_first(t0, idx as int, k + 1, j),
                    ) by {
                        assert(tp[j] == tp[j]);
                        lemma_same_shape_removal(t0, tp, child as int, j);
                    }
                    assert(same_shape(t0, tn)) by {
                        assert forall|j: int| 0 <= j < t0.len() implies #[trigger] t0[j].path == tn[j].path
                            && t0[j].is_dir == tn[j].is_dir && t0[j].children == tn[j].children
                            && t0[j].parent == tn[j].parent by {
                            assert(tn[j] == tn[j]);
                        }
                    }
                }
                k += 1;
            }
        }
        let ghost t1 = self@;
        proof {
            assert forall|j: int| 0 <= j < t0.len() implies #[trigger] t1[j] == with_deleted(
                t0[j],
                t0[j].deleted || (j != idx && in_removal(t0, idx as int, j)),
            ) by {
                if is_dir && j == idx {
                    lemma_removed_by_first_below(t0, idx as int, t0[idx as int].children.len() as int, j);
                }
                if j != idx {
                    if is_dir {
                        lemma_removal_by_children(t0, idx as int, j);
                    } else if in_removal(t0, idx as int, j) {
                        lemma_removal_of_file(t0, idx as int, j);
                    }
                }
            }
        }
        if propagate_size {
            let mut current = parent;
            let ghost mut below: int = idx as int;
            proof {
                assert forall|j: int| 0 <= j < t0.len() implies #[trigger] self@[j] == with_size(
                    t1[j],
                    if is_ancestor(t0, j, idx as int) && j >= below {
                        vstd::wrapping::u64_specs::wrapping_sub(t0[j].size, node_size)
                    } else {
                        t0[j].size
                    },
                ) by {
                    if is_ancestor(t0, j, idx as int) {
                        lemma_ancestor_below(t0, j, idx as int);
                    }
                }
            }
            while current.is_some()
                invariant
                    self.wf(),
                    tree_wf(t0),
                    same_shape(t0, self@),
                    0 <= below < t0.len(),
                    idx < t0.len(),
                    below == idx || is_ancestor(t0, below, idx as int),
                    current == t0[below].parent,
                    node_size == t0[idx as int].size,
                    forall|j: int|
                        0 <= j < t0.len() ==> #[trigger] self@[j] == with_size(
                            t1[j],
                            if is_ancestor(t0, j, idx as int) && j >= below {
                                vstd::wrapping::u64_specs::wrapping_sub(t0[j].size, node_size)
                            } else {
                                t0[j].size
                            },
                        ),
                decreases below,
            {
                let pidx = current.unwrap();
                proof {
                    assert(below != 0);
                    assert(parent_ok(t0, below));
                    if below != idx {
                        lemma_ancestor_below(t0, below, idx as int);
                    }
                }
                let ghost tp = self@;
                assert(tp[pidx as int] == tp[pidx as int]);
                let ps = arena_get(&self.nodes, pidx).size;
                self.set_size(pidx, ps.wrapping_sub(node_size));
                current = arena_get(&self.nodes, pidx).parent;
                proof {
                    let tn = self@;
                    assert(t0[pidx as int] == t0[pidx as int]);
                    if below != idx {
                        lemma_ancestor_step(t0, below, idx as int);
                    }
                    assert(is_ancestor(t0, pidx as int, idx as int));
                    assert forall|j: int| 0 <= j < t0.len() implies #[trigger] tn[j] == with_size(
                        t1[j],
                        if is_ancestor(t0, j, idx as int) && j >= pidx {
                            vstd::wrapping::u64_specs::wrapping_sub(t0[j].size, node_size)
                        } else {
                            t0[j].size
                        },
                    ) by {
                        assert(tp[j] == tp[j]);
                        if is_ancestor(t0, j, idx as int) && pidx < j < below {
                            lemma_ancestor_chain(t0, j, below, idx as int);
                            lemma_ancestor_below(t0, j, below);
                            assert(parent_of(t0, below) == pidx);
                            if j != pidx {
                                assert(is_ancestor(t0, j, pidx as int));
                                lemma_ancestor_below(t0, j, pidx as int);
                            }
                        }
                    }
                    assert(same_shape(t0, tn)) by {
                        assert forall|j: int| 0 <= j < t0.len() implies #[trigger] t0[j].path == tn[j].path
                            && t0[j].is_dir == tn[j].is_dir && t0[j].children == tn[j].children
                            && t0[j].parent == tn[j].parent by {
                            assert(tn[j] == tn[j]);
                        }
                    }
                    below = pidx as int;
                }
            }
            proof {
                assert forall|j: int| is_ancestor(t0, j, idx as int) implies j >= below by {
                    lemma_ancestor_chain(t0, j, below, idx as int);
                }
            }
        }
        let ghost t2 = self@;
        self.mark_deleted(idx);
        proof {
            let tf = self@;
            assert(tf =~= removal_result(t0, idx as int, propagate_size)) by {
                assert forall|j: int| 0 <= j < t0.len() implies #[trigger] tf[j] == removal_result(t0, idx as int, propagate_size)[j] by {
                    assert(t2[j] == t2[j]);
                    assert(t1[j] == t1[j]);
                }
            }
        }
    }

    /// Sets the deleted flag of the node at `idx`.
    fn mark_deleted(&mut self, idx: usize)
        requires
            old(self).wf(),
            idx < old(self)@.len(),
        ensures
            final(self).wf(),
            final(self)@ == old(self)@.update(
                idx as int,
                NodeView { deleted: true, ..old(self)@[idx as int] },
            ),
    {
        let ghost nodes0 = arena_nodes(self.nodes);
        let n = arena_get_mut(&mut self.nodes, idx);
        n.deleted = true;
        let ghost nn = *n;
        proof {
            self.lemma_view_update(nodes0, idx as int, nn);
            lemma_same_shape_wf(nodes0.map_values(|n: Node| n@), self@);
        }
    }
}

} // verus!
