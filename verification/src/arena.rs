//! The storage of a directory tree: the node arena and each node's list of
//! child indices are `boxcar::Vec`s, seen through the sequences they hold.
use vstd::prelude::*;

use crate::tree::Node;

verus! {

/// `boxcar::Vec<T>`, the append-only vector of the `boxcar` crate.
#[verifier::external_type_specification]
#[verifier::external_body]
#[verifier::reject_recursive_types(T)]
pub struct ExBoxcarVec<T>(boxcar::Vec<T>);

/// The nodes that a `boxcar::Vec<Node>` holds, in index order.
pub uninterp spec fn arena_nodes(v: boxcar::Vec<Node>) -> Seq<Node>;

/// The most entries an arena or a list of children is asked to hold: a
/// 512th of the `usize` range. `boxcar` panics when a push would go past its
/// capacity (indices of `usize::BITS - 1` bits) or when the bucket that the
/// index falls in would take more than `isize::MAX` bytes; buckets double in
/// length, so the last one reached below this bound holds at most a 512th of
/// the `usize` range of entries. On a 32-bit target that is below the
/// allocation limit for entries of less than 256 bytes, which a node is. On
/// a 64-bit target this many nodes take more memory than any address space
/// holds, so an allocation fails (and the process aborts, as it does for any
/// collection) long before the bound or a panic is reached.
pub const ARENA_LIMIT: usize = usize::MAX / 512;

/// Calls `boxcar::Vec::new`, which builds an empty vector.
#[verifier::external_body]
pub(crate) fn arena_new() -> (v: boxcar::Vec<Node>)
    ensures
        arena_nodes(v) == Seq::<Node>::empty(),
{
    boxcar::Vec::new()
}

/// Calls `boxcar::Vec::push`: without concurrent pushes, the value goes to
/// the end and its index is the former count.
#[verifier::external_body]
pub(crate) fn arena_push(v: &mut boxcar::Vec<Node>, node: Node) -> (idx: usize)
    requires
        arena_nodes(*old(v)).len() < ARENA_LIMIT,
    ensures
        arena_nodes(*final(v)) == arena_nodes(*old(v)).push(node),
        idx == arena_nodes(*old(v)).len(),
{
    v.push(node)
}

/// Calls `boxcar::Vec::count`, the number of elements pushed so far.
#[verifier::external_body]
pub(crate) fn arena_count(v: &boxcar::Vec<Node>) -> (n: usize)
    ensures
        n == arena_nodes(*v).len(),
{
    v.count()
}

/// Indexes a `boxcar::Vec` (its `Index` impl), which hands out the element at
/// an index below the count.
#[verifier::external_body]
pub(crate) fn arena_get(v: &boxcar::Vec<Node>, i: usize) -> (node: &Node)
    requires
        i < arena_nodes(*v).len(),
    ensures
        *node == arena_nodes(*v)[i as int],
{
    &v[i]
}

/// Calls `boxcar::Vec::get_mut`, which hands out the element at an index
/// below the count for writing; what is written there is what the vector
/// then holds at that index.
#[verifier::external_body]
pub(crate) fn arena_get_mut(v: &mut boxcar::Vec<Node>, i: usize) -> (node: &mut Node)
    requires
        i < arena_nodes(*old(v)).len(),
    ensures
        *node == arena_nodes(*old(v))[i as int],
        arena_nodes(*final(v)) == arena_nodes(*old(v)).update(i as int, *final(node)),
{
    v.get_mut(i).unwrap()
}

/// The indices that a `boxcar::Vec<usize>` (a node's list of children)
/// holds, in index order.
pub uninterp spec fn child_indices(v: boxcar::Vec<usize>) -> Seq<usize>;

/// Calls `boxcar::Vec::new` for a list of child indices, which starts empty.
#[verifier::external_body]
pub(crate) fn child_list_new() -> (v: boxcar::Vec<usize>)
    ensures
        child_indices(v) == Seq::<usize>::empty(),
{
    boxcar::Vec::new()
}

/// Calls `boxcar::Vec::push` on a list of child indices: without concurrent
/// pushes, the index goes to the end.
#[verifier::external_body]
pub(crate) fn child_list_push(v: &mut boxcar::Vec<usize>, child: usize)
    requires
        child_indices(*old(v)).len() < ARENA_LIMIT,
    ensures
        child_indices(*final(v)) == child_indices(*old(v)).push(child),
{
    v.push(child);
}

/// Calls `boxcar::Vec::count` on a list of child indices.
#[verifier::external_body]
pub(crate) fn child_list_count(v: &boxcar::Vec<usize>) -> (n: usize)
    ensures
        n == child_indices(*v).len(),
{
    v.count()
}

/// Indexes a list of child indices (its `Index` impl) below its count.
#[verifier::external_body]
pub(crate) fn child_list_get(v: &boxcar::Vec<usize>, i: usize) -> (c: usize)
    requires
        i < child_indices(*v).len(),
    ensures
        c == child_indices(*v)[i as int],
{
    v[i]
}

} // verus!
