//! What a directory scan records in the tree, and the errors of scanning and
//! deleting.
use vstd::prelude::*;

use crate::arena::{child_indices, child_list_count, child_list_get, ARENA_LIMIT};
use crate::tree::{tree_wf, with_new_child, with_size, DirTree, NodeView};

verus! {

/// `std::io::Error`, the error of a failed I/O operation.
#[verifier::external_type_specification]
#[verifier::external_body]
pub struct ExIoError(std::io::Error);

/// Calls `<std::io::Error as Display>::to_string`. The text comes from the
/// operating system's description of the error, so nothing is stated of it.
#[verifier::external_body]
fn io_error_text(e: &std::io::Error) -> String {
    e.to_string()
}

/// What can go wrong while scanning or deleting.
pub enum DiskardError {
    IoError(std::io::Error),
    InternalError,
    DeleteFailed(String),
}

/// `m` is the text `e` is shown with: for an I/O error, "IO Error: " and the
/// system's description of it.
pub open spec fn is_error_message(e: DiskardError, m: Seq<char>) -> bool {
    match e {
        DiskardError::IoError(_) => m.len() >= 10 && m.subrange(0, 10) == "IO Error: "@,
        DiskardError::InternalError => m == "Internal Error"@,
        DiskardError::DeleteFailed(s) => m == "Delete Failed: "@ + s@,
    }
}

impl DiskardError {
    /// The text the error is shown with.
    pub fn message(&self) -> (m: String)
        ensures
            is_error_message(*self, m@),
    {
        match self {
            DiskardError::IoError(e) => {
                let mut m = String::from_str("IO Error: ");
                let text = io_error_text(e);
                m.append(text.as_str());
                proof {
                    reveal_strlit("IO Error: ");
                    assert(m@.subrange(0, 10) =~= "IO Error: "@);
                }
                m
            },
            DiskardError::InternalError => String::from_str("Internal Error"),
            DiskardError::DeleteFailed(s) => {
                let mut m = String::from_str("Delete Failed: ");
                m.append(s.as_str());
                m
            },
        }
    }
}

/// How an item is removed from disk.
pub enum DeleteMode {
    Trash,
    Permanent,
}

/// What a directory listing tells about one of its entries.
pub enum EntryInfo {
    /// The entry, or its file type, could not be read.
    Unreadable,
    Symlink,
    /// A regular file, with its length when its metadata could be read.
    File { path: String, len: Option<u64> },
    Dir { path: String },
    /// Anything else: a socket, a device, a pipe.
    Other,
}

/// The sum of the sizes of the nodes `ks`.
pub open spec fn total_size(t: Seq<NodeView>, ks: Seq<usize>) -> int
    decreases ks.len(),
{
    if ks.len() == 0 {
        0
    } else {
        total_size(t, ks.drop_last()) + t[ks.last() as int].size
    }
}

/// The tree after recording `entry` of the directory `parent`.
pub open spec fn after_entry(t: Seq<NodeView>, parent: int, entry: EntryInfo) -> Seq<NodeView> {
    match entry {
        EntryInfo::Unreadable => t.update(
            parent,
            NodeView { unable_to_read: true, ..t[parent] },
        ),
        EntryInfo::File { path, len: Some(len) } => with_new_child(t, parent, path@, false, len),
        EntryInfo::Dir { path } => with_new_child(t, parent, path@, true, 0),
        _ => t,
    }
}

impl DirTree {
    /// Records one entry of the directory at `parent_idx`: a file is added
    /// with its length, a directory with size 0 (its index is returned, to be
    /// scanned in turn), an unreadable entry marks the directory; symlinks,
    /// other kinds of entries and files without metadata are left out.
    pub fn record_entry(&mut self, parent_idx: usize, entry: EntryInfo) -> (r: Option<usize>)
        requires
            old(self).wf(),
            parent_idx < old(self)@.len(),
            old(self)@.len() < ARENA_LIMIT,
        ensures
            final(self).wf(),
            final(self)@ == after_entry(old(self)@, parent_idx as int, entry),
            r == (match entry {
                EntryInfo::Dir { .. } => Some(old(self)@.len() as usize),
                _ => None::<usize>,
            }),
    {
        match entry {
            EntryInfo::Unreadable => {
                self.set_unable_to_read(parent_idx);
                None
            },
            EntryInfo::Symlink => None,
            EntryInfo::File { path, len } => {
                match len {
                    Some(len) => {
                        self.add_node(path, false, len, parent_idx);
                    },
                    None => {},
                }
                None
            },
            EntryInfo::Dir { path } => Some(self.add_node(path, true, 0, parent_idx)),
            EntryInfo::Other => None,
        }
    }

    /// The sum of the sizes of the children of `idx`, when it fits in a `u64`.
    pub fn children_size_total(&self, idx: usize) -> (r: Option<u64>)
        requires
            self.wf(),
            idx < self@.len(),
        ensures
            r == (if total_size(self@, self@[idx as int].children) <= u64::MAX {
                Some(total_size(self@, self@[idx as int].children) as u64)
            } else {
                None::<u64>
            }),
    {
        let node = self.get_node(idx);
        let ghost ks = self@[idx as int].children;
        let mut sum: u64 = 0;
        let mut k: usize = 0;
        while k < child_list_count(&node.children)
            invariant
                self.wf(),
                idx < self@.len(),
                node@ == self@[idx as int],
                ks == child_indices(node.children),
                k <= ks.len(),
                sum == total_size(self@, ks.subrange(0, k as int)),
            decreases ks.len() - k,
        {
            let c = child_list_get(&node.children, k);
            proof {
                self.lemma_wf_shape();
                assert(crate::tree::child_ok(self@, idx as int, k as int));
                assert(ks.subrange(0, k + 1).drop_last() =~= ks.subrange(0, k as int));
                lemma_total_size_prefix_grows(self@, ks, k as int);
            }
            let size = self.get_node(c).size;
            match sum.checked_add(size) {
                Some(s) => sum = s,
                None => {
                    proof {
                        lemma_total_size_prefix_grows_all(self@, ks, (k + 1) as int);
                    }
                    return None;
                },
            }
            k += 1;
        }
        assert(ks.subrange(0, ks.len() as int) =~= ks);
        Some(sum)
    }

    /// Sets the size of the directory `idx` to the sum of its children's sizes,
    /// once they are all known.
    pub fn finish_dir(&mut self, idx: usize)
        requires
            old(self).wf(),
            idx < old(self)@.len(),
            total_size(old(self)@, old(self)@[idx as int].children) <= u64::MAX,
        ensures
            final(self).wf(),
            final(self)@ == old(self)@.update(
                idx as int,
                with_size(old(self)@[idx as int], total_size(old(self)@, old(self)@[idx as int].children) as u64),
            ),
    {
        let total = self.children_size_total(idx);
        self.set_size(idx, total.unwrap());
    }
}

/// Extending a prefix by one child adds that child's size.
proof fn lemma_total_size_prefix_grows(t: Seq<NodeView>, ks: Seq<usize>, k: int)
    requires
        0 <= k < ks.len(),
    ensures
        total_size(t, ks.subrange(0, k + 1)) == total_size(t, ks.subrange(0, k)) + t[ks[k] as int].size,
{
    assert(ks.subrange(0, k + 1).drop_last() =~= ks.subrange(0, k));
}

/// Sums of longer prefixes are no smaller.
proof fn lemma_total_size_prefix_grows_all(t: Seq<NodeView>, ks: Seq<usize>, k: int)
    requires
        0 <= k <= ks.len(),
    ensures
        total_size(t, ks) >= total_size(t, ks.subrange(0, k)),
    decreases ks.len() - k,
{
    if k < ks.len() {
        lemma_total_size_prefix_grows(t, ks, k);
        lemma_total_size_prefix_grows_all(t, ks, k + 1);
    } else {
        assert(ks.subrange(0, k) =~= ks);
    }
}

} // verus!
