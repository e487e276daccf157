use diskard::trav::{DiskardError, EntryInfo};
use diskard::tree::DirTree;

#[test]
fn record_entry_adds_files_with_their_length() {
    let mut tree = DirTree::new(String::from("/r"));
    let r = tree.record_entry(0, EntryInfo::File { path: "/r/a.txt".into(), len: Some(5) });
    assert_eq!(r, None);
    assert_eq!(tree.len(), 2);
    let node = tree.get_node(1);
    assert_eq!(node.path, "/r/a.txt");
    assert!(!node.is_dir);
    assert_eq!(node.size, 5);
    assert_eq!(node.parent, Some(0));
    assert_eq!(tree.get_node(0).children, vec![1]);
}

#[test]
fn record_entry_returns_directories_to_scan() {
    let mut tree = DirTree::new(String::from("/r"));
    tree.record_entry(0, EntryInfo::File { path: "/r/a".into(), len: Some(1) });
    let r = tree.record_entry(0, EntryInfo::Dir { path: "/r/sub".into() });
    assert_eq!(r, Some(2));
    assert!(tree.get_node(2).is_dir);
    assert_eq!(tree.get_node(2).size, 0);
}

#[test]
fn record_entry_skips_links_others_and_files_without_metadata() {
    let mut tree = DirTree::new(String::from("/r"));
    assert_eq!(tree.record_entry(0, EntryInfo::Symlink), None);
    assert_eq!(tree.record_entry(0, EntryInfo::Other), None);
    assert_eq!(tree.record_entry(0, EntryInfo::File { path: "/r/x".into(), len: None }), None);
    assert_eq!(tree.len(), 1);
    assert!(!tree.get_node(0).unable_to_read);
}

#[test]
fn record_entry_marks_unreadable_entries_on_the_directory() {
    let mut tree = DirTree::new(String::from("/r"));
    let sub = tree.record_entry(0, EntryInfo::Dir { path: "/r/sub".into() }).unwrap();
    assert_eq!(tree.record_entry(sub, EntryInfo::Unreadable), None);
    assert!(tree.get_node(sub).unable_to_read);
    assert!(!tree.get_node(0).unable_to_read);
    assert_eq!(tree.len(), 2);
}

#[test]
fn finish_dir_sums_children() {
    // The layout of the basic traversal: 5 + 7 bytes at the top, 3 in subdir.
    let mut tree = DirTree::new(String::from("/r"));
    tree.record_entry(0, EntryInfo::File { path: "/r/file_a.txt".into(), len: Some(5) });
    tree.record_entry(0, EntryInfo::File { path: "/r/file_b.txt".into(), len: Some(7) });
    let sub = tree.record_entry(0, EntryInfo::Dir { path: "/r/subdir".into() }).unwrap();
    tree.record_entry(sub, EntryInfo::File { path: "/r/subdir/file_c.txt".into(), len: Some(3) });
    assert_eq!(tree.children_size_total(sub), Some(3));
    tree.finish_dir(sub);
    assert_eq!(tree.get_node(sub).size, 3);
    tree.finish_dir(0);
    assert_eq!(tree.get_node(0).children.count(), 3);
    assert_eq!(tree.get_node(0).size, 15);
}

#[test]
fn children_size_total_reports_overflow() {
    let mut tree = DirTree::new(String::from("/r"));
    tree.add_node("/r/a".into(), false, u64::MAX, 0);
    assert_eq!(tree.children_size_total(0), Some(u64::MAX));
    tree.add_node("/r/b".into(), false, 1, 0);
    assert_eq!(tree.children_size_total(0), None);
}

#[test]
fn delete_after_scan_updates_root() {
    let mut tree = DirTree::new(String::from("/r"));
    let a = tree.add_node("/r/file_a.txt".into(), false, 5, 0);
    tree.add_node("/r/file_b.txt".into(), false, 7, 0);
    tree.finish_dir(0);
    let before = tree.get_node(0).size;
    assert_eq!(before, 12);
    let a_size = tree.get_node(a).size;
    tree.delete_node(a, true);
    assert!(tree.get_node(a).deleted);
    assert_eq!(tree.get_node(0).size, before - a_size);
}

#[test]
fn delete_node_wraps_like_the_counters() {
    let mut tree = DirTree::new(String::from("/r"));
    let a = tree.add_node("/r/a".into(), false, 10, 0);
    tree.set_size(0, 3);
    tree.delete_node(a, true);
    assert_eq!(tree.get_node(0).size, 3u64.wrapping_sub(10));
}

#[test]
fn delete_node_of_a_file_leaves_its_children() {
    let mut tree = DirTree::new(String::from("/r"));
    let f = tree.add_node("/r/f".into(), false, 1, 0);
    let under = tree.add_node("/r/f/x".into(), false, 1, f);
    tree.delete_node(f, false);
    assert!(tree.get_node(f).deleted);
    assert!(!tree.get_node(under).deleted);
}

#[test]
fn delete_node_deep_directory_marks_everything_below() {
    let mut tree = DirTree::new(String::from("/r"));
    let d1 = tree.add_node("/r/d1".into(), true, 0, 0);
    let d2 = tree.add_node("/r/d1/d2".into(), true, 0, d1);
    let f = tree.add_node("/r/d1/d2/f".into(), false, 4, d2);
    let g = tree.add_node("/r/g".into(), false, 2, 0);
    tree.delete_node(d1, false);
    assert!(tree.get_node(d1).deleted && tree.get_node(d2).deleted && tree.get_node(f).deleted);
    assert!(!tree.get_node(g).deleted && !tree.get_node(0).deleted);
}

#[test]
fn set_unable_to_read_sets_the_flag() {
    let mut tree = DirTree::new(String::from("/r"));
    tree.set_unable_to_read(0);
    assert!(tree.get_node(0).unable_to_read);
}

#[test]
fn trees_built_by_the_library_are_well_formed() {
    let mut tree = DirTree::new(String::from("/r"));
    assert!(tree.is_well_formed());
    let d = tree.add_node("/r/d".into(), true, 0, 0);
    tree.add_node("/r/d/f".into(), false, 1, d);
    tree.add_node("/r/g".into(), false, 1, 0);
    tree.delete_node(d, true);
    assert!(tree.is_well_formed());
    assert_eq!(tree.root(), 0);
}

#[test]
fn error_messages() {
    assert_eq!(DiskardError::InternalError.message(), "Internal Error");
    assert_eq!(DiskardError::DeleteFailed("nope".into()).message(), "Delete Failed: nope");
    let io = std::io::Error::new(std::io::ErrorKind::Other, "disk on fire");
    let m = DiskardError::IoError(io).message();
    assert_eq!(m, "IO Error: disk on fire");
}
