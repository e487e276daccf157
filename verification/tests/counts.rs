use diskard::counts::file_counts;
use diskard::tree::DirTree;

#[test]
fn file_counts_count_live_files_below_each_node() {
    let mut tree = DirTree::new(String::from("/r"));
    let a = tree.add_node("/r/a".into(), false, 1, 0);
    let d = tree.add_node("/r/d".into(), true, 0, 0);
    let e = tree.add_node("/r/d/e".into(), true, 0, d);
    let f = tree.add_node("/r/d/e/f".into(), false, 1, e);
    let g = tree.add_node("/r/d/g".into(), false, 1, d);
    let empty = tree.add_node("/r/empty".into(), true, 0, 0);
    let counts = file_counts(&tree);
    assert_eq!(counts.len(), 7);
    assert_eq!(counts[0], 3);
    assert_eq!(counts[a], 1);
    assert_eq!(counts[d], 2);
    assert_eq!(counts[e], 1);
    assert_eq!(counts[f], 1);
    assert_eq!(counts[g], 1);
    assert_eq!(counts[empty], 0);
    tree.delete_node(e, true);
    let counts = file_counts(&tree);
    assert_eq!(counts[0], 2);
    assert_eq!(counts[d], 1);
    assert_eq!(counts[e], 0);
    assert_eq!(counts[f], 0);
}

#[test]
fn file_counts_do_not_pass_through_files() {
    let mut tree = DirTree::new(String::from("/r"));
    let f = tree.add_node("/r/f".into(), false, 1, 0);
    tree.add_node("/r/f/x".into(), false, 1, f);
    let counts = file_counts(&tree);
    assert_eq!(counts[0], 1);
    assert_eq!(counts[f], 1);
}
