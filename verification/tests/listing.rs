use diskard::listing::visible_children;
use diskard::tree::DirTree;

#[test]
fn visible_children_largest_first_ties_in_order() {
    let mut tree = DirTree::new(String::from("/r"));
    let a = tree.add_node("/r/a".into(), false, 10, 0);
    let b = tree.add_node("/r/b".into(), false, 30, 0);
    let c = tree.add_node("/r/c".into(), false, 10, 0);
    let d = tree.add_node("/r/d".into(), true, 20, 0);
    assert_eq!(visible_children(&tree, 0), vec![b, d, a, c]);
}

#[test]
fn visible_children_leave_out_deleted() {
    let mut tree = DirTree::new(String::from("/r"));
    let a = tree.add_node("/r/a".into(), false, 10, 0);
    let b = tree.add_node("/r/b".into(), false, 30, 0);
    let c = tree.add_node("/r/c".into(), false, 20, 0);
    tree.delete_node(b, true);
    assert_eq!(visible_children(&tree, 0), vec![c, a]);
    assert_eq!(visible_children(&tree, a), Vec::<usize>::new());
}

#[test]
fn visible_children_many_entries_sorted() {
    let mut tree = DirTree::new(String::from("/r"));
    let mut sizes = Vec::new();
    let mut x: u64 = 12345;
    for i in 0..500 {
        x = x.wrapping_mul(6364136223846793005).wrapping_add(1442695040888963407);
        let size = (x >> 40) % 50;
        sizes.push(size);
        tree.add_node(format!("/r/{}", i), false, size, 0);
    }
    let listed = visible_children(&tree, 0);
    assert_eq!(listed.len(), 500);
    let mut expected: Vec<usize> = (1..=500).collect();
    expected.sort_by(|&a, &b| sizes[b - 1].cmp(&sizes[a - 1]));
    assert_eq!(listed, expected);
}
