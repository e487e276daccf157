//! The library's laws, checked on concrete trees.
use diskard::app::{App, Key};
use diskard::filetype::breakdown;
use diskard::counts::file_counts;
use diskard::listing::visible_children;
use diskard::trav::EntryInfo;
use diskard::tree::DirTree;

/// A tree as a scan leaves it: /r with two files and a directory of three.
fn scanned() -> (DirTree, Vec<usize>) {
    let mut tree = DirTree::new(String::from("/r"));
    let mut ids = Vec::new();
    ids.push(tree.record_entry(0, EntryInfo::File { path: "/r/a.txt".into(), len: Some(5) }).unwrap_or(1));
    ids.push(tree.record_entry(0, EntryInfo::File { path: "/r/b.bin".into(), len: Some(7) }).unwrap_or(2));
    let sub = tree.record_entry(0, EntryInfo::Dir { path: "/r/sub".into() }).unwrap();
    ids.push(sub);
    for (i, len) in [3u64, 11, 2].iter().enumerate() {
        tree.record_entry(sub, EntryInfo::File { path: format!("/r/sub/f{}.txt", i), len: Some(*len) });
    }
    tree.finish_dir(sub);
    tree.finish_dir(0);
    (tree, ids)
}

/// Every live directory's size is the sum of its live children's sizes.
fn consistent(tree: &DirTree) -> bool {
    (0..tree.len()).all(|d| {
        let node = tree.get_node(d);
        if !node.is_dir || node.deleted {
            return true;
        }
        let sum: u64 = node.children.iter().map(|(_, &c)| c).filter(|&c| !tree.get_node(c).deleted).map(|c| tree.get_node(c).size).sum();
        sum == node.size
    })
}

#[test]
fn law_scanned_tree_is_consistent() {
    let (tree, _) = scanned();
    assert!(consistent(&tree));
    assert_eq!(tree.get_node(0).size, 28);
}

#[test]
fn law_deleting_keeps_sizes_consistent() {
    let (mut tree, ids) = scanned();
    let sub = ids[2];
    let deep = tree.get_node(sub).children[1];
    tree.delete_node(deep, true);
    assert!(consistent(&tree));
    assert_eq!(tree.get_node(sub).size, 5);
    assert_eq!(tree.get_node(0).size, 17);
    tree.delete_node(sub, true);
    assert!(consistent(&tree));
    assert_eq!(tree.get_node(0).size, 12);
    tree.delete_node(ids[0], true);
    assert!(consistent(&tree));
    assert_eq!(tree.get_node(0).size, 7);
}

#[test]
fn law_breakdown_covers_the_directory() {
    // In a consistent tree the groups add up to the directory's size, and
    // their counts to its number of files.
    let (tree, _) = scanned();
    let rows = breakdown(&tree, 0);
    assert_eq!(rows.iter().map(|r| r.size).sum::<u64>(), tree.get_node(0).size);
    assert_eq!(rows.iter().map(|r| r.count).sum::<u64>(), file_counts(&tree)[0]);
}

#[test]
fn law_listing_is_the_live_children_largest_first() {
    let (mut tree, ids) = scanned();
    tree.delete_node(ids[0], true);
    let listed = visible_children(&tree, 0);
    assert_eq!(listed, vec![ids[2], ids[1]]);
    assert!(listed.windows(2).all(|w| tree.get_node(w[0]).size >= tree.get_node(w[1]).size));
}

#[test]
fn law_enter_then_back_returns() {
    let (tree, _) = scanned();
    let mut app = App::new(tree);
    // sub is the largest entry: row 0.
    let before = app.nav_stack().clone();
    app.handle_key(Key::Enter);
    assert_eq!(app.nav_stack().len(), 2);
    app.handle_key(Key::Left);
    assert_eq!(app.nav_stack(), &before);
    assert_eq!(app.list_selected(), Some(0));
}

#[test]
fn law_moves_stay_in_the_listing() {
    let (tree, _) = scanned();
    let mut app = App::new(tree);
    for _ in 0..10 {
        app.handle_key(Key::Down);
        assert!(app.selected_idx() < app.children().len());
    }
    for _ in 0..10 {
        app.handle_key(Key::Up);
        assert!(app.selected_idx() < app.children().len());
    }
}

#[test]
fn law_prompt_then_cancel_changes_nothing() {
    let (tree, _) = scanned();
    let mut app = App::new(tree);
    app.handle_key(Key::Char('d'));
    assert!(app.pending_removal().is_some());
    app.handle_key(Key::Char('n'));
    assert!(app.pending_removal().is_none());
    app.handle_key(Key::Char('D'));
    app.handle_key(Key::Esc);
    assert!(app.pending_removal().is_none());
    assert_eq!(app.nav_stack(), &vec![(0, 0)]);
}

#[test]
fn law_refresh_keeps_paths() {
    let (tree, ids) = scanned();
    let mut app = App::new(tree);
    app.handle_key(Key::Enter);
    let (fresh, _) = scanned();
    app.apply_refresh(Ok(fresh));
    let nav = app.nav_stack().clone();
    assert_eq!(nav.len(), 2);
    assert_eq!(app.tree().get_node(nav[0].0).path, "/r");
    assert_eq!(app.tree().get_node(nav[1].0).path, "/r/sub");
    assert_eq!(nav[1].0, ids[2]);
}

#[test]
fn law_breakdown_only_shrinks_after_delete() {
    let (mut tree, ids) = scanned();
    let sub = ids[2];
    let before = breakdown(&tree, 0);
    let gone = tree.get_node(sub).children[1];
    let gone_size = tree.get_node(gone).size;
    tree.delete_node(gone, true);
    let after = breakdown(&tree, 0);
    for r in &after {
        let b = before.iter().find(|b| b.extension == r.extension).unwrap();
        assert!(b.size >= r.size && b.count >= r.count);
    }
    let total = |rows: &[diskard::filetype::FileTypeTotal]| rows.iter().map(|r| r.size).sum::<u64>();
    let count = |rows: &[diskard::filetype::FileTypeTotal]| rows.iter().map(|r| r.count).sum::<u64>();
    assert_eq!(total(&after), total(&before) - gone_size);
    assert_eq!(count(&after), count(&before) - 1);
    // Deleting the whole directory takes its three files away.
    let (mut tree, ids) = scanned();
    let before = breakdown(&tree, 0);
    tree.delete_node(ids[2], true);
    let after = breakdown(&tree, 0);
    assert_eq!(total(&after), total(&before) - 16);
    assert_eq!(count(&after), count(&before) - 3);
}

#[test]
fn law_file_counts_are_the_files_below() {
    let (tree, _) = scanned();
    let counts = file_counts(&tree);
    for v in 0..tree.len() {
        let below = (0..tree.len())
            .filter(|&j| !tree.get_node(j).is_dir)
            .filter(|&j| {
                let mut x = Some(j);
                while let Some(y) = x {
                    if y == v {
                        return true;
                    }
                    x = tree.get_node(y).parent;
                }
                false
            })
            .count() as u64;
        assert_eq!(counts[v], below, "node {}", v);
    }
}

#[test]
fn deleting_under_a_file_wraps_its_size() {
    // A directory holding a file with a child: deleting the child wraps the
    // file's size, so the directory no longer adds up. This is why the size
    // law asks every ancestor of the deleted item to be a directory.
    let mut tree = DirTree::new(String::from("/r"));
    let f = tree.add_node("/r/f".into(), false, 1, 0);
    let g = tree.add_node("/r/g".into(), false, 100, 0);
    let x = tree.add_node("/r/f/x".into(), false, 10, f);
    tree.set_size(0, 101);
    tree.delete_node(x, true);
    assert_eq!(tree.get_node(f).size, u64::MAX - 8);
    assert_eq!(tree.get_node(0).size, 91);
    assert_eq!(tree.get_node(g).size, 100);
}
