use diskard::app::{App, Command, Key, Modal};
use diskard::trav::{DeleteMode, DiskardError};
use diskard::tree::DirTree;

/// /r holds big.bin (30), docs/ (20: a.txt 5, b.md 15) and small.txt (10).
fn sample() -> (DirTree, usize, usize, usize, usize, usize) {
    let mut tree = DirTree::new(String::from("/r"));
    let small = tree.add_node("/r/small.txt".into(), false, 10, 0);
    let docs = tree.add_node("/r/docs".into(), true, 0, 0);
    let big = tree.add_node("/r/big.bin".into(), false, 30, 0);
    let a = tree.add_node("/r/docs/a.txt".into(), false, 5, docs);
    let b = tree.add_node("/r/docs/b.md".into(), false, 15, docs);
    tree.finish_dir(docs);
    tree.finish_dir(0);
    (tree, small, docs, big, a, b)
}

fn modal_text(app: &App) -> String {
    match app.modal() {
        Modal::Error(s) => s.clone(),
        Modal::Closed => "closed".into(),
        Modal::ConfirmTrash(i) => format!("trash {}", i),
        Modal::ConfirmDelete(i) => format!("delete {}", i),
    }
}

#[test]
fn new_app_starts_at_the_root() {
    let (tree, small, docs, big, _, _) = sample();
    let app = App::new(tree);
    assert_eq!(app.nav_stack(), &vec![(0, 0)]);
    assert_eq!(app.list_selected(), Some(0));
    assert_eq!(app.children(), vec![big, docs, small]);
    assert_eq!(app.current_node_idx(), 0);
    assert!(!app.show_types() && !app.refreshing());
}

#[test]
fn moving_stays_within_the_listing() {
    let (tree, ..) = sample();
    let mut app = App::new(tree);
    app.move_up();
    assert_eq!(app.selected_idx(), 0);
    app.move_down();
    app.move_down();
    app.move_down();
    assert_eq!(app.selected_idx(), 2);
    assert_eq!(app.list_selected(), Some(2));
    app.move_up();
    assert_eq!(app.selected_idx(), 1);
}

#[test]
fn enter_and_go_back() {
    let (tree, _, docs, _, a, b) = sample();
    let mut app = App::new(tree);
    app.enter(); // big.bin is a file: nothing happens
    assert_eq!(app.nav_stack(), &vec![(0, 0)]);
    app.move_down();
    app.enter();
    assert_eq!(app.nav_stack(), &vec![(0, 1), (docs, 0)]);
    assert_eq!(app.children(), vec![b, a]);
    app.go_back();
    assert_eq!(app.nav_stack(), &vec![(0, 1)]);
    assert_eq!(app.list_selected(), Some(1));
    app.go_back();
    assert_eq!(app.nav_stack(), &vec![(0, 1)]);
}

#[test]
fn keys_drive_the_browser() {
    let (tree, _, docs, big, _, _) = sample();
    let mut app = App::new(tree);
    assert_eq!(app.handle_key(Key::Char('j')), Command::Continue);
    assert_eq!(app.handle_key(Key::Enter), Command::Continue);
    assert_eq!(app.current_node_idx(), docs);
    assert_eq!(app.handle_key(Key::Char('h')), Command::Continue);
    assert_eq!(app.current_node_idx(), 0);
    assert_eq!(app.handle_key(Key::Up), Command::Continue);
    assert_eq!(app.handle_key(Key::Char('d')), Command::Continue);
    assert_eq!(modal_text(&app), format!("trash {}", big));
    // In a dialog, movement keys do nothing.
    assert_eq!(app.handle_key(Key::Down), Command::Continue);
    assert_eq!(app.selected_idx(), 0);
    assert_eq!(app.handle_key(Key::Char('n')), Command::Continue);
    assert_eq!(modal_text(&app), "closed");
    assert_eq!(app.handle_key(Key::Char('D')), Command::Continue);
    assert_eq!(modal_text(&app), format!("delete {}", big));
    assert_eq!(app.handle_key(Key::Char('y')), Command::Confirm);
    assert_eq!(app.handle_key(Key::Esc), Command::Continue);
    assert_eq!(app.handle_key(Key::Char('r')), Command::Refresh);
    assert_eq!(app.handle_key(Key::Other), Command::Continue);
    assert_eq!(app.handle_key(Key::Char('q')), Command::Quit);
    assert_eq!(app.handle_key(Key::Esc), Command::Quit);
}

#[test]
fn file_types_view() {
    let (tree, ..) = sample();
    let mut app = App::new(tree);
    assert_eq!(app.handle_key(Key::Char('t')), Command::Continue);
    assert!(app.show_types());
    let rows: Vec<(String, u64)> = app.type_rows().iter().map(|r| (r.extension.clone(), r.size)).collect();
    assert_eq!(rows, vec![(".bin".to_string(), 30), (".md".to_string(), 15), (".txt".to_string(), 15)]);
    assert_eq!(app.type_selected(), Some(0));
    app.handle_key(Key::Char('j'));
    app.handle_key(Key::Char('j'));
    app.handle_key(Key::Char('j'));
    assert_eq!(app.type_selected(), Some(2));
    app.handle_key(Key::Char('k'));
    assert_eq!(app.type_selected(), Some(1));
    assert_eq!(app.handle_key(Key::Char('t')), Command::Continue);
    assert!(!app.show_types());
    app.handle_key(Key::Char('t'));
    assert_eq!(app.handle_key(Key::Char('q')), Command::Quit);
}

#[test]
fn file_types_view_reports_overflow() {
    let mut tree = DirTree::new(String::from("/r"));
    tree.add_node("/r/a".into(), false, u64::MAX, 0);
    tree.add_node("/r/b".into(), false, 1, 0);
    let mut app = App::new(tree);
    assert_eq!(app.handle_key(Key::Char('t')), Command::SizeOverflow);
    assert!(!app.show_types());
}

#[test]
fn confirmed_trash_removes_the_item() {
    let (tree, small, docs, big, _, _) = sample();
    let mut app = App::new(tree);
    app.move_down();
    app.move_down();
    app.handle_key(Key::Char('d'));
    let removal = app.pending_removal().unwrap();
    assert_eq!(removal.idx, small);
    assert_eq!(removal.path, "/r/small.txt");
    assert!(matches!(removal.mode, DeleteMode::Trash));
    assert!(!removal.is_dir);
    app.finish_removal(Ok(()));
    assert_eq!(modal_text(&app), "closed");
    assert!(app.tree().get_node(small).deleted);
    assert_eq!(app.tree().get_node(0).size, 50);
    assert_eq!(app.children(), vec![big, docs]);
    // The selection moved back onto the last row.
    assert_eq!(app.selected_idx(), 1);
}

#[test]
fn failed_removals_show_why() {
    let (tree, _, docs, _, _, _) = sample();
    let mut app = App::new(tree);
    app.move_down();
    app.handle_key(Key::Char('D'));
    let removal = app.pending_removal().unwrap();
    assert_eq!(removal.idx, docs);
    assert!(removal.is_dir);
    assert!(matches!(removal.mode, DeleteMode::Permanent));
    app.finish_removal(Err("Permission denied (os error 13)".into()));
    assert_eq!(modal_text(&app), "Delete failed: Permission denied (os error 13)");
    assert!(!app.tree().get_node(docs).deleted);
    assert_eq!(app.handle_key(Key::Enter), Command::Continue);
    assert_eq!(modal_text(&app), "closed");
    app.handle_key(Key::Char('d'));
    app.finish_removal(Err("no trash".into()));
    assert_eq!(modal_text(&app), "Trash failed: no trash");
    assert!(app.pending_removal().is_none());
}

#[test]
fn refresh_finds_the_same_place_again() {
    let (tree, ..) = sample();
    let mut app = App::new(tree);
    app.move_down();
    app.enter();
    app.move_down();
    assert_eq!(app.nav_stack(), &vec![(0, 1), (2, 1)]);
    assert_eq!(app.root_path(), "/r");
    // The rescan finds the same items, added in another order and with
    // a new file in docs.
    let mut fresh = DirTree::new(String::from("/r"));
    let docs = fresh.add_node("/r/docs".into(), true, 0, 0);
    fresh.add_node("/r/docs/new.log".into(), false, 100, docs);
    fresh.add_node("/r/docs/b.md".into(), false, 15, docs);
    fresh.add_node("/r/docs/a.txt".into(), false, 5, docs);
    fresh.add_node("/r/big.bin".into(), false, 30, 0);
    fresh.add_node("/r/small.txt".into(), false, 10, 0);
    fresh.finish_dir(docs);
    fresh.finish_dir(0);
    app.set_refreshing(true);
    assert!(app.refreshing());
    app.apply_refresh(Ok(fresh));
    // docs is now the largest entry at the root; a.txt is the third row of docs.
    assert_eq!(app.nav_stack(), &vec![(0, 0), (docs, 2)]);
    assert_eq!(app.list_selected(), Some(2));
    assert_eq!(modal_text(&app), "closed");
    assert!(app.type_rows().is_empty());
    app.set_refreshing(false);
    assert!(!app.refreshing());
}

#[test]
fn refresh_stops_where_directories_are_gone() {
    let (tree, ..) = sample();
    let mut app = App::new(tree);
    app.move_down();
    app.enter();
    app.move_down();
    let mut fresh = DirTree::new(String::from("/r"));
    fresh.add_node("/r/big.bin".into(), false, 30, 0);
    app.apply_refresh(Ok(fresh));
    // The old row 1 no longer exists: the last row is selected.
    assert_eq!(app.nav_stack(), &vec![(0, 0)]);
    let empty = DirTree::new(String::from("/elsewhere"));
    app.apply_refresh(Ok(empty));
    assert_eq!(app.nav_stack(), &vec![(0, 0)]);
    assert_eq!(app.list_selected(), None);
}

#[test]
fn failed_refresh_keeps_the_tree() {
    let (tree, ..) = sample();
    let mut app = App::new(tree);
    app.move_down();
    app.apply_refresh(Err(DiskardError::InternalError));
    assert_eq!(modal_text(&app), "Refresh failed: Internal Error");
    assert_eq!(app.nav_stack(), &vec![(0, 1)]);
    assert_eq!(app.tree().len(), 6);
}

#[test]
fn adjust_selection_clamps() {
    let (tree, _, docs, big, _, _) = sample();
    let mut app = App::new(tree);
    app.move_down();
    app.move_down();
    app.handle_key(Key::Char('d'));
    app.finish_removal(Ok(()));
    assert_eq!(app.selected_idx(), 1);
    app.handle_key(Key::Char('d'));
    assert_eq!(modal_text(&app), format!("trash {}", docs));
    app.finish_removal(Ok(()));
    assert_eq!(app.children(), vec![big]);
    assert_eq!(app.selected_idx(), 0);
    app.handle_key(Key::Char('d'));
    app.finish_removal(Ok(()));
    assert!(app.children().is_empty());
    assert_eq!(app.selected_idx(), 0);
    assert_eq!(app.list_selected(), Some(0));
    app.handle_key(Key::Char('d'));
    assert_eq!(modal_text(&app), "closed");
    app.cancel_modal();
    app.adjust_selection();
    assert_eq!(app.selected_idx(), 0);
}

#[test]
fn law_refresh_of_unchanged_tree_keeps_the_view() {
    let (tree, ..) = sample();
    let mut app = App::new(tree);
    app.move_down();
    app.enter();
    app.move_down();
    let before = app.nav_stack().clone();
    let (same, ..) = sample();
    app.apply_refresh(Ok(same));
    assert_eq!(app.nav_stack(), &before);
    assert_eq!(app.list_selected(), Some(1));
    // Also at the root, on its last row.
    let (tree, ..) = sample();
    let mut app = App::new(tree);
    app.move_down();
    app.move_down();
    app.move_down();
    let before = app.nav_stack().clone();
    let (same, ..) = sample();
    app.apply_refresh(Ok(same));
    assert_eq!(app.nav_stack(), &before);
}

#[test]
fn refresh_tells_paths_apart_by_their_bytes() {
    // Two directories whose names are not UTF-8 show the same text; the
    // bytes recorded for them tell which one was entered.
    let shown = "/r/\u{FFFD}";
    let build = |first: u8, second: u8| {
        let mut tree = DirTree::new(String::from("/r"));
        let d1 = tree.add_node(shown.into(), true, 0, 0);
        tree.set_raw_path(d1, vec![b'/', b'r', b'/', first]);
        tree.add_node(format!("{}/big", shown), false, 9, d1);
        let d2 = tree.add_node(shown.into(), true, 0, 0);
        tree.set_raw_path(d2, vec![b'/', b'r', b'/', second]);
        tree.add_node(format!("{}/small", shown), false, 1, d2);
        tree.finish_dir(d1);
        tree.finish_dir(d2);
        tree.finish_dir(0);
        (tree, d1, d2)
    };
    let (tree, _, _) = build(0xfe, 0xff);
    let mut app = App::new(tree);
    app.move_down();
    app.enter();
    // The second row, the directory with byte 0xff, is entered.
    let (_, _, d2) = build(0xfe, 0xff);
    assert_eq!(app.nav_stack(), &vec![(0, 1), (d2, 0)]);
    // In the rescan both directories show the same text; the first one
    // listed is not the one entered, and the bytes find the right one.
    let (fresh, _, d2) = build(0xfe, 0xff);
    app.apply_refresh(Ok(fresh));
    assert_eq!(app.nav_stack(), &vec![(0, 1), (d2, 0)]);
}
