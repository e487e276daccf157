use diskard::filetype::{
    breakdown, counted_size_total, file_extension_key, group_files, key_for_extension, FileTypeTotal,
};
use diskard::tree::DirTree;

fn rows(v: &[FileTypeTotal]) -> Vec<(String, u64, u64)> {
    v.iter().map(|r| (r.extension.clone(), r.size, r.count)).collect()
}

fn row(e: &str, s: u64, c: u64) -> (String, u64, u64) {
    (e.to_string(), s, c)
}

#[test]
fn extension_keys() {
    assert_eq!(file_extension_key(&"/a/b/photo.JPG".to_string()), ".jpg");
    assert_eq!(file_extension_key(&"/a/b/archive.tar.gz".to_string()), ".gz");
    assert_eq!(file_extension_key(&"/a/b/Makefile".to_string()), "(no extension)");
    assert_eq!(file_extension_key(&"/a/b/.bashrc".to_string()), "(no extension)");
    assert_eq!(file_extension_key(&"/a/b/trailing.".to_string()), "(no extension)");
    assert_eq!(file_extension_key(&"/a/b/ÉTÉ.TXT".to_string()), ".txt");
    assert_eq!(file_extension_key(&"/a/b/x.ÄÖ".to_string()), ".äö");
}

#[test]
fn keys_from_extensions() {
    assert_eq!(key_for_extension(Some("TXT".to_string())), ".txt");
    assert_eq!(key_for_extension(Some("Md".to_string())), ".md");
    assert_eq!(key_for_extension(Some(String::new())), "(no extension)");
    assert_eq!(key_for_extension(None), "(no extension)");
}

#[test]
fn breakdown_groups_and_orders() {
    let mut tree = DirTree::new(String::from("/r"));
    tree.add_node("/r/a.txt".into(), false, 5, 0);
    tree.add_node("/r/b.TXT".into(), false, 7, 0);
    let sub = tree.add_node("/r/sub".into(), true, 0, 0);
    tree.add_node("/r/sub/c.rs".into(), false, 12, sub);
    tree.add_node("/r/sub/README".into(), false, 1, sub);
    tree.add_node("/r/sub/d.md".into(), false, 1, sub);
    assert_eq!(
        rows(&breakdown(&tree, 0)),
        vec![row(".rs", 12, 1), row(".txt", 12, 2), row("(no extension)", 1, 1), row(".md", 1, 1)]
    );
    assert_eq!(
        rows(&breakdown(&tree, sub)),
        vec![row(".rs", 12, 1), row("(no extension)", 1, 1), row(".md", 1, 1)]
    );
}

#[test]
fn breakdown_skips_deleted_items_and_what_they_held() {
    let mut tree = DirTree::new(String::from("/r"));
    let a = tree.add_node("/r/a.txt".into(), false, 5, 0);
    tree.add_node("/r/b.txt".into(), false, 7, 0);
    let sub = tree.add_node("/r/sub".into(), true, 0, 0);
    tree.add_node("/r/sub/c.rs".into(), false, 12, sub);
    tree.delete_node(a, false);
    tree.delete_node(sub, false);
    assert_eq!(rows(&breakdown(&tree, 0)), vec![row(".txt", 7, 1)]);
    assert_eq!(rows(&breakdown(&tree, sub)), Vec::<(String, u64, u64)>::new());
}

#[test]
fn breakdown_of_a_file_counts_the_file() {
    let mut tree = DirTree::new(String::from("/r"));
    let f = tree.add_node("/r/notes.Md".into(), false, 9, 0);
    assert_eq!(rows(&breakdown(&tree, f)), vec![row(".md", 9, 1)]);
}

#[test]
fn breakdown_does_not_pass_through_files() {
    let mut tree = DirTree::new(String::from("/r"));
    let f = tree.add_node("/r/odd".into(), false, 1, 0);
    tree.add_node("/r/odd/inner.txt".into(), false, 4, f);
    assert_eq!(rows(&breakdown(&tree, 0)), vec![row("(no extension)", 1, 1)]);
}

#[test]
fn counted_size_total_sums_reached_files() {
    let mut tree = DirTree::new(String::from("/r"));
    tree.add_node("/r/a".into(), false, 5, 0);
    let sub = tree.add_node("/r/sub".into(), true, 100, 0);
    tree.add_node("/r/sub/b".into(), false, 7, sub);
    assert_eq!(counted_size_total(&tree, 0), Some(12));
    tree.add_node("/r/sub/c".into(), false, u64::MAX, sub);
    assert_eq!(counted_size_total(&tree, 0), None);
    assert_eq!(counted_size_total(&tree, 1), Some(5));
}

#[test]
fn group_files_uses_the_given_groups() {
    let mut tree = DirTree::new(String::from("/r"));
    tree.add_node("/r/a".into(), false, 3, 0);
    tree.add_node("/r/b".into(), false, 4, 0);
    let d = tree.add_node("/r/d".into(), true, 0, 0);
    tree.add_node("/r/d/c".into(), false, 3, d);
    let keys: Vec<String> = vec!["".into(), "x".into(), "y".into(), "".into(), "x".into()];
    let got = rows(&group_files(&tree, 0, &keys));
    assert_eq!(got, vec![row("x", 6, 2), row("y", 4, 1)]);
}
