use std::path::{Path, PathBuf};

use bfiles::tree::{DirTree, ROOT};

fn os_names(values: &[&str]) -> Vec<Vec<u8>> {
    values.iter().map(|v| v.as_bytes().to_vec()).collect()
}

fn components(path: &Path) -> Vec<Vec<u8>> {
    path.components().map(|c| c.as_os_str().as_encoded_bytes().to_vec()).collect()
}

fn as_path(bytes: Vec<u8>) -> PathBuf {
    PathBuf::from(String::from_utf8(bytes).unwrap())
}

#[test]
fn builds_paths_and_aggregates_bottom_up() {
    let mut tree = DirTree::new(Path::new("/scan/root").as_os_str().as_encoded_bytes());

    let children = tree.add_children(ROOT, os_names(&["a", "b"]));
    assert_eq!(children, 1..3);
    assert_eq!(tree.name(1), "a".as_bytes());
    assert_eq!(tree.name(2), "b".as_bytes());

    let grandchildren = tree.add_children(1, os_names(&["deep"]));
    assert_eq!(grandchildren, 3..4);

    tree.set_size(ROOT, 5);
    tree.set_size(1, 10);
    tree.set_size(2, 20);
    tree.set_size(3, 40);

    let mut chain = Vec::new();
    let mut path = Vec::new();
    tree.path_of(3, &mut chain, &mut path);
    assert_eq!(as_path(path), PathBuf::from("/scan/root").join("a").join("deep"));
    assert_eq!(as_path(tree.relative_path_of(3)), PathBuf::from("a").join("deep"));

    tree.aggregate();

    assert_eq!(tree.size(3), 40);
    assert_eq!(tree.size(1), 50, "child folds into parent");
    assert_eq!(tree.size(ROOT), 75, "root holds the grand total");

    assert_eq!(tree.find(&components(&PathBuf::from("a").join("deep"))), Some(3));
    assert_eq!(tree.find(&components(Path::new("missing"))), None);
}

#[test]
fn aggregate_puts_the_sum_of_all_sizes_at_the_root() {
    let mut tree = DirTree::new(b"/r");
    let top = tree.add_children(ROOT, os_names(&["x", "y", "z"]));
    let deep = tree.add_children(top.start + 2, os_names(&["w", "v"]));
    let sizes = [(ROOT, 1u64), (top.start, 2), (top.start + 1, 3), (top.start + 2, 4), (deep.start, 5), (deep.start + 1, 6)];
    for (id, size) in sizes {
        tree.set_size(id, size);
    }
    tree.aggregate();
    assert_eq!(tree.size(ROOT), 21);
    assert_eq!(tree.size(top.start + 2), 15);
    assert_eq!(tree.size(deep.start + 1), 6);
}

#[test]
fn parents_lengths_and_names() {
    let mut tree = DirTree::new(b"/home/me");
    assert_eq!(tree.len(), 1);
    assert_eq!(tree.parent(ROOT), None);
    assert_eq!(tree.name(ROOT), b"/home/me");
    let ids = tree.add_children(ROOT, os_names(&["docs"]));
    let inner = tree.add_children(ids.start, os_names(&["2024", "2025"]));
    assert_eq!(tree.len(), 4);
    assert_eq!(tree.parent(ids.start), Some(ROOT));
    assert_eq!(tree.parent(inner.start + 1), Some(ids.start));
    assert_eq!(tree.name(inner.start + 1), b"2025");
    assert_eq!(tree.size(inner.start), 0);
}

#[test]
fn find_takes_the_first_child_with_the_name() {
    let mut tree = DirTree::new(b"/r");
    let ids = tree.add_children(ROOT, os_names(&["same", "same"]));
    tree.add_children(ids.start + 1, os_names(&["only-in-second"]));
    assert_eq!(tree.find(&components(Path::new("same"))), Some(ids.start));
    assert_eq!(tree.find(&components(Path::new("same/only-in-second"))), None);
    assert_eq!(tree.find(&Vec::new()), Some(ROOT));
}

#[test]
fn paths_join_with_one_separator() {
    let mut tree = DirTree::new(b"/scan/");
    let ids = tree.add_children(ROOT, os_names(&["a"]));
    let mut chain = Vec::new();
    let mut path = Vec::new();
    tree.path_of(ids.start, &mut chain, &mut path);
    assert_eq!(path, b"/scan/a".to_vec());
    assert_eq!(chain, vec![ids.start, ROOT]);
}

#[test]
fn capacity_checks_count_nodes_and_name_bytes() {
    let tree = DirTree::new(b"/r");
    assert!(tree.can_add_children(&os_names(&["a", "b"])));
    assert!(tree.can_add_children(&Vec::new()));
}
