use std::path::PathBuf;

use lilyabc_browser::index::{scan, SourceFile};
use lilyabc_browser::order::sort_by_keys;
use lilyabc_browser::tree::{build_tree, tree_from_names, DirNode};

fn names(list: &[&str]) -> Vec<String> {
    list.iter().map(|s| s.to_string()).collect()
}

fn dir_names(node: &DirNode) -> Vec<&str> {
    node.dirs.iter().map(|d| d.name.as_str()).collect()
}

#[test]
fn tree_groups_files_by_directory() {
    let list = vec![
        names(&["zeta", "b.ly"]),
        names(&["top.abc"]),
        names(&["Alpha", "x", "c.ly"]),
        names(&["zeta", "a.ly"]),
        names(&[]),
    ];
    let tree = tree_from_names("music".to_string(), &list);
    assert_eq!(tree.name, "music");
    assert_eq!(tree.files, vec![1, 4]);
    assert_eq!(dir_names(&tree), vec!["Alpha", "zeta"]);
    assert_eq!(tree.dirs[1].files, vec![0, 3]);
    assert!(tree.dirs[0].files.is_empty());
    assert_eq!(dir_names(&tree.dirs[0]), vec!["x"]);
    assert_eq!(tree.dirs[0].dirs[0].files, vec![2]);
}

#[test]
fn directories_are_ordered_without_regard_to_case() {
    let list = vec![
        names(&["b", "1"]),
        names(&["C", "1"]),
        names(&["B", "1"]),
        names(&["a", "1"]),
        names(&["Éclair", "1"]),
        names(&["été", "1"]),
    ];
    let tree = tree_from_names(String::new(), &list);
    // Names that differ only in case keep their order.
    assert_eq!(dir_names(&tree), vec!["a", "b", "B", "C", "Éclair", "été"]);
    assert_eq!(tree.dirs[1].files, vec![0]);
    assert_eq!(tree.dirs[2].files, vec![2]);
}

#[test]
fn tree_of_a_scanned_folder() {
    let files = vec![
        SourceFile { path: PathBuf::from("/home/m/sub/b.ly"), content: Vec::new() },
        SourceFile { path: PathBuf::from("/home/m/a.ly"), content: Vec::new() },
        SourceFile { path: PathBuf::from("/home/m/empty/readme.txt"), content: Vec::new() },
    ];
    let entries = scan(files);
    let tree = build_tree(&PathBuf::from("/home/m/"), &entries);
    assert_eq!(tree.name, "m");
    assert_eq!(tree.files, vec![0]);
    assert_eq!(dir_names(&tree), vec!["sub"]);
    assert_eq!(tree.dirs[0].files, vec![1]);
    // A root without a name is shown as it is, and files elsewhere keep their whole path.
    let root = build_tree(&PathBuf::from("/"), &entries);
    assert_eq!(root.name, "/");
    assert_eq!(dir_names(&root), vec!["home"]);
    let other = build_tree(&PathBuf::from("elsewhere"), &entries);
    assert_eq!(other.name, "elsewhere");
    assert_eq!(dir_names(&other), vec!["home"]);
    assert_eq!(dir_names(&build_tree(&PathBuf::from("/home/m/sub/b"), &entries)), vec!["home"]);
}

#[test]
fn one_more_file_changes_its_own_directory_only() {
    let mut list = vec![names(&["a", "1"]), names(&["b", "2"])];
    let before = tree_from_names("r".to_string(), &list);
    list.push(names(&["a", "3"]));
    let after = tree_from_names("r".to_string(), &list);
    assert_eq!(dir_names(&after), dir_names(&before));
    assert_eq!(after.dirs[0].files, vec![0, 2]);
    assert_eq!(after.dirs[1].files, before.dirs[1].files);
    assert_eq!(after.files, before.files);
}

#[test]
fn sorting_twice_is_sorting_once() {
    let keys = vec![vec![vec![2u8]], vec![vec![1]], vec![vec![2]], vec![]];
    let once = sort_by_keys(vec!['a', 'b', 'c', 'd'], keys.clone());
    let sorted_keys = sort_by_keys(keys.clone(), keys);
    assert_eq!(sort_by_keys(once.clone(), sorted_keys), once);
}

#[test]
fn empty_tree() {
    let tree = tree_from_names("r".to_string(), &Vec::new());
    assert!(tree.dirs.is_empty() && tree.files.is_empty());
    assert_eq!(DirNode::default().name, "");
}

#[test]
fn sorting_by_keys_is_stable() {
    let key = |s: &str| vec![s.as_bytes().to_vec()];
    let sorted = sort_by_keys(
        vec![0, 1, 2, 3, 4, 5],
        vec![key("b"), key("a"), key("b"), key("ab"), key(""), key("a")],
    );
    assert_eq!(sorted, vec![4, 1, 5, 3, 0, 2]);
    let none: Vec<u8> = sort_by_keys(Vec::new(), Vec::new());
    assert!(none.is_empty());
    let nested = sort_by_keys(
        vec!['x', 'y', 'z'],
        vec![vec![vec![1], vec![2]], vec![vec![1]], vec![vec![0, 9]]],
    );
    assert_eq!(nested, vec!['z', 'y', 'x']);
}
