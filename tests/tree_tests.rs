use visfile::builder::{build_tree, checked_file_total, scan_tree, ScanEntry};
use visfile::error::VisError;
use visfile::rank::rank_by_size;
use visfile::tree::DirNode;

fn entry(name: &str, parent: usize, is_file: bool, size: u64) -> ScanEntry {
    ScanEntry {
        name: name.to_string(),
        path: format!("/p/{}", name),
        parent,
        is_file,
        size,
    }
}

#[test]
fn aggregation_sums_files() {
    let mut root = DirNode::new("r".to_string(), "/r".to_string(), false);
    let mut sub = DirNode::new("s".to_string(), "/r/s".to_string(), false);
    let mut f1 = DirNode::new("f1".to_string(), "/r/s/f1".to_string(), true);
    f1.size = 40;
    let mut f2 = DirNode::new("f2".to_string(), "/r/f2".to_string(), true);
    f2.size = 2;
    sub.add_child(f1);
    root.add_child(sub);
    root.add_child(f2);
    assert_eq!(root.calculate_total_size(), 42);
    assert_eq!(root.size, 42);
    assert_eq!(root.children[0].size, 40);
    assert_eq!(root.children[1].size, 2);
}

#[test]
fn empty_directory_has_size_zero() {
    let mut root = DirNode::new("r".to_string(), "/r".to_string(), false);
    assert_eq!(root.calculate_total_size(), 0);
}

#[test]
fn file_keeps_its_length() {
    let mut f = DirNode::new("f".to_string(), "/f".to_string(), true);
    f.size = 17;
    assert_eq!(f.calculate_total_size(), 17);
}

#[test]
fn builds_tree_in_walk_order() {
    // root(0) holds a(1) and d(2); d holds b(3) and c(4)
    let entries = vec![
        entry("a", 0, true, 5),
        entry("d", 0, false, 0),
        entry("b", 2, true, 7),
        entry("c", 2, true, 11),
    ];
    let root = build_tree("root".to_string(), "/p".to_string(), &entries);
    assert_eq!(root.name, "root");
    assert!(!root.is_file);
    assert_eq!(root.size, 0);
    assert_eq!(root.children.len(), 2);
    assert_eq!(root.children[0].name, "a");
    assert_eq!(root.children[0].size, 5);
    assert_eq!(root.children[1].name, "d");
    assert_eq!(root.children[1].path, "/p/d");
    assert_eq!(root.children[1].size, 0);
    let names: Vec<&str> = root.children[1].children.iter().map(|c| c.name.as_str()).collect();
    assert_eq!(names, vec!["b", "c"]);
}

#[test]
fn files_are_never_expanded() {
    // an entry that claims a file as its parent is left out
    let entries = vec![entry("f", 0, true, 3), entry("ghost", 1, true, 100)];
    let root = build_tree("root".to_string(), "/p".to_string(), &entries);
    assert_eq!(root.children.len(), 1);
    assert!(root.children[0].children.is_empty());
}

#[test]
fn scan_tree_aggregates_sizes() {
    let entries = vec![
        entry("a", 0, true, 5),
        entry("d", 0, false, 0),
        entry("b", 2, true, 7),
        entry("e", 2, false, 0),
        entry("c", 4, true, 11),
    ];
    let root = scan_tree("root".to_string(), "/p".to_string(), &entries).unwrap();
    assert_eq!(root.size, 23);
    assert_eq!(root.children[1].size, 18);
    assert_eq!(root.children[1].children[1].size, 11);
    assert_eq!(checked_file_total(&root), Some(23));
}

#[test]
fn scan_tree_reports_overflow() {
    let entries = vec![entry("a", 0, true, u64::MAX), entry("b", 0, true, 1)];
    let r = scan_tree("root".to_string(), "/p".to_string(), &entries);
    assert_eq!(r.err(), Some(VisError::SizeOverflow));
}

#[test]
fn rank_is_stable_and_drops_zeros() {
    let sizes = vec![5, 0, 9, 5, 1, 9];
    assert_eq!(rank_by_size(&sizes), vec![2, 5, 0, 3, 4]);
}
