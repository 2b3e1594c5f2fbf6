use dirwatch::change::Change;
use dirwatch::scan::{Node, inspect_dir_for_changes, is_excluded, join_path};

fn file(name: &str, mtime: u64) -> Node {
    Node::File { name: name.as_bytes().to_vec(), mtime }
}

fn dir(name: &str, entries: Vec<Node>) -> Node {
    Node::Dir { name: name.as_bytes().to_vec(), entries }
}

fn excl(names: &[&str]) -> Vec<Vec<u8>> {
    names.iter().map(|n| n.as_bytes().to_vec()).collect()
}

fn scan(root: &Node, base: &str, watermark: u64, exclusions: &Vec<Vec<u8>>) -> Vec<Change> {
    inspect_dir_for_changes(root, &base.as_bytes().to_vec(), watermark, exclusions)
}

#[test]
fn includes_only_strictly_newer() {
    let root = dir("r", vec![file("old.txt", 90), file("same.txt", 100), file("new.txt", 101)]);
    let changes = scan(&root, "/r", 100, &excl(&[]));
    assert_eq!(changes.len(), 1);
    assert_eq!(changes[0].path, b"/r/new.txt".to_vec());
    assert_eq!(changes[0].timestamp, 101);
}

#[test]
fn prunes_excluded_directory() {
    // Root `/r` holds `a.txt` (mtime T+5) and `target/b.txt` (mtime T+5);
    // with exclusion `target` and watermark T only `a.txt` is reported.
    let t: u64 = 1000;
    let root = dir(
        "r",
        vec![file("a.txt", t + 5), dir("target", vec![file("b.txt", t + 5)])],
    );
    let changes = scan(&root, "/r", t, &excl(&["target"]));
    assert_eq!(changes.len(), 1);
    assert_eq!(changes[0].path, b"/r/a.txt".to_vec());
    assert_eq!(changes[0].timestamp, t + 5);
}

#[test]
fn omits_excluded_file() {
    let root = dir("r", vec![file(".DS_Store", 500), file("kept.txt", 500)]);
    let changes = scan(&root, "/r", 100, &excl(&[".DS_Store"]));
    assert_eq!(changes.len(), 1);
    assert_eq!(changes[0].path, b"/r/kept.txt".to_vec());
}

#[test]
fn empty_tree_scans_empty() {
    let root = dir("r", vec![]);
    assert!(scan(&root, "/r", 0, &excl(&[])).is_empty());
    // A tree of directories with no file at all also reports nothing.
    let nested = dir("r", vec![dir("a", vec![dir("b", vec![])]), dir("c", vec![])]);
    assert!(scan(&nested, "/r", 0, &excl(&[])).is_empty());
}

#[test]
fn only_excluded_subdirs_scan_empty() {
    let root = dir(
        "r",
        vec![
            dir("target", vec![file("fresh.rs", 999)]),
            dir("node_modules", vec![file("fresh.js", 999)]),
        ],
    );
    let changes = scan(&root, "/r", 0, &excl(&["target", "node_modules"]));
    assert!(changes.is_empty());
}

#[test]
fn repeat_scan_same_watermark_is_idempotent() {
    // An unchanged tree with nothing newer than the watermark reports an
    // empty list however often it is scanned.
    let root = dir("r", vec![file("a.txt", 50), dir("d", vec![file("b.txt", 60)])]);
    let e = excl(&["target"]);
    let first = scan(&root, "/r", 60, &e);
    let second = scan(&root, "/r", 60, &e);
    assert!(first.is_empty());
    assert!(second.is_empty());
    // And with changes present, two scans agree exactly.
    let third = scan(&root, "/r", 55, &e);
    let fourth = scan(&root, "/r", 55, &e);
    assert_eq!(third, fourth);
    assert_eq!(third.len(), 1);
    assert_eq!(third[0].path, b"/r/d/b.txt".to_vec());
}

#[test]
fn reports_in_traversal_order() {
    let root = dir(
        "r",
        vec![
            file("one.txt", 10),
            dir("sub", vec![file("two.txt", 11), file("three.txt", 12)]),
            file("four.txt", 13),
        ],
    );
    let changes = scan(&root, "/r", 5, &excl(&[]));
    let paths: Vec<Vec<u8>> = changes.iter().map(|c| c.path.clone()).collect();
    assert_eq!(
        paths,
        vec![
            b"/r/one.txt".to_vec(),
            b"/r/sub/two.txt".to_vec(),
            b"/r/sub/three.txt".to_vec(),
            b"/r/four.txt".to_vec(),
        ]
    );
}

#[test]
fn exclusion_test_matches_names_exactly() {
    let e = excl(&["target", ".git"]);
    assert!(is_excluded(&b"target".to_vec(), &e));
    assert!(is_excluded(&b".git".to_vec(), &e));
    assert!(!is_excluded(&b"target2".to_vec(), &e));
    assert!(!is_excluded(&b"tar".to_vec(), &e));
    assert!(!is_excluded(&b"src".to_vec(), &e));
}

#[test]
fn join_path_appends_one_component() {
    let joined = join_path(&b"/r/sub".to_vec(), &b"file.txt".to_vec());
    assert_eq!(joined, b"/r/sub/file.txt".to_vec());
}

#[test]
fn change_new_keeps_fields() {
    let c = Change::new(b"/r/a".to_vec(), 42);
    assert_eq!(c.path, b"/r/a".to_vec());
    assert_eq!(c.timestamp, 42);
}
