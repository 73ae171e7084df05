use gdua::entry::{classify_entry, Entry, ScanError};
use gdua::model::{FsChild, FsNode};
use gdua::walk::{analyze_disk_usage, scan_snapshot, ScanOutcome};

fn file(size: u64) -> FsNode {
    FsNode::File { size }
}

fn dir(children: Vec<FsChild>) -> FsNode {
    FsNode::Dir { children }
}

fn child(path: &str, node: FsNode) -> FsChild {
    FsChild { path: path.to_string(), node }
}

fn sorted_records(r: &ScanOutcome) -> Vec<(String, u64)> {
    let mut v: Vec<(String, u64)> = r.entries.iter().map(|e| (e.path.clone(), e.size)).collect();
    v.sort();
    v
}

fn size_total(r: &ScanOutcome) -> u64 {
    r.entries.iter().map(|e| e.size).sum()
}

/// The tree of the concrete scenario: `/r` holds file `/r/a` (size 10) and
/// directory `/r/b`, which holds file `/r/b/c` (size 5) and the empty
/// directory `/r/b/d`.
fn scenario_tree() -> FsNode {
    dir(vec![
        child("/r/a", file(10)),
        child("/r/b", dir(vec![child("/r/b/c", file(5)), child("/r/b/d", dir(vec![]))])),
    ])
}

#[test]
fn classify_file_child() {
    let e = classify_entry("/x/f".to_string(), false, 42);
    match e {
        Entry::File(f) => {
            assert_eq!(f.path, "/x/f");
            assert_eq!(f.size, 42);
        }
        Entry::Dir(_) => panic!("a non-directory must classify as a file"),
    }
}

#[test]
fn classify_dir_child() {
    let e = classify_entry("/x/d".to_string(), true, 0);
    match e {
        Entry::Dir(d) => assert_eq!(d.path, "/x/d"),
        Entry::File(_) => panic!("a directory must classify as a directory"),
    }
}

#[test]
fn concrete_scenario() {
    let t = scenario_tree();
    let r = analyze_disk_usage("/r".to_string(), &t);
    assert!(r.error.is_none());
    assert_eq!(r.entries.len(), 2);
    assert_eq!(size_total(&r), 15);
    assert_eq!(
        sorted_records(&r),
        vec![("/r/a".to_string(), 10), ("/r/b/c".to_string(), 5)]
    );
}

#[test]
fn completeness_multiset() {
    // Two files of equal size and equal-size siblings deeper down: every
    // reachable file appears exactly once, none twice, none missing.
    let t = dir(vec![
        child("/r/a", file(3)),
        child("/r/b", file(3)),
        child(
            "/r/c",
            dir(vec![child("/r/c/a", file(3)), child("/r/c/d", dir(vec![child("/r/c/d/e", file(0))]))]),
        ),
    ]);
    let r = analyze_disk_usage("/r".to_string(), &t);
    assert!(r.error.is_none());
    assert_eq!(
        sorted_records(&r),
        vec![
            ("/r/a".to_string(), 3),
            ("/r/b".to_string(), 3),
            ("/r/c/a".to_string(), 3),
            ("/r/c/d/e".to_string(), 0),
        ]
    );
}

#[test]
fn sum_invariant() {
    let t = dir(vec![
        child("/r/a", file(1)),
        child("/r/b", dir(vec![child("/r/b/c", file(2)), child("/r/b/d", file(4))])),
        child("/r/e", file(8)),
    ]);
    let r = analyze_disk_usage("/r".to_string(), &t);
    assert!(r.error.is_none());
    assert_eq!(size_total(&r), 15);
    assert_eq!(r.entries.len(), 4);
}

#[test]
fn order_independence() {
    // Two scans of the same unmutated tree: whatever the emission orders,
    // the multisets, counts and size totals agree.
    let t = scenario_tree();
    let r1 = analyze_disk_usage("/r".to_string(), &t);
    let r2 = analyze_disk_usage("/r".to_string(), &t);
    assert_eq!(sorted_records(&r1), sorted_records(&r2));
    assert_eq!(r1.entries.len(), r2.entries.len());
    assert_eq!(size_total(&r1), size_total(&r2));
}

#[test]
fn snapshot_scan_agrees_with_walk() {
    // The incremental engine and the recursive walk deliver the same
    // multiset for the same tree, whatever their emission orders.
    let t = scenario_tree();
    let walked = analyze_disk_usage("/r".to_string(), &t);
    let scanned = scan_snapshot("/r".to_string(), &t);
    assert!(scanned.error.is_none());
    assert_eq!(sorted_records(&scanned), sorted_records(&walked));
    assert_eq!(size_total(&scanned), 15);
}

#[test]
fn snapshot_scan_wide_tree() {
    // Many siblings at several depths: the engine's queue grows and drains
    // across iterations, and every file still comes out exactly once.
    let mut top: Vec<gdua::model::FsChild> = Vec::new();
    let mut expected: Vec<(String, u64)> = Vec::new();
    for d in 0..5u64 {
        let mut inner: Vec<gdua::model::FsChild> = Vec::new();
        for f in 0..4u64 {
            let path = format!("/r/d{}/f{}", d, f);
            inner.push(child(&path, file(d * 10 + f)));
            expected.push((path, d * 10 + f));
        }
        top.push(child(&format!("/r/d{}", d), dir(inner)));
    }
    expected.sort();
    let t = dir(top);
    let r = scan_snapshot("/r".to_string(), &t);
    assert!(r.error.is_none());
    assert_eq!(sorted_records(&r), expected);
    assert_eq!(size_total(&r), expected.iter().map(|e| e.1).sum::<u64>());
}

#[test]
fn snapshot_scan_file_root_fails() {
    let r = scan_snapshot("/r".to_string(), &file(4));
    assert_eq!(r.error, Some(ScanError::NotADirectory));
    assert_eq!(r.entries.len(), 0);
}

#[test]
fn snapshot_scan_fail_fast() {
    let t = dir(vec![
        child("/r/a", file(2)),
        child("/r/locked", FsNode::Denied),
    ]);
    let r = scan_snapshot("/r".to_string(), &t);
    assert_eq!(r.error, Some(ScanError::PermissionDenied));
    for e in &r.entries {
        assert_eq!(e.path, "/r/a");
    }
}

#[test]
fn empty_tree() {
    let t = dir(vec![]);
    let r = analyze_disk_usage("/r".to_string(), &t);
    assert!(r.error.is_none());
    assert_eq!(r.entries.len(), 0);
}

#[test]
fn single_file_root_error() {
    let t = file(10);
    let r = analyze_disk_usage("/r".to_string(), &t);
    assert_eq!(r.error, Some(ScanError::NotADirectory));
    assert_eq!(r.entries.len(), 0);
}

#[test]
fn denied_root_error() {
    let t = FsNode::Denied;
    let r = analyze_disk_usage("/r".to_string(), &t);
    assert_eq!(r.error, Some(ScanError::PermissionDenied));
    assert_eq!(r.entries.len(), 0);
}

#[test]
fn fail_fast_on_permission_error() {
    // One subdirectory is unreadable: the scan ends with the permission
    // error, and no entry from the unreadable subtree is ever produced.
    let t = dir(vec![
        child("/r/a", file(10)),
        child("/r/locked", FsNode::Denied),
        child("/r/b", dir(vec![child("/r/b/c", file(5))])),
    ]);
    let r = analyze_disk_usage("/r".to_string(), &t);
    assert_eq!(r.error, Some(ScanError::PermissionDenied));
    for e in &r.entries {
        assert!(!e.path.starts_with("/r/locked"));
        assert!(e.path == "/r/a" || e.path == "/r/b/c");
    }
}

#[test]
fn denied_deep_in_tree() {
    let t = dir(vec![child(
        "/r/a",
        dir(vec![child("/r/a/b", dir(vec![child("/r/a/b/locked", FsNode::Denied)]))]),
    )]);
    let r = analyze_disk_usage("/r".to_string(), &t);
    assert_eq!(r.error, Some(ScanError::PermissionDenied));
    assert_eq!(r.entries.len(), 0);
}

#[test]
fn dirs_only_tree() {
    // A directory holding only subdirectories emits nothing of its own:
    // directories are never file entries.
    let t = dir(vec![
        child("/r/a", dir(vec![])),
        child("/r/b", dir(vec![child("/r/b/c", dir(vec![]))])),
    ]);
    let r = analyze_disk_usage("/r".to_string(), &t);
    assert!(r.error.is_none());
    assert_eq!(r.entries.len(), 0);
}

#[test]
fn entries_before_error_remain_valid() {
    // Siblings listed before the denied directory stay delivered.
    let t = dir(vec![child("/r/a", file(7)), child("/r/locked", FsNode::Denied)]);
    let r = analyze_disk_usage("/r".to_string(), &t);
    assert_eq!(r.error, Some(ScanError::PermissionDenied));
    assert_eq!(sorted_records(&r), vec![("/r/a".to_string(), 7)]);
}
