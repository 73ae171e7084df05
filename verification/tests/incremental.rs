use gdua::entry::ScanError;
use gdua::scanner::{ChildMeta, Scanner};

fn meta(path: &str, is_dir: bool, size: u64) -> ChildMeta {
    ChildMeta { path: path.to_string(), is_dir, size }
}

#[test]
fn scanner_walks_a_root() {
    let mut s = Scanner::new("/r".to_string());
    assert!(!s.finished());

    let w = s.take_work().expect("the root must be handed out");
    assert_eq!(w.path, "/r");

    let out = s.on_listing(vec![
        meta("/r/a", false, 10),
        meta("/r/b", true, 0),
    ]);
    assert_eq!(out.len(), 1);
    assert_eq!(out[0].path, "/r/a");
    assert_eq!(out[0].size, 10);
    assert!(!s.finished());

    let w = s.take_work().expect("the subdirectory must be handed out");
    assert_eq!(w.path, "/r/b");
    let out = s.on_listing(vec![meta("/r/b/c", false, 5)]);
    assert_eq!(out.len(), 1);
    assert_eq!(out[0].path, "/r/b/c");
    assert!(s.finished());
    assert!(s.error.is_none());
}

#[test]
fn scanner_empty_root_finishes_clean() {
    let mut s = Scanner::new("/r".to_string());
    let _ = s.take_work().expect("the root must be handed out");
    let out = s.on_listing(vec![]);
    assert_eq!(out.len(), 0);
    assert!(s.finished());
    assert!(s.error.is_none());
}

#[test]
fn scanner_queues_dirs_in_listing_order() {
    let mut s = Scanner::new("/r".to_string());
    let _ = s.take_work().unwrap();
    let out = s.on_listing(vec![
        meta("/r/a", true, 0),
        meta("/r/b", true, 0),
    ]);
    assert_eq!(out.len(), 0);
    // Work is handed out from the back of the queue.
    assert_eq!(s.take_work().unwrap().path, "/r/b");
    assert_eq!(s.take_work().unwrap().path, "/r/a");
}

#[test]
fn scanner_fail_fast() {
    let mut s = Scanner::new("/r".to_string());
    let _ = s.take_work().unwrap();
    let _ = s.on_listing(vec![meta("/r/a", true, 0), meta("/r/b", true, 0)]);

    let _ = s.take_work().unwrap();
    s.on_error(ScanError::PermissionDenied);
    assert_eq!(s.error, Some(ScanError::PermissionDenied));
    assert!(s.finished());

    // After the failure no further work is handed out.
    assert!(s.take_work().is_none());
}

#[test]
fn scanner_first_error_wins() {
    let mut s = Scanner::new("/r".to_string());
    let _ = s.take_work().unwrap();
    let _ = s.on_listing(vec![meta("/r/a", true, 0), meta("/r/b", true, 0)]);
    let _ = s.take_work().unwrap();
    let _ = s.take_work().unwrap();
    s.on_error(ScanError::Metadata);
    s.on_error(ScanError::Other);
    assert_eq!(s.error, Some(ScanError::Metadata));
}

#[test]
fn scanner_discards_results_after_error() {
    let mut s = Scanner::new("/r".to_string());
    let _ = s.take_work().unwrap();
    let _ = s.on_listing(vec![meta("/r/a", true, 0), meta("/r/b", true, 0)]);
    let _ = s.take_work().unwrap();
    let _ = s.take_work().unwrap();
    s.on_error(ScanError::PermissionDenied);

    // An in-flight listing that lands after the failure emits nothing and
    // queues nothing.
    let out = s.on_listing(vec![meta("/r/a/x", false, 3), meta("/r/a/y", true, 0)]);
    assert_eq!(out.len(), 0);
    assert!(s.take_work().is_none());
}
