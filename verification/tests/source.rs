use std::time::{Duration, SystemTime, UNIX_EPOCH};

use ql::source::{is_source_file, snapshots_equal, Snapshot};

fn stamp(time: SystemTime) -> u128 {
    time.duration_since(UNIX_EPOCH).map(|d| d.as_nanos()).unwrap_or(0)
}

#[test]
fn source_detects_source_extensions() {
    assert!(is_source_file("main.go"));
    assert!(is_source_file("lib.rs"));
    assert!(is_source_file("app.ts"));
    assert!(is_source_file("test.py"));
    assert!(!is_source_file("notes.txt"));
    assert!(!is_source_file("data.json"));
}

#[test]
fn tests_detects_source_extensions() {
    assert!(is_source_file("main.go"));
    assert!(is_source_file("lib.rs"));
    assert!(is_source_file("app.ts"));
    assert!(is_source_file("app.tsx"));
    assert!(is_source_file("test.py"));
    assert!(!is_source_file("notes.txt"));
    assert!(!is_source_file("data.json"));
}

#[test]
fn source_detects_snapshot_changes() {
    let now = SystemTime::now();
    let later = now.checked_add(Duration::from_secs(1)).unwrap();

    let mut left = Snapshot::new();
    left.insert("main.go".to_string(), stamp(now));

    let mut right_same = Snapshot::new();
    right_same.insert("main.go".to_string(), stamp(now));

    let mut right_diff = Snapshot::new();
    right_diff.insert("main.go".to_string(), stamp(later));

    assert!(snapshots_equal(&left, &right_same));
    assert!(!snapshots_equal(&left, &right_diff));
}

#[test]
fn source_detects_different_file_count() {
    let now = SystemTime::now();

    let mut left = Snapshot::new();
    left.insert("main.go".to_string(), stamp(now));

    let mut right = Snapshot::new();
    right.insert("main.go".to_string(), stamp(now));
    right.insert("lib.go".to_string(), stamp(now));

    assert!(!snapshots_equal(&left, &right));
}

#[test]
fn tests_detects_snapshot_changes() {
    let now = SystemTime::now();
    let later = now.checked_add(Duration::from_secs(1)).unwrap();

    let mut left = Snapshot::new();
    left.insert("lib.rs".to_string(), stamp(now));

    let mut right_same = Snapshot::new();
    right_same.insert("lib.rs".to_string(), stamp(now));

    let mut right_diff = Snapshot::new();
    right_diff.insert("lib.rs".to_string(), stamp(later));

    assert!(snapshots_equal(&left, &right_same));
    assert!(!snapshots_equal(&left, &right_diff));
}

#[test]
fn tests_detects_different_file_count() {
    let now = SystemTime::now();

    let mut left = Snapshot::new();
    left.insert("lib.rs".to_string(), stamp(now));

    let mut right = Snapshot::new();
    right.insert("lib.rs".to_string(), stamp(now));
    right.insert("mod.rs".to_string(), stamp(now));

    assert!(!snapshots_equal(&left, &right));
}

#[test]
fn snapshot_insert_replaces_and_ignores_order() {
    let mut a = Snapshot::new();
    a.insert("x.rs".to_string(), 1);
    a.insert("y.rs".to_string(), 2);
    a.insert("x.rs".to_string(), 3);
    assert_eq!(a.len(), 2);
    assert_eq!(a.get("x.rs"), Some(3));
    assert!(a.contains_key("y.rs"));
    assert!(!a.contains_key("z.rs"));

    let mut b = Snapshot::new();
    b.insert("y.rs".to_string(), 2);
    b.insert("x.rs".to_string(), 3);
    assert!(snapshots_equal(&a, &b));
    assert!(snapshots_equal(&b, &a));
}

#[test]
fn judges_paths_with_directories_by_their_file_name() {
    assert!(is_source_file("src/main.go"));
    assert!(is_source_file("/tmp/project/src/app.tsx"));
    assert!(is_source_file("a.b/lib.rs"));
    assert!(!is_source_file("src/notes.txt"));
    assert!(!is_source_file("src.rs/README"));
    assert!(!is_source_file("src/.rs"));
}
