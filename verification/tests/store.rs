use stale_tracker::stamp::Stamp;
use stale_tracker::store::Database;
use stale_tracker::store::PathInput;

fn stamp(secs: u64, nanos: u32) -> Stamp {
    Stamp::new(secs, nanos)
}

#[test]
fn track_twice_keeps_first_timestamp() {
    let mut db = Database::new();
    db.track_one(String::from("/a"), stamp(100, 0));
    db.track_one(String::from("/a"), stamp(500, 7));
    assert_eq!(db.len(), 1);
    let t = db.get("/a").unwrap();
    assert_eq!(t.secs, 100);
    assert_eq!(t.nanos, 0);
}

#[test]
fn track_distinct_paths_keeps_both() {
    let mut db = Database::new();
    db.track_one(String::from("/a"), stamp(1, 0));
    db.track_one(String::from("/b"), stamp(2, 0));
    assert_eq!(db.len(), 2);
    assert_eq!(db.get("/a").unwrap().secs, 1);
    assert_eq!(db.get("/b").unwrap().secs, 2);
}

#[test]
fn untrack_removes_entry() {
    let mut db = Database::new();
    db.track_one(String::from("/a"), stamp(1, 0));
    db.track_one(String::from("/b"), stamp(2, 0));
    db.untrack_one("/a");
    assert_eq!(db.len(), 1);
    assert!(db.get("/a").is_none());
    assert_eq!(db.get("/b").unwrap().secs, 2);
}

#[test]
fn untrack_absent_is_noop() {
    let mut db = Database::new();
    db.track_one(String::from("/a"), stamp(1, 0));
    db.untrack_one("/zzz");
    assert_eq!(db.len(), 1);
}

#[test]
fn untrack_all_discards_everything() {
    let mut db = Database::new();
    db.track_one(String::from("/a"), stamp(1, 0));
    db.track_one(String::from("/b"), stamp(2, 0));
    db.untrack_all();
    assert_eq!(db.len(), 0);
    assert!(db.get("/a").is_none());
}

#[test]
fn track_batch_partitions_valid_and_invalid() {
    let mut db = Database::new();
    let inputs = vec![
        PathInput::resolved(String::from("x"), String::from("/x")),
        PathInput::unresolved(String::from("/does/not/exist")),
    ];
    let ignored = db.track_batch(inputs, stamp(10, 0));
    assert_eq!(db.len(), 1);
    assert!(db.get("/x").is_some());
    assert!(db.get("/does/not/exist").is_none());
    assert_eq!(ignored.len(), 1);
    assert_eq!(ignored[0], "/does/not/exist");
}

#[test]
fn track_batch_ignores_nothing_when_all_resolve() {
    let mut db = Database::new();
    let inputs = vec![
        PathInput::resolved(String::from("a"), String::from("/a")),
        PathInput::resolved(String::from("b"), String::from("/b")),
    ];
    let ignored = db.track_batch(inputs, stamp(10, 0));
    assert_eq!(db.len(), 2);
    assert!(ignored.is_empty());
}

#[test]
fn track_batch_same_canonical_twice_keeps_one() {
    let mut db = Database::new();
    let inputs = vec![
        PathInput::resolved(String::from("a"), String::from("/a")),
        PathInput::resolved(String::from("link-to-a"), String::from("/a")),
    ];
    let ignored = db.track_batch(inputs, stamp(10, 0));
    assert_eq!(db.len(), 1);
    assert!(ignored.is_empty());
}

#[test]
fn untrack_batch_removes_valid_reports_invalid() {
    let mut db = Database::new();
    db.track_one(String::from("/a"), stamp(1, 0));
    db.track_one(String::from("/b"), stamp(2, 0));
    let inputs = vec![
        PathInput::resolved(String::from("a"), String::from("/a")),
        PathInput::unresolved(String::from("gone")),
    ];
    let ignored = db.untrack_batch(inputs);
    assert_eq!(db.len(), 1);
    assert!(db.get("/a").is_none());
    assert_eq!(ignored.len(), 1);
    assert_eq!(ignored[0], "gone");
}

#[test]
fn retain_existing_prunes_cleared_entries() {
    let mut db = Database::new();
    db.track_one(String::from("/a"), stamp(1, 0));
    db.track_one(String::from("/b"), stamp(2, 0));
    db.track_one(String::from("/c"), stamp(3, 0));
    let keep = vec![true, false, true];
    db.retain_existing(&keep);
    assert_eq!(db.len(), 2);
    assert!(db.get("/a").is_some());
    assert!(db.get("/b").is_none());
    assert!(db.get("/c").is_some());
    let paths = db.paths();
    assert_eq!(paths, vec![String::from("/a"), String::from("/c")]);
}

#[test]
fn retain_existing_keep_all_is_noop() {
    let mut db = Database::new();
    db.track_one(String::from("/a"), stamp(1, 0));
    let keep = vec![true];
    db.retain_existing(&keep);
    assert_eq!(db.len(), 1);
}

#[test]
fn paths_lists_in_insertion_order() {
    let mut db = Database::new();
    db.track_one(String::from("/b"), stamp(1, 0));
    db.track_one(String::from("/a"), stamp(2, 0));
    assert_eq!(db.paths(), vec![String::from("/b"), String::from("/a")]);
}

#[test]
fn render_lists_paths_and_raw_stamps() {
    let mut db = Database::new();
    db.track_one(String::from("/a"), stamp(5, 7));
    db.track_one(String::from("/b"), stamp(8, 0));
    assert_eq!(db.render(), "\"/a\": (5, 7)\n\"/b\": (8, 0)\n");
}
