use stale_tracker::codec::decode;
use stale_tracker::codec::encode;
use stale_tracker::codec::open_from;
use stale_tracker::error::DecodeError;
use stale_tracker::stamp::Stamp;
use stale_tracker::store::Database;

fn stamp(secs: u64, nanos: u32) -> Stamp {
    Stamp::new(secs, nanos)
}

#[test]
fn encode_empty_is_braces() {
    let db = Database::new();
    assert_eq!(encode(&db), "{}");
}

#[test]
fn encode_one_entry_exact_text() {
    let mut db = Database::new();
    db.track_one(String::from("/a"), stamp(5, 7));
    assert_eq!(encode(&db), "{\"/a\":(5,7)}");
}

#[test]
fn encode_escapes_quotes_and_backslashes() {
    let mut db = Database::new();
    db.track_one(String::from("/a\"b\\c"), stamp(1, 0));
    assert_eq!(encode(&db), "{\"/a\\\"b\\\\c\":(1,0)}");
}

#[test]
fn decode_empty_braces_is_empty_set() {
    let db = decode("{}").unwrap();
    assert_eq!(db.len(), 0);
}

#[test]
fn round_trip_empty() {
    let db = Database::new();
    let text = encode(&db);
    let back = decode(&text).unwrap();
    assert_eq!(back.len(), 0);
}

#[test]
fn round_trip_preserves_entries_and_order() {
    let mut db = Database::new();
    db.track_one(String::from("/a"), stamp(100, 25));
    db.track_one(String::from("/b b"), stamp(200, 0));
    db.track_one(String::from("/c\"quote\\slash"), stamp(u64::MAX, 999999999));
    let text = encode(&db);
    let back = decode(&text).unwrap();
    assert_eq!(back.len(), 3);
    assert_eq!(back.paths(), db.paths());
    let t = back.get("/c\"quote\\slash").unwrap();
    assert_eq!(t.secs, u64::MAX);
    assert_eq!(t.nanos, 999999999);
    assert_eq!(encode(&back), text);
}

#[test]
fn decode_rejects_empty_text() {
    assert!(matches!(decode(""), Err(DecodeError::Malformed)));
}

#[test]
fn decode_rejects_truncated_text() {
    assert!(matches!(decode("{\"a\":(1,2)"), Err(DecodeError::Malformed)));
}

#[test]
fn decode_rejects_trailing_garbage() {
    assert!(matches!(decode("{\"a\":(1,2)}x"), Err(DecodeError::Malformed)));
}

#[test]
fn decode_rejects_leading_zero_numeral() {
    assert!(matches!(decode("{\"a\":(01,2)}"), Err(DecodeError::Malformed)));
}

#[test]
fn decode_rejects_overlarge_nanos() {
    assert!(matches!(decode("{\"a\":(1,1000000000)}"), Err(DecodeError::Malformed)));
}

#[test]
fn decode_accepts_max_values() {
    let db = decode("{\"a\":(18446744073709551615,999999999)}").unwrap();
    let t = db.get("a").unwrap();
    assert_eq!(t.secs, u64::MAX);
    assert_eq!(t.nanos, 999999999);
}

#[test]
fn decode_rejects_secs_overflow() {
    assert!(matches!(decode("{\"a\":(18446744073709551616,0)}"), Err(DecodeError::Malformed)));
}

#[test]
fn decode_rejects_duplicate_path() {
    assert!(matches!(decode("{\"a\":(1,0),\"a\":(2,0)}"), Err(DecodeError::DuplicatePath)));
}

#[test]
fn decode_rejects_bare_word() {
    assert!(matches!(decode("garbage"), Err(DecodeError::Malformed)));
}

#[test]
fn decode_unescapes_path() {
    let db = decode("{\"a\\\"b\\\\c\":(3,4)}").unwrap();
    assert!(db.get("a\"b\\c").is_some());
}

#[test]
fn decode_rejects_unknown_escape() {
    assert!(matches!(decode("{\"a\\nb\":(1,0)}"), Err(DecodeError::Malformed)));
}

#[test]
fn open_from_missing_file_is_empty() {
    let db = open_from(None).unwrap();
    assert_eq!(db.len(), 0);
}

#[test]
fn open_from_corrupt_text_fails_not_empty() {
    assert!(open_from(Some("{corrupt")).is_err());
}

#[test]
fn clear_save_open_yields_empty() {
    let mut db = Database::new();
    db.track_one(String::from("/a"), stamp(1, 0));
    db.track_one(String::from("/b"), stamp(2, 0));
    db.untrack_all();
    let text = encode(&db);
    let back = open_from(Some(&text)).unwrap();
    assert_eq!(back.len(), 0);
}

#[test]
fn prune_then_save_does_not_reintroduce() {
    let mut db = Database::new();
    db.track_one(String::from("/gone"), stamp(1, 0));
    db.track_one(String::from("/here"), stamp(2, 0));
    let keep = vec![false, true];
    db.retain_existing(&keep);
    let text = encode(&db);
    let back = decode(&text).unwrap();
    assert!(back.get("/gone").is_none());
    assert!(back.get("/here").is_some());
    assert_eq!(back.len(), 1);
}
