use stale_tracker::error::DecodeError;
use stale_tracker::error::Error;
use stale_tracker::stamp::Span;
use stale_tracker::stamp::Stamp;
use stale_tracker::stamp::elapsed;
use stale_tracker::stamp::fmt_duration;
use stale_tracker::store::Database;

fn stamp(secs: u64, nanos: u32) -> Stamp {
    Stamp::new(secs, nanos)
}

const TWO_DAYS: u64 = 172800;

#[test]
fn fmt_duration_three_days() {
    assert_eq!(fmt_duration(&Span::from_secs(259200)), "3 days, 0 seconds");
}

#[test]
fn fmt_duration_days_minutes_seconds() {
    assert_eq!(fmt_duration(&Span::from_secs(172890)), "2 days, 1 minutes, 30 seconds");
}

#[test]
fn fmt_duration_seconds_only() {
    assert_eq!(fmt_duration(&Span::from_secs(59)), "59 seconds");
}

#[test]
fn fmt_duration_zero() {
    assert_eq!(fmt_duration(&Span::from_secs(0)), "0 seconds");
}

#[test]
fn fmt_duration_minutes_without_days() {
    assert_eq!(fmt_duration(&Span::from_secs(3660)), "61 minutes, 0 seconds");
}

#[test]
fn elapsed_borrows_from_seconds() {
    let e = elapsed(&stamp(10, 600000000), &stamp(12, 100000000));
    assert_eq!(e.secs, 1);
    assert_eq!(e.nanos, 500000000);
}

#[test]
fn elapsed_exact_seconds() {
    let e = elapsed(&stamp(10, 5), &stamp(20, 5));
    assert_eq!(e.secs, 10);
    assert_eq!(e.nanos, 0);
}

#[test]
fn stale_includes_exact_threshold_excludes_one_less() {
    let mut db = Database::new();
    db.track_one(String::from("/exact"), stamp(1000, 0));
    db.track_one(String::from("/fresh"), stamp(1001, 0));
    let now = stamp(1000 + TWO_DAYS, 0);
    let report = db.get_stale_files(now, Span::from_secs(TWO_DAYS));
    assert_eq!(report.len(), 1);
    assert_eq!(report.render(), format!("\"/exact\": {}\n", fmt_duration(&Span::from_secs(TWO_DAYS))));
}

#[test]
fn stale_excludes_future_first_seen() {
    let mut db = Database::new();
    db.track_one(String::from("/future"), stamp(5000, 0));
    let now = stamp(4000, 0);
    let report = db.get_stale_files(now, Span::from_secs(0));
    assert_eq!(report.len(), 0);
}

#[test]
fn stale_report_two_day_threshold_example() {
    let mut db = Database::new();
    let now = stamp(1000000, 0);
    db.track_one(String::from("/a"), stamp(1000000 - 3 * 86400, 0));
    db.track_one(String::from("/b"), stamp(1000000 - 3600, 0));
    let report = db.get_stale_files(now, Span::from_secs(TWO_DAYS));
    assert_eq!(report.len(), 1);
    assert_eq!(report.render(), "\"/a\": 3 days, 0 seconds\n");
}

#[test]
fn stale_sub_second_boundary() {
    let mut db = Database::new();
    db.track_one(String::from("/almost"), stamp(1000, 1));
    let now = stamp(1000 + TWO_DAYS, 0);
    let report = db.get_stale_files(now, Span::from_secs(TWO_DAYS));
    assert_eq!(report.len(), 0);
}

#[test]
fn error_messages() {
    let e = Error::U64Parse { arg: String::from("abc") };
    assert_eq!(e.message(), "Argument 'abc' couldn't be parsed into a u64");
    let e = Error::InvalidHomeDir;
    assert_eq!(e.message(), "Couldn't find a valid $HOME directory");
    let e = Error::DatabaseDeserialize {
        path: String::from("/data/database.ron"),
        cause: DecodeError::DuplicatePath,
    };
    assert_eq!(
        e.message(),
        "Couldn't deserialize the database file from /data/database.ron: the store text names the same path twice"
    );
    let e = Error::DataDirCreation {
        path: String::from("/data"),
        detail: String::from("permission denied"),
    };
    assert_eq!(e.message(), "Couldn't create data directory /data: permission denied");
}
