use simple_notes::timestamp::{iso_to_timestamp, reconcile_updated, timestamp_to_iso};
use simple_notes::error::AppError;

#[test]
fn test_timestamp_to_iso_basic() {
    let ts = 1770202329000i64;
    let iso = timestamp_to_iso(ts);
    assert!(iso.starts_with("2026-02-04T"));
    assert!(iso.ends_with("Z"));
    assert!(!iso.contains("."));
}

#[test]
fn test_timestamp_to_iso_no_milliseconds() {
    let ts = 1770202329186i64;
    let iso = timestamp_to_iso(ts);
    assert!(!iso.contains("."));
    assert!(iso.ends_with("Z"));
}

#[test]
fn test_iso_to_timestamp_basic() {
    let iso = "2026-02-04T10:25:29Z";
    let ts = iso_to_timestamp(iso).unwrap();
    let back = timestamp_to_iso(ts);
    assert_eq!(back, iso);
}

#[test]
fn test_timestamp_roundtrip() {
    let original = 1770202329000i64;
    let iso = timestamp_to_iso(original);
    let parsed = iso_to_timestamp(&iso).unwrap();
    assert_eq!(original, parsed);
}

#[test]
fn test_timestamp_roundtrip_epoch_and_negative() {
    assert_eq!(timestamp_to_iso(0), "1970-01-01T00:00:00Z");
    assert_eq!(iso_to_timestamp("1970-01-01T00:00:00Z").unwrap(), 0);
    let before_epoch = -1000i64;
    let iso = timestamp_to_iso(before_epoch);
    assert_eq!(iso, "1969-12-31T23:59:59Z");
    assert_eq!(iso_to_timestamp(&iso).unwrap(), before_epoch);
}

#[test]
fn test_timestamp_to_iso_out_of_range_falls_back() {
    assert_eq!(timestamp_to_iso(i64::MAX), "1970-01-01T00:00:00Z");
    assert_eq!(timestamp_to_iso(i64::MIN), "1970-01-01T00:00:00Z");
}

#[test]
fn test_iso_to_timestamp_offset_forms() {
    let base = iso_to_timestamp("2026-02-04T10:25:29Z").unwrap();
    assert_eq!(
        iso_to_timestamp("2026-02-04T11:25:29+01:00").unwrap(),
        base
    );
    assert_eq!(iso_to_timestamp("2026-02-04T11:25:29+0100").unwrap(), base);
    assert_eq!(
        iso_to_timestamp("2026-02-04T05:25:29-05:00").unwrap(),
        base
    );
}

#[test]
fn test_iso_to_timestamp_fractional_seconds() {
    let base = iso_to_timestamp("2026-02-04T10:25:29Z").unwrap();
    assert_eq!(
        iso_to_timestamp("2026-02-04T10:25:29.123Z").unwrap(),
        base + 123
    );
    assert_eq!(
        iso_to_timestamp("2026-02-04T10:25:29.5Z").unwrap(),
        base + 500
    );
    assert_eq!(
        iso_to_timestamp("2026-02-04T10:25:29.1234Z").unwrap(),
        base + 123
    );
}

#[test]
fn test_iso_to_timestamp_space_separator_and_naive() {
    let base = iso_to_timestamp("2026-02-04T10:25:29Z").unwrap();
    assert_eq!(iso_to_timestamp("2026-02-04 10:25:29").unwrap(), base);
    assert_eq!(iso_to_timestamp("  2026-02-04T10:25:29  ").unwrap(), base);
}

#[test]
fn test_iso_to_timestamp_rejects_garbage() {
    for bad in ["", "garbage", "2026-02-04", "2026-13-01T00:00:00Z", "2026-02-30T00:00:00Z",
        "2026-02-04T24:00:00Z"] {
        match iso_to_timestamp(bad) {
            Err(AppError::InvalidTimestamp(t)) => assert_eq!(t, bad),
            other => panic!("expected InvalidTimestamp, got {:?}", other),
        }
    }
}

#[test]
fn test_reconcile_updated_precedence() {
    assert_eq!(reconcile_updated(100, Some(101)), 101);
    assert_eq!(reconcile_updated(100, Some(100)), 100);
    assert_eq!(reconcile_updated(100, Some(99)), 100);
    assert_eq!(reconcile_updated(100, None), 100);
}
