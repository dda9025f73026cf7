use redmine_to_slack::json::JsonValue;
use redmine_to_slack::store::{snapshot_is_closed, snapshot_time, RedmineData, RETENTION_MS};
use redmine_to_slack::time::MIN_TIME_MS;

fn snap(updated_on: &str, closed: bool) -> JsonValue {
    JsonValue::Obj(vec![
        ("updated_on".to_string(), JsonValue::Str(updated_on.to_string())),
        (
            "status".to_string(),
            JsonValue::Obj(vec![("is_closed".to_string(), JsonValue::Bool(closed))]),
        ),
    ])
}

#[test]
fn snapshot_time_parses_rfc3339() {
    let s = snap("1970-01-01T00:00:01Z", false);
    assert_eq!(snapshot_time(&s), Some(1000));
    let with_offset = snap("1970-01-01T01:00:00+01:00", false);
    assert_eq!(snapshot_time(&with_offset), Some(0));
    let bad = snap("not a date", false);
    assert_eq!(snapshot_time(&bad), None);
}

#[test]
fn snapshot_closed_reads_status() {
    assert_eq!(snapshot_is_closed(&snap("x", true)), Some(true));
    assert_eq!(snapshot_is_closed(&snap("x", false)), Some(false));
    let no_status = JsonValue::Obj(vec![]);
    assert_eq!(snapshot_is_closed(&no_status), None);
}

#[test]
fn retention_window_is_fifty_days() {
    assert_eq!(RETENTION_MS, 50 * 24 * 60 * 60 * 1000);
}

#[test]
fn purge_drops_only_old_closed_snapshots() {
    // Newest update 2024-03-01; boundary is exactly 2024-01-11 (50 days).
    let mut store = RedmineData::empty();
    store.set_issue(1, snap("2024-03-01T00:00:00Z", false));
    store.set_issue(2, snap("2024-01-11T00:00:00Z", true)); // closed, at boundary: dropped
    store.set_issue(3, snap("2024-01-11T00:00:00Z", false)); // open, same age: kept
    store.set_issue(4, snap("2024-02-01T00:00:00Z", true)); // closed, newer: kept
    store.purge_expired().unwrap();
    assert!(store.get_issue(1).is_some());
    assert!(store.get_issue(2).is_none());
    assert!(store.get_issue(3).is_some());
    assert!(store.get_issue(4).is_some());
    assert_eq!(store.prev_date, snapshot_time(&snap("2024-03-01T00:00:00Z", false)).unwrap());
}

#[test]
fn purge_on_empty_store_keeps_cursor() {
    let mut store = RedmineData::empty();
    store.purge_expired().unwrap();
    assert_eq!(store.prev_date, MIN_TIME_MS);
    assert!(store.issues.is_empty());
}

#[test]
fn cursor_is_monotonic_across_purges() {
    let mut store = RedmineData::empty();
    store.set_issue(1, snap("2024-03-01T00:00:00Z", false));
    store.purge_expired().unwrap();
    let c1 = store.prev_date;
    store.set_issue(2, snap("2024-04-01T00:00:00Z", false));
    store.purge_expired().unwrap();
    let c2 = store.prev_date;
    assert!(c1 <= c2);
    store.purge_expired().unwrap();
    assert!(c2 <= store.prev_date);
}

#[test]
fn purge_fails_on_snapshot_without_time() {
    let mut store = RedmineData::empty();
    store.set_issue(1, JsonValue::Obj(vec![]));
    assert!(store.purge_expired().is_err());
    // The store is untouched on failure.
    assert!(store.get_issue(1).is_some());
    assert_eq!(store.prev_date, MIN_TIME_MS);
}

#[test]
fn set_issue_replaces_existing_snapshot() {
    let mut store = RedmineData::empty();
    store.set_issue(7, snap("2024-01-01T00:00:00Z", false));
    store.set_issue(7, snap("2024-02-02T00:00:00Z", true));
    assert_eq!(store.issues.len(), 1);
    let v = store.get_issue(7).unwrap();
    assert_eq!(snapshot_is_closed(v), Some(true));
}
