use redmine_to_slack::activity::{get_activities, FeedEntry};
use redmine_to_slack::json::JsonValue;
use redmine_to_slack::reconcile::{refresh_updated_issues, sort_updates};
use redmine_to_slack::store::{snapshot_time, RedmineData};
use redmine_to_slack::time::MIN_TIME_MS;

fn issue(id: i64, updated_on: &str, status: &str) -> JsonValue {
    JsonValue::Obj(vec![
        ("id".to_string(), JsonValue::Int(id)),
        ("updated_on".to_string(), JsonValue::Str(updated_on.to_string())),
        ("subject".to_string(), JsonValue::Str(format!("issue {id}"))),
        ("status".to_string(), JsonValue::Str(status.to_string())),
    ])
}

fn feed_entry(id: u64, updated: i64, text: &str) -> FeedEntry {
    FeedEntry {
        id: format!("https://t.example/issues/{id}"),
        updated: Some(updated),
        title: Some("p - t".to_string()),
        author: "alice".to_string(),
        content: Some(text.to_string()),
    }
}

fn diff_field_of(d: &JsonValue, key: &str) -> Option<JsonValue> {
    match d {
        JsonValue::Obj(fields) => fields
            .iter()
            .find(|(k, _)| k == key)
            .map(|(_, v)| v.deep_clone()),
        _ => None,
    }
}

#[test]
fn first_run_emits_one_record_per_fetched_issue() {
    // Store starts empty (cursor = minimum time). The feed touched 5 and 7;
    // the snapshot fetch returned both. Two records come out, diffed against
    // an absent old snapshot.
    let mut store = RedmineData::empty();
    assert_eq!(store.prev_date, MIN_TIME_MS);
    let entries = vec![
        feed_entry(7, 200, "second note"),
        feed_entry(5, 100, "first note"),
    ];
    let activity = get_activities(store.prev_date, &entries, &None, 1000).unwrap();
    assert_eq!(activity.len(), 2);
    let fetched = vec![
        (5u64, issue(5, "2024-03-01T00:00:05Z", "Open")),
        (7u64, issue(7, "2024-03-01T00:00:07Z", "Open")),
    ];
    let mut updates =
        refresh_updated_issues(&mut store, "https://t.example", &activity, &fetched).unwrap();
    assert_eq!(updates.len(), 2);
    sort_updates(&mut updates);
    assert_eq!(updates[0].url, "https://t.example/issues/5");
    assert_eq!(updates[1].url, "https://t.example/issues/7");
    assert!(updates[0].local_updated_time <= updates[1].local_updated_time);
    // Diff against absent old: every entry is null.
    for u in &updates {
        assert!(diff_field_of(&u.old_items, "status").unwrap().eq_value(&JsonValue::Null));
        assert!(diff_field_of(&u.old_items, "subject").unwrap().eq_value(&JsonValue::Null));
    }
    // The store now holds both snapshots.
    assert!(store.get_issue(5).is_some());
    assert!(store.get_issue(7).is_some());
    // After a successful run the cursor advances to the maximum update time.
    let mut closing = RedmineData::empty();
    closing.set_issue(
        5,
        JsonValue::Obj(vec![
            ("updated_on".to_string(), JsonValue::Str("2024-03-01T00:00:05Z".to_string())),
            (
                "status".to_string(),
                JsonValue::Obj(vec![("is_closed".to_string(), JsonValue::Bool(false))]),
            ),
        ]),
    );
    closing.set_issue(
        7,
        JsonValue::Obj(vec![
            ("updated_on".to_string(), JsonValue::Str("2024-03-01T00:00:07Z".to_string())),
            (
                "status".to_string(),
                JsonValue::Obj(vec![("is_closed".to_string(), JsonValue::Bool(false))]),
            ),
        ]),
    );
    closing.purge_expired().unwrap();
    assert_eq!(
        closing.prev_date,
        snapshot_time(&issue(7, "2024-03-01T00:00:07Z", "Open")).unwrap()
    );
}

#[test]
fn second_run_diffs_against_stored_snapshot() {
    // Identifier 5's status changed from "Open" to "Closed" between runs.
    let mut store = RedmineData::empty();
    store.set_issue(5, issue(5, "2024-03-01T00:00:00Z", "Open"));
    let entries = vec![feed_entry(5, 300, "status changed")];
    let activity = get_activities(store.prev_date, &entries, &None, 1000).unwrap();
    let fetched = vec![(5u64, issue(5, "2024-03-02T00:00:00Z", "Closed"))];
    let updates =
        refresh_updated_issues(&mut store, "https://t.example", &activity, &fetched).unwrap();
    assert_eq!(updates.len(), 1);
    let d = &updates[0].old_items;
    assert!(diff_field_of(d, "status").unwrap().eq_value(&JsonValue::Str("Open".to_string())));
    assert!(diff_field_of(d, "updated_on")
        .unwrap()
        .eq_value(&JsonValue::Str("2024-03-01T00:00:00Z".to_string())));
    assert!(diff_field_of(d, "id").unwrap().eq_value(&JsonValue::Null));
    assert!(diff_field_of(d, "subject").unwrap().eq_value(&JsonValue::Null));
    // The store was refreshed with the new snapshot.
    let stored = store.get_issue(5).unwrap();
    assert!(stored.eq_value(&issue(5, "2024-03-02T00:00:00Z", "Closed")));
}

#[test]
fn records_carry_activity_items() {
    let mut store = RedmineData::empty();
    let entries = vec![feed_entry(5, 100, "a note")];
    let activity = get_activities(store.prev_date, &entries, &None, 1000).unwrap();
    let fetched = vec![(5u64, issue(5, "2024-03-01T00:00:00Z", "Open"))];
    let updates =
        refresh_updated_issues(&mut store, "https://t.example", &activity, &fetched).unwrap();
    assert_eq!(updates[0].update_contents.len(), 1);
    assert_eq!(updates[0].update_contents[0].author, "alice");
    assert_eq!(updates[0].update_contents[0].content, "a note");
}

#[test]
fn unparseable_update_time_fails_and_preserves_store() {
    let mut store = RedmineData::empty();
    store.set_issue(5, issue(5, "2024-03-01T00:00:00Z", "Open"));
    let entries = vec![feed_entry(5, 100, "x")];
    let activity = get_activities(MIN_TIME_MS, &entries, &None, 1000).unwrap();
    let fetched = vec![(5u64, issue(5, "yesterday-ish", "Open"))];
    let r = refresh_updated_issues(&mut store, "https://t.example", &activity, &fetched);
    assert!(r.is_err());
    let stored = store.get_issue(5).unwrap();
    assert!(stored.eq_value(&issue(5, "2024-03-01T00:00:00Z", "Open")));
}

#[test]
fn sort_updates_orders_by_time_ascending() {
    let mut store = RedmineData::empty();
    let entries = vec![
        feed_entry(3, 300, "c"),
        feed_entry(2, 200, "b"),
        feed_entry(1, 100, "a"),
    ];
    let activity = get_activities(MIN_TIME_MS, &entries, &None, 1000).unwrap();
    let fetched = vec![
        (1u64, issue(1, "2024-03-03T00:00:00Z", "Open")),
        (2u64, issue(2, "2024-03-01T00:00:00Z", "Open")),
        (3u64, issue(3, "2024-03-02T00:00:00Z", "Open")),
    ];
    let mut updates =
        refresh_updated_issues(&mut store, "https://t.example", &activity, &fetched).unwrap();
    sort_updates(&mut updates);
    assert_eq!(updates.len(), 3);
    assert_eq!(updates[0].url, "https://t.example/issues/2");
    assert_eq!(updates[1].url, "https://t.example/issues/3");
    assert_eq!(updates[2].url, "https://t.example/issues/1");
}
