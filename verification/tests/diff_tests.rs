use redmine_to_slack::diff::get_updated_items;
use redmine_to_slack::json::JsonValue;

fn make_issue_a(status: &str) -> JsonValue {
    JsonValue::Obj(vec![
        ("id".to_string(), JsonValue::Int(5)),
        ("status".to_string(), JsonValue::Str(status.to_string())),
        ("subject".to_string(), JsonValue::Str("A subject".to_string())),
    ])
}

fn field_of(v: &JsonValue, key: &str) -> JsonValue {
    match v {
        JsonValue::Obj(fields) => {
            for (k, val) in fields {
                if k == key {
                    return val.deep_clone();
                }
            }
            panic!("missing field {key}");
        }
        _ => panic!("not an object"),
    }
}

fn field_count(v: &JsonValue) -> usize {
    match v {
        JsonValue::Obj(fields) => fields.len(),
        _ => panic!("not an object"),
    }
}

#[test]
fn diff_of_identical_snapshots_is_all_null() {
    let s = make_issue_a("Open");
    let d = get_updated_items(Some(&s), &s);
    assert_eq!(field_count(&d), 3);
    assert!(field_of(&d, "id").eq_value(&JsonValue::Null));
    assert!(field_of(&d, "status").eq_value(&JsonValue::Null));
    assert!(field_of(&d, "subject").eq_value(&JsonValue::Null));
}

#[test]
fn diff_is_deterministic() {
    let old = make_issue_a("Open");
    let new = make_issue_a("Closed");
    let d1 = get_updated_items(Some(&old), &new);
    let d2 = get_updated_items(Some(&old), &new);
    assert!(d1.eq_value(&d2));
}

#[test]
fn changed_status_carries_old_value() {
    // A second run where the status changed from "Open" to "Closed": the
    // diff carries the old value for status and null for everything else.
    let old = make_issue_a("Open");
    let new = make_issue_a("Closed");
    let d = get_updated_items(Some(&old), &new);
    assert_eq!(field_count(&d), 3);
    assert!(field_of(&d, "status").eq_value(&JsonValue::Str("Open".to_string())));
    assert!(field_of(&d, "id").eq_value(&JsonValue::Null));
    assert!(field_of(&d, "subject").eq_value(&JsonValue::Null));
}

#[test]
fn absent_old_snapshot_yields_all_null() {
    let new = make_issue_a("Open");
    let d = get_updated_items(None, &new);
    assert_eq!(field_count(&d), 3);
    assert!(field_of(&d, "id").eq_value(&JsonValue::Null));
    assert!(field_of(&d, "status").eq_value(&JsonValue::Null));
    assert!(field_of(&d, "subject").eq_value(&JsonValue::Null));
}

#[test]
fn removed_field_carries_old_value() {
    let old = JsonValue::Obj(vec![
        ("id".to_string(), JsonValue::Int(5)),
        ("gone".to_string(), JsonValue::Str("was here".to_string())),
    ]);
    let new = JsonValue::Obj(vec![("id".to_string(), JsonValue::Int(5))]);
    let d = get_updated_items(Some(&old), &new);
    assert_eq!(field_count(&d), 2);
    assert!(field_of(&d, "gone").eq_value(&JsonValue::Str("was here".to_string())));
    assert!(field_of(&d, "id").eq_value(&JsonValue::Null));
}

#[test]
fn nested_values_compare_structurally() {
    let old = JsonValue::Obj(vec![(
        "status".to_string(),
        JsonValue::Obj(vec![("is_closed".to_string(), JsonValue::Bool(false))]),
    )]);
    let new = JsonValue::Obj(vec![(
        "status".to_string(),
        JsonValue::Obj(vec![("is_closed".to_string(), JsonValue::Bool(true))]),
    )]);
    let d = get_updated_items(Some(&old), &new);
    let want = JsonValue::Obj(vec![("is_closed".to_string(), JsonValue::Bool(false))]);
    assert!(field_of(&d, "status").eq_value(&want));
}
