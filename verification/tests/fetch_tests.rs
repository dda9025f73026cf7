use redmine_to_slack::fetch::{
    build_issues_url, find_project, find_project_by_id, get_issues, get_projects, get_users_map,
    lookup_user, next_offset, page_counts,
};
use redmine_to_slack::json::JsonValue;

fn projects_page(items: &[(i64, &str, &str)], total: i64, limit: i64) -> JsonValue {
    let arr = items
        .iter()
        .map(|(id, ident, name)| {
            JsonValue::Obj(vec![
                ("id".to_string(), JsonValue::Int(*id)),
                ("identifier".to_string(), JsonValue::Str(ident.to_string())),
                ("name".to_string(), JsonValue::Str(name.to_string())),
            ])
        })
        .collect::<Vec<_>>();
    JsonValue::Obj(vec![
        ("projects".to_string(), JsonValue::Arr(arr)),
        ("total_count".to_string(), JsonValue::Int(total)),
        ("limit".to_string(), JsonValue::Int(limit)),
    ])
}

#[test]
fn pagination_continues_until_total_is_covered() {
    assert_eq!(next_offset(0, 25, 60), Some(25));
    assert_eq!(next_offset(25, 25, 60), Some(50));
    assert_eq!(next_offset(50, 25, 60), None);
    assert_eq!(next_offset(0, 25, 25), None);
    assert_eq!(next_offset(0, 0, 0), None);
}

#[test]
fn page_counts_reads_total_and_limit() {
    let page = projects_page(&[], 60, 25);
    assert_eq!(page_counts(&page).unwrap(), (60, 25));
    let empty = JsonValue::Obj(vec![]);
    assert!(page_counts(&empty).is_err());
}

#[test]
fn projects_are_read_across_pages() {
    let p1 = projects_page(&[(1, "alpha", "Alpha"), (2, "beta", "Beta")], 3, 2);
    let p2 = projects_page(&[(3, "gamma", "Gamma")], 3, 2);
    let list = get_projects(&vec![p1, p2]).unwrap();
    assert_eq!(list.len(), 3);
    assert_eq!(list[0].id, 1);
    assert_eq!(list[0].name_id, "alpha");
    assert_eq!(list[2].name, "Gamma");
}

#[test]
fn malformed_projects_page_fails() {
    let bad = JsonValue::Obj(vec![(
        "projects".to_string(),
        JsonValue::Arr(vec![JsonValue::Obj(vec![(
            "id".to_string(),
            JsonValue::Str("not a number".to_string()),
        )])]),
    )]);
    assert!(get_projects(&vec![bad]).is_err());
}

fn users_page(items: &[(i64, &str)]) -> JsonValue {
    let arr = items
        .iter()
        .map(|(id, login)| {
            JsonValue::Obj(vec![
                ("id".to_string(), JsonValue::Int(*id)),
                ("login".to_string(), JsonValue::Str(login.to_string())),
            ])
        })
        .collect::<Vec<_>>();
    JsonValue::Obj(vec![("users".to_string(), JsonValue::Arr(arr))])
}

#[test]
fn users_map_latest_binding_wins() {
    let p1 = users_page(&[(1, "ann"), (2, "bob")]);
    let p2 = users_page(&[(3, "ann")]);
    let users = get_users_map(&vec![p1, p2]).unwrap();
    assert_eq!(lookup_user(&users, "ann"), Some(3));
    assert_eq!(lookup_user(&users, "bob"), Some(2));
    assert_eq!(lookup_user(&users, "carol"), None);
}

fn issues_page(ids: &[i64]) -> JsonValue {
    let arr = ids
        .iter()
        .map(|id| {
            JsonValue::Obj(vec![
                ("id".to_string(), JsonValue::Int(*id)),
                ("subject".to_string(), JsonValue::Str(format!("s{id}"))),
            ])
        })
        .collect::<Vec<_>>();
    JsonValue::Obj(vec![("issues".to_string(), JsonValue::Arr(arr))])
}

#[test]
fn issues_are_keyed_by_identifier() {
    let got = get_issues(&vec![issues_page(&[5, 7]), issues_page(&[9])]).unwrap();
    assert_eq!(got.len(), 3);
    let ids: Vec<u64> = got.iter().map(|p| p.0).collect();
    assert!(ids.contains(&5) && ids.contains(&7) && ids.contains(&9));
}

#[test]
fn repeated_issue_identifier_keeps_latest_snapshot() {
    let p1 = JsonValue::Obj(vec![(
        "issues".to_string(),
        JsonValue::Arr(vec![JsonValue::Obj(vec![
            ("id".to_string(), JsonValue::Int(5)),
            ("subject".to_string(), JsonValue::Str("old".to_string())),
        ])]),
    )]);
    let p2 = JsonValue::Obj(vec![(
        "issues".to_string(),
        JsonValue::Arr(vec![JsonValue::Obj(vec![
            ("id".to_string(), JsonValue::Int(5)),
            ("subject".to_string(), JsonValue::Str("new".to_string())),
        ])]),
    )]);
    let got = get_issues(&vec![p1, p2]).unwrap();
    assert_eq!(got.len(), 1);
    let want = JsonValue::Obj(vec![
        ("id".to_string(), JsonValue::Int(5)),
        ("subject".to_string(), JsonValue::Str("new".to_string())),
    ]);
    assert!(got[0].1.eq_value(&want));
}

#[test]
fn project_resolution_finds_by_number_or_name() {
    let page = projects_page(&[(1, "alpha", "Alpha"), (2, "beta", "Beta")], 2, 25);
    let projects = get_projects(&vec![page]).unwrap();
    assert_eq!(find_project_by_id(&projects, 2).unwrap().name_id, "beta");
    assert!(find_project_by_id(&projects, 9).is_none());
    assert_eq!(find_project(&projects, None, "alpha").unwrap().name, "Alpha");
    assert_eq!(find_project(&projects, Some(2), "nope").unwrap().name, "Beta");
    assert!(find_project(&projects, None, "nope").is_none());
}

#[test]
fn issues_query_url_joins_identifiers() {
    let u = build_issues_url("https://t.example", &vec![5, 7, 123]);
    assert_eq!(u, "https://t.example/issues.json?status_id=*&issue_id=5,7,123");
    let single = build_issues_url("https://t.example", &vec![42]);
    assert_eq!(single, "https://t.example/issues.json?status_id=*&issue_id=42");
}
