use redmine_to_slack::activity::{build_feed_urls, get_activities, FeedEntry};
use redmine_to_slack::cli_args::FilterArgs;
use redmine_to_slack::text::{chars_of, extract_issue_id, string_from_chars, strip_markup_chars,
    trim_chars, truncate_chars, u64_to_string};

fn entry(id_url: &str, updated: i64, title: &str, author: &str, content: Option<&str>) -> FeedEntry {
    FeedEntry {
        id: id_url.to_string(),
        updated: Some(updated),
        title: Some(title.to_string()),
        author: author.to_string(),
        content: content.map(|c| c.to_string()),
    }
}

#[test]
fn truncation_appends_ellipsis_after_max_chars() {
    // max_content_length = 10: "Hello World!!!" becomes "Hello Worl...".
    let entries = vec![entry(
        "https://t.example/issues/5",
        100,
        "proj - note",
        "alice",
        Some("Hello World!!!"),
    )];
    let groups = get_activities(0, &entries, &None, 10).unwrap();
    assert_eq!(groups.len(), 1);
    assert_eq!(groups[0].0, 5);
    assert_eq!(groups[0].1.len(), 1);
    assert_eq!(groups[0].1[0].content, "Hello Worl...");
    assert_eq!(groups[0].1[0].author, "alice");
}

#[test]
fn grouping_restores_ascending_order() {
    // Feed order [newer, older] for one identifier; the group comes out
    // [older, newer].
    let entries = vec![
        entry("https://t.example/issues/9", 200, "p - b", "bob", Some("newer")),
        entry("https://t.example/issues/9", 100, "p - a", "ann", Some("older")),
    ];
    let groups = get_activities(0, &entries, &None, 1000).unwrap();
    assert_eq!(groups.len(), 1);
    assert_eq!(groups[0].1.len(), 2);
    assert_eq!(groups[0].1[0].content, "older");
    assert_eq!(groups[0].1[1].content, "newer");
}

#[test]
fn entries_at_or_before_cursor_are_skipped() {
    let entries = vec![
        entry("https://t.example/issues/1", 100, "p - a", "a", Some("at cursor")),
        entry("https://t.example/issues/2", 101, "p - b", "b", Some("after cursor")),
    ];
    let groups = get_activities(100, &entries, &None, 1000).unwrap();
    assert_eq!(groups.len(), 1);
    assert_eq!(groups[0].0, 2);
}

#[test]
fn ignore_listed_project_prefix_skips_entry() {
    let entries = vec![
        entry("https://t.example/issues/1", 100, "noise - x", "a", Some("skipped")),
        entry("https://t.example/issues/2", 100, "keep - y", "b", Some("kept")),
    ];
    let ignore = Some(vec!["noise".to_string()]);
    let groups = get_activities(0, &entries, &ignore, 1000).unwrap();
    assert_eq!(groups.len(), 1);
    assert_eq!(groups[0].0, 2);
}

#[test]
fn empty_text_after_stripping_registers_identifier_without_items() {
    let entries = vec![entry(
        "https://t.example/issues/3",
        100,
        "p - a",
        "a",
        Some("<div>\n</div>  "),
    )];
    let groups = get_activities(0, &entries, &None, 1000).unwrap();
    assert_eq!(groups.len(), 1);
    assert_eq!(groups[0].0, 3);
    assert!(groups[0].1.is_empty());
}

#[test]
fn malformed_entry_identifier_fails_the_run() {
    let entries = vec![entry("no-trailing-integer", 100, "p - a", "a", Some("x"))];
    assert!(get_activities(0, &entries, &None, 1000).is_err());
}

#[test]
fn extract_issue_id_takes_trailing_integer() {
    let v = chars_of("https://t.example/issues/123");
    assert_eq!(extract_issue_id(&v).unwrap(), 123);
    let v2 = chars_of("https://t.example/x/77?note=1");
    assert_eq!(extract_issue_id(&v2).unwrap(), 77);
    let v3 = chars_of("nothing here");
    assert!(extract_issue_id(&v3).is_err());
}

#[test]
fn strip_markup_removes_tags_and_newlines() {
    let v = chars_of("a<b attr=\"x\">c</b>\nd< e");
    let out = string_from_chars(&strip_markup_chars(&v));
    // "< e" has no closing '>', so the '<' stays.
    assert_eq!(out, "acd< e");
}

#[test]
fn trim_removes_surrounding_whitespace() {
    let v = chars_of("  \u{3000}hi there\t ");
    let out = string_from_chars(&trim_chars(&v));
    assert_eq!(out, "hi there");
}

#[test]
fn truncate_counts_unicode_scalars() {
    let v = chars_of("日本語テキスト");
    let out = string_from_chars(&truncate_chars(&v, 3));
    assert_eq!(out, "日本語...");
    let short = chars_of("ab");
    assert_eq!(string_from_chars(&truncate_chars(&short, 3)), "ab");
}

#[test]
fn decimal_rendering_matches() {
    assert_eq!(u64_to_string(0), "0");
    assert_eq!(u64_to_string(907), "907");
    assert_eq!(u64_to_string(u64::MAX), "18446744073709551615");
}

#[test]
fn feed_urls_cross_projects_and_users() {
    let filter = FilterArgs {
        target_project: Some(vec!["alpha".to_string(), "beta".to_string()]),
        ignore_project: None,
        user: Some(vec!["7".to_string()]),
    };
    let urls = build_feed_urls("https://t.example", &filter);
    assert_eq!(
        urls,
        vec![
            "https://t.example/projects/alpha/activity.atom?user_id=7".to_string(),
            "https://t.example/projects/beta/activity.atom?user_id=7".to_string(),
        ]
    );
}

#[test]
fn feed_urls_default_to_whole_endpoint() {
    let filter = FilterArgs { target_project: None, ignore_project: None, user: None };
    let urls = build_feed_urls("https://t.example", &filter);
    assert_eq!(urls, vec!["https://t.example/activity.atom".to_string()]);
}
