use redmine_to_slack::cli_args::{normalize_url, secret_source, SecretSource};
use redmine_to_slack::log::{set_level, should_log, LogConfig, Severity};

#[test]
fn secret_source_classifies_indirections() {
    match secret_source("@/etc/key") {
        SecretSource::File(p) => assert_eq!(p, "/etc/key"),
        _ => panic!("expected a file source"),
    }
    match secret_source("$API_KEY") {
        SecretSource::Env(v) => assert_eq!(v, "API_KEY"),
        _ => panic!("expected an environment source"),
    }
    match secret_source("literal-value") {
        SecretSource::Literal(v) => assert_eq!(v, "literal-value"),
        _ => panic!("expected a literal"),
    }
}

#[test]
fn normalize_url_drops_one_trailing_slash() {
    assert_eq!(normalize_url("https://t.example/"), "https://t.example");
    assert_eq!(normalize_url("https://t.example"), "https://t.example");
    assert_eq!(normalize_url(""), "");
}

#[test]
fn log_level_filters_below_threshold() {
    let mut cfg = LogConfig::new();
    assert!(!should_log(&cfg, &Severity::Debug));
    assert!(should_log(&cfg, &Severity::Error));
    set_level(&mut cfg, Severity::Debug);
    assert!(should_log(&cfg, &Severity::Debug));
    set_level(&mut cfg, Severity::Error);
    assert!(!should_log(&cfg, &Severity::Warning));
    assert!(should_log(&cfg, &Severity::Emergency));
}
