use sizelint::config::RuleDefinition;
use sizelint::error::SizelintError;
use sizelint::rules::{
    merge_findings, CandidateFile, ConfigurableRule, RuleEngine, Severity, Violation,
};

fn rule(name: &str, priority: i32, max: Option<&str>, warn: Option<&str>) -> ConfigurableRule {
    ConfigurableRule::new(
        name.to_string(),
        RuleDefinition {
            enabled: true,
            description: "test".to_string(),
            priority,
            max_size: max.map(|s| s.to_string()),
            warn_size: warn.map(|s| s.to_string()),
            ..Default::default()
        },
    )
    .unwrap()
}

fn finding(path: &str, key: u64, rule: &str) -> Violation {
    Violation::new(
        path.to_string(),
        rule.to_string(),
        "m".to_string(),
        Severity::Error,
    )
    .with_sort_key(key)
}

#[test]
fn only_the_highest_priority_rule_runs() {
    let mut engine = RuleEngine::new();
    engine.add_rule(rule("low", 10, Some("1B"), None));
    engine.add_rule(rule("high", 20, Some("1KB"), Some("1B")));
    for size in [0u64, 5, 2000, 5_000_000] {
        let found = engine.check_file("/repo/data.bin", size);
        assert!(found.iter().all(|v| v.rule_name == "high"));
        assert!(found.iter().all(|v| v.rule_name != "low"));
    }
    let found = engine.check_file("/repo/data.bin", 2000);
    assert_eq!(found.len(), 1);
    assert_eq!(found[0].severity, Severity::Error);
}

#[test]
fn an_unset_priority_loses_to_any_set_one() {
    let mut engine = RuleEngine::new();
    engine.add_rule(rule("default", 1000, Some("1B"), None));
    engine.add_rule(rule("lenient", -5, Some("1GB"), None));
    assert!(engine.check_file("/repo/a.txt", 100).is_empty());
    assert_eq!(engine.get_rules()[0].get_priority(), None);
    assert_eq!(engine.get_rules()[1].get_priority(), Some(-5));
}

#[test]
fn equal_priorities_keep_the_first_rule() {
    let mut engine = RuleEngine::new();
    engine.add_rule(rule("first", 7, Some("1B"), None));
    engine.add_rule(rule("second", 7, Some("1B"), None));
    let found = engine.check_file("/repo/a.txt", 100);
    assert_eq!(found.len(), 1);
    assert_eq!(found[0].rule_name, "first");
}

#[test]
fn max_size_error_suppresses_warning() {
    let r = rule("both", 1, Some("1KB"), Some("100B"));
    let found = r.check("/repo/big.bin", 4096);
    assert_eq!(found.len(), 1);
    assert_eq!(found[0].severity, Severity::Error);
    assert_eq!(found[0].sort_key, 4096);
    assert_eq!(
        found[0].message,
        "File size 4.0 KB exceeds maximum allowed size 1.0 KB"
    );
    assert_eq!(found[0].actual_value.as_deref(), Some("4.0 KB"));
    assert_eq!(found[0].expected_value.as_deref(), Some("≤ 1.0 KB"));
    assert_eq!(
        found[0].diagnostic_code(),
        "sizelint::both::error"
    );
}

#[test]
fn warn_size_gives_a_warning() {
    let r = rule("both", 1, Some("1KB"), Some("100B"));
    let found = r.check("/repo/mid.bin", 500);
    assert_eq!(found.len(), 1);
    assert_eq!(found[0].severity, Severity::Warning);
    assert_eq!(
        found[0].message,
        "File size 500 B exceeds warning threshold 100 B"
    );
    assert_eq!(
        found[0].help().unwrap(),
        "Actual: 500 B, Expected: ≤ 100 B"
    );
    assert!(r.check("/repo/small.bin", 100).is_empty());
}

#[test]
fn match_flags_bypass_size_checks() {
    let err = ConfigurableRule::new(
        "no_zip".to_string(),
        RuleDefinition {
            enabled: true,
            description: "zips".to_string(),
            priority: 5,
            max_size: Some("1GB".to_string()),
            includes: vec!["*.zip".to_string()],
            error_on_match: true,
            warn_on_match: true,
            ..Default::default()
        },
    )
    .unwrap();
    let found = err.check("/repo/out/a.zip", 1);
    assert_eq!(found.len(), 1);
    assert_eq!(found[0].severity, Severity::Error);
    assert_eq!(found[0].sort_key, 0);
    assert_eq!(found[0].message, "File /repo/out/a.zip matches rule pattern");
    assert_eq!(found[0].actual_value.as_deref(), Some("matched"));
    assert!(err.check("/repo/out/a.txt", 1).is_empty());

    let warn = ConfigurableRule::new(
        "note_logs".to_string(),
        RuleDefinition {
            enabled: true,
            description: "logs".to_string(),
            max_size: Some("1B".to_string()),
            includes: vec!["*.log".to_string()],
            warn_on_match: true,
            ..Default::default()
        },
    )
    .unwrap();
    let found = warn.check("/repo/x.log", 1_000_000);
    assert_eq!(found.len(), 1);
    assert_eq!(found[0].severity, Severity::Warning);
}

#[test]
fn includes_and_excludes_select_files() {
    let r = ConfigurableRule::new(
        "assets".to_string(),
        RuleDefinition {
            enabled: true,
            description: "assets".to_string(),
            max_size: Some("10B".to_string()),
            includes: vec!["assets/**".to_string(), "*.png".to_string()],
            excludes: vec!["*.keep.png".to_string()],
            ..Default::default()
        },
    )
    .unwrap();
    assert!(!r.should_skip_file("/repo/img/logo.png"));
    assert!(!r.should_skip_file("assets/font.ttf"));
    assert!(r.should_skip_file("/repo/img/logo.keep.png"));
    assert!(r.should_skip_file("/repo/src/main.rs"));
    assert_eq!(r.check("/repo/img/logo.png", 11).len(), 1);
    assert!(r.check("/repo/src/main.rs", 11).is_empty());
}

#[test]
fn disabled_rules_never_run() {
    let mut engine = RuleEngine::new();
    let mut def = RuleDefinition {
        enabled: false,
        description: "off".to_string(),
        priority: 99,
        max_size: Some("1B".to_string()),
        ..Default::default()
    };
    engine.add_rule(ConfigurableRule::new("off".to_string(), def).unwrap());
    assert!(engine.check_file("/repo/a", 100).is_empty());
    def = RuleDefinition {
        enabled: true,
        description: "on".to_string(),
        priority: 1,
        max_size: Some("1B".to_string()),
        ..Default::default()
    };
    engine.add_rule(ConfigurableRule::new("on".to_string(), def).unwrap());
    let found = engine.check_file("/repo/a", 100);
    assert_eq!(found.len(), 1);
    assert_eq!(found[0].rule_name, "on");
}

#[test]
fn rule_construction_reports_bad_sizes_and_patterns() {
    let bad_size = ConfigurableRule::new(
        "r".to_string(),
        RuleDefinition {
            max_size: Some("lots".to_string()),
            ..Default::default()
        },
    );
    assert!(matches!(
        bad_size,
        Err(SizelintError::InvalidSizeFormat { .. })
    ));
    let bad_glob = ConfigurableRule::new(
        "r".to_string(),
        RuleDefinition {
            includes: vec!["ok/*.rs".to_string(), "a[".to_string()],
            ..Default::default()
        },
    );
    match bad_glob {
        Err(SizelintError::ConfigInvalidPattern { pattern, .. }) => assert_eq!(pattern, "a["),
        _ => panic!("expected a pattern error"),
    }
    let bad_exclude = ConfigurableRule::new(
        "r".to_string(),
        RuleDefinition {
            excludes: vec!["b{".to_string()],
            ..Default::default()
        },
    );
    match bad_exclude {
        Err(SizelintError::ConfigInvalidPattern { pattern, .. }) => assert_eq!(pattern, "b{"),
        _ => panic!("expected a pattern error"),
    }
}

#[test]
fn check_files_concatenates_per_file_findings() {
    let mut engine = RuleEngine::new();
    engine.add_rule(rule("default", 100, Some("500B"), None));
    let files = vec![
        CandidateFile { path: "/r/a".to_string(), size: 600 },
        CandidateFile { path: "/r/b".to_string(), size: 10 },
        CandidateFile { path: "/r/c".to_string(), size: 900 },
    ];
    let found = engine.check_files(&files);
    assert_eq!(found.len(), 2);
    assert_eq!(found[0].path, "/r/a");
    assert_eq!(found[1].path, "/r/c");
}

#[test]
fn cross_phase_merge_keeps_the_larger_historical_finding() {
    let live = vec![finding("/r/bloat.bin", 600, "live")];
    let historical = vec![finding("/r/bloat.bin", 2000, "history")];
    let merged = merge_findings(&live, &historical);
    assert_eq!(merged.len(), 1);
    assert_eq!(merged[0].sort_key, 2000);
    assert_eq!(merged[0].rule_name, "history");
}

#[test]
fn cross_phase_merge_prefers_live_findings_on_ties() {
    let live = vec![finding("/r/big.dat", 800, "live")];
    let historical = vec![finding("/r/big.dat", 800, "history")];
    let merged = merge_findings(&live, &historical);
    assert_eq!(merged.len(), 1);
    assert_eq!(merged[0].rule_name, "live");
}

#[test]
fn merge_keeps_one_finding_per_path() {
    let live = vec![finding("/r/a", 5, "l"), finding("/r/b", 7, "l")];
    let historical = vec![
        finding("/r/a", 9, "h"),
        finding("/r/c", 1, "h"),
        finding("/r/a", 9, "h2"),
        finding("/r/b", 3, "h"),
    ];
    let merged = merge_findings(&live, &historical);
    let mut keys: Vec<(String, u64, String)> = merged
        .iter()
        .map(|v| (v.path.clone(), v.sort_key, v.rule_name.clone()))
        .collect();
    keys.sort();
    assert_eq!(
        keys,
        vec![
            ("/r/a".to_string(), 9, "h".to_string()),
            ("/r/b".to_string(), 7, "l".to_string()),
            ("/r/c".to_string(), 1, "h".to_string()),
        ]
    );
}
