use sizelint::cli::{Cli, Commands, LogLevel, OutputFormat, RuleAction};
use sizelint::config::{Config, RuleDefinition, RulesConfig, SizelintConfig, DEFAULT_CONFIG_TOML};
use sizelint::rules::{Severity, Violation};
use sizelint::setup::{
    config_source, count_severity, create_rule_engine, should_fail, ConfigSource,
};

fn settings(max: Option<&str>) -> SizelintConfig {
    SizelintConfig {
        max_file_size: max.map(|s| s.to_string()),
        warn_file_size: None,
        excludes: vec![],
        check_staged: false,
        check_working_tree: false,
        git: None,
        respect_gitignore: true,
        fail_on_warn: false,
    }
}

fn def(enabled: bool, priority: i32, max: Option<&str>) -> RuleDefinition {
    RuleDefinition {
        enabled,
        description: "d".to_string(),
        priority,
        max_size: max.map(|s| s.to_string()),
        ..Default::default()
    }
}

#[test]
fn test_embedded_config_is_valid_toml() {
    let result = toml::from_str::<toml::Table>(DEFAULT_CONFIG_TOML);
    assert!(result.is_ok(), "Embedded config must be valid TOML");
}

#[test]
fn test_config_default_loads() {
    let table = toml::from_str::<toml::Table>(DEFAULT_CONFIG_TOML).unwrap();
    let rules = table.get("rules").and_then(|r| r.as_table());
    assert!(rules.is_some());
    let rules = rules.unwrap();
    assert!(!rules.is_empty());
    assert!(rules.contains_key("medium_files"));
    assert_eq!(Config::create_default_config(), Config::default_config_str());
}

#[test]
fn user_config_overrides_defaults() {
    let defaults = Config {
        sizelint: settings(Some("10MB")),
        rules: Some(RulesConfig {
            rules: vec![
                ("a".to_string(), def(true, 1, Some("1KB"))),
                ("b".to_string(), def(true, 2, None)),
            ],
        }),
    };
    let mut user_settings = settings(None);
    user_settings.fail_on_warn = true;
    user_settings.excludes = vec!["*.tmp".to_string()];
    let user = Config {
        sizelint: user_settings,
        rules: Some(RulesConfig {
            rules: vec![
                ("b".to_string(), def(false, 9, Some("2KB"))),
                ("c".to_string(), def(true, 3, None)),
            ],
        }),
    };
    let merged = Config::load_with_defaults(defaults, user);
    assert_eq!(merged.sizelint.max_file_size.as_deref(), Some("10MB"));
    assert!(merged.sizelint.fail_on_warn);
    assert_eq!(merged.sizelint.excludes, vec!["*.tmp".to_string()]);
    let rules = merged.rules.unwrap();
    assert_eq!(rules.get_rule("a").unwrap().priority, 1);
    assert_eq!(rules.get_rule("b").unwrap().priority, 9);
    assert!(!rules.get_rule("b").unwrap().enabled);
    assert_eq!(rules.get_rule("c").unwrap().priority, 3);
    assert!(rules.get_rule("d").is_none());
    let enabled: Vec<&String> = rules.get_enabled_rules().into_iter().map(|(n, _)| n).collect();
    assert_eq!(enabled.len(), 2);
}

#[test]
fn engine_from_config_puts_the_catch_all_rule_first() {
    let config = Config {
        sizelint: settings(Some("1KB")),
        rules: Some(RulesConfig {
            rules: vec![
                ("images".to_string(), RuleDefinition {
                    includes: vec!["*.png".to_string()],
                    ..def(true, 10, Some("1MB"))
                }),
                ("off".to_string(), def(false, 50, Some("1B"))),
                ("inherit".to_string(), RuleDefinition {
                    includes: vec!["*.txt".to_string()],
                    ..def(true, 5, None)
                }),
            ],
        }),
    };
    let engine = create_rule_engine(&config).unwrap();
    assert_eq!(engine.len(), 3);
    // the png rule outranks the catch-all rule
    assert!(engine.check_file("/r/a.png", 4096).is_empty());
    // the catch-all rule applies elsewhere
    assert_eq!(engine.check_file("/r/a.bin", 4096)[0].rule_name, "default");
    // a rule without a maximum takes the global one
    let found = engine.check_file("/r/notes.txt", 4096);
    assert_eq!(found[0].rule_name, "inherit");
    assert_eq!(found[0].severity, Severity::Error);
    let infos = engine.get_all_rule_info(&config);
    assert_eq!(infos.len(), 4);
    assert_eq!(infos[3].name, "off");
    assert_eq!(infos[3].max_size, Some(1));
    assert_eq!(engine.get_enabled_rules().len(), 3);
}

#[test]
fn a_run_fails_on_errors_and_on_warnings_when_asked() {
    let warn = Violation::new("a".to_string(), "r".to_string(), "m".to_string(), Severity::Warning);
    let err = Violation::new("b".to_string(), "r".to_string(), "m".to_string(), Severity::Error);
    let only_warnings = vec![warn.duplicate()];
    assert!(!should_fail(&only_warnings, false));
    assert!(should_fail(&only_warnings, true));
    let both = vec![warn, err];
    assert!(should_fail(&both, false));
    assert_eq!(count_severity(&both, Severity::Error), 1);
    assert_eq!(count_severity(&both, Severity::Warning), 1);
    assert!(!should_fail(&vec![], true));
}

#[test]
fn cli_getters_read_the_check_subcommand() {
    let cli = Cli {
        command: Commands::Check {
            paths: vec![],
            config: Some("cfg.toml".to_string()),
            format: OutputFormat::Json,
            staged: true,
            working_tree: false,
            quiet: true,
            fail_on_warn: true,
        },
        config: None,
        verbose: false,
        log_level: LogLevel::Warn,
    };
    assert_eq!(cli.get_paths(), vec![".".to_string()]);
    assert_eq!(cli.get_format(), OutputFormat::Json);
    assert!(cli.get_staged() && cli.get_quiet() && cli.get_fail_on_warn());
    assert!(!cli.get_working_tree());
    assert_eq!(cli.get_check_config().as_deref(), Some("cfg.toml"));
    assert_eq!(cli.log_level.as_str(), "warn");
    assert!(matches!(cli.get_command(), Commands::Check { staged: true, .. }));

    let other = Cli {
        command: Commands::Rules { action: RuleAction::Describe { rule: "x".to_string() } },
        config: None,
        verbose: true,
        log_level: LogLevel::Trace,
    };
    assert!(other.get_paths().is_empty());
    assert_eq!(other.get_format(), OutputFormat::Human);
    assert!(!other.get_quiet());
    assert!(other.get_check_config().is_none());
    assert_eq!(other.log_level.as_str(), "trace");
}

#[test]
fn the_subcommand_config_file_wins() {
    match config_source(Some("a.toml".to_string()), Some("b.toml".to_string())) {
        ConfigSource::File(p) => assert_eq!(p, "a.toml"),
        other => panic!("unexpected: {other:?}"),
    }
    match config_source(None, Some("b.toml".to_string())) {
        ConfigSource::File(p) => assert_eq!(p, "b.toml"),
        other => panic!("unexpected: {other:?}"),
    }
    assert!(matches!(config_source(None, None), ConfigSource::Discover));
}
