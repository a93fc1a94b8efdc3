//! Building the rule engine from the configuration, and judging a run.
use vstd::prelude::*;
use crate::config::{config_entries, Config, RuleDefinition};
use crate::error::SizelintError;
use crate::rules::{
    copy_strings, opt_size, opt_size_ok, patterns_build, rule_view_of, string_views, views,
    ConfigurableRule, RuleEngine, RuleView, Severity, Violation, ViolationView,
};

verus! {

fn copy_opt(o: &Option<String>) -> (r: Option<String>)
    ensures
        crate::rules::opt_view(r) == crate::rules::opt_view(*o),
{
    match o {
        Some(s) => Some(s.clone()),
        None => None,
    }
}

/// The catch-all rule: every file, the global thresholds, and the lowest rank.
pub open spec fn default_rule_view(config: Config) -> RuleView {
    RuleView {
        name: "default"@,
        enabled: true,
        priority: None,
        max_size: opt_size(config.sizelint.max_file_size),
        warn_size: opt_size(config.sizelint.warn_file_size),
        has_includes: false,
        includes: Seq::empty(),
        excludes: Seq::empty(),
        warn_on_match: false,
        error_on_match: false,
    }
}

/// The rule that a configured entry gives: its definition with the global
/// thresholds filled in where it sets none.
pub open spec fn configured_view(e: (String, RuleDefinition), config: Config) -> RuleView {
    RuleView {
        max_size: if e.1.max_size is Some {
            opt_size(e.1.max_size)
        } else {
            opt_size(config.sizelint.max_file_size)
        },
        warn_size: if e.1.warn_size is Some {
            opt_size(e.1.warn_size)
        } else {
            opt_size(config.sizelint.warn_file_size)
        },
        ..rule_view_of(e.0@, e.1)
    }
}

/// The rules of the enabled entries, in order.
pub open spec fn configured_rules(entries: Seq<(String, RuleDefinition)>, config: Config) -> Seq<
    RuleView,
>
    decreases entries.len(),
{
    if entries.len() == 0 {
        Seq::empty()
    } else {
        let p = configured_rules(entries.drop_last(), config);
        if entries.last().1.enabled {
            p.push(configured_view(entries.last(), config))
        } else {
            p
        }
    }
}

/// A configured definition builds into a rule: its own thresholds parse, and
/// its include and exclude globs parse and build.
pub open spec fn definition_builds(d: RuleDefinition) -> bool {
    opt_size_ok(d.max_size) && opt_size_ok(d.warn_size) && patterns_build(string_views(d.includes@))
        && patterns_build(string_views(d.excludes@))
}

/// The engine for a configuration: the catch-all rule named `default`, then
/// the rule of each enabled configured entry, in order. It is built whenever
/// the global thresholds parse and every enabled definition builds.
pub fn create_rule_engine(config: &Config) -> (r: Result<RuleEngine, SizelintError>)
    ensures
        !opt_size_ok(config.sizelint.max_file_size) ==> r is Err,
        opt_size_ok(config.sizelint.max_file_size) && !opt_size_ok(config.sizelint.warn_file_size)
            ==> r is Err,
        r is Ok ==> r->Ok_0@ == seq![default_rule_view(*config)] + configured_rules(
            config_entries(*config),
            *config,
        ),
        (opt_size_ok(config.sizelint.max_file_size) && opt_size_ok(config.sizelint.warn_file_size)
            && forall|k: int|
            0 <= k < config_entries(*config).len() && (#[trigger] config_entries(*config)[k]).1.enabled
                ==> definition_builds(config_entries(*config)[k].1)) ==> r is Ok,
{
    let ghost all = config_entries(*config);
    let ghost can_build = opt_size_ok(config.sizelint.max_file_size) && opt_size_ok(
        config.sizelint.warn_file_size,
    ) && forall|k: int|
        0 <= k < all.len() && (#[trigger] all[k]).1.enabled ==> definition_builds(all[k].1);
    let mut engine = RuleEngine::new();
    let default_def = RuleDefinition {
        enabled: true,
        description: String::from_str("Default file size check"),
        priority: 1000,
        max_size: copy_opt(&config.sizelint.max_file_size),
        warn_size: copy_opt(&config.sizelint.warn_file_size),
        includes: Vec::new(),
        excludes: Vec::new(),
        warn_on_match: false,
        error_on_match: false,
    };
    let ghost dd = default_def;
    proof {
        assert(opt_size(dd.max_size) == opt_size(config.sizelint.max_file_size));
        assert(opt_size(dd.warn_size) == opt_size(config.sizelint.warn_file_size));
        assert(opt_size_ok(dd.max_size) == opt_size_ok(config.sizelint.max_file_size));
        assert(opt_size_ok(dd.warn_size) == opt_size_ok(config.sizelint.warn_file_size));
    }
    let default_rule = match ConfigurableRule::new(String::from_str("default"), default_def) {
        Ok(rule) => rule,
        Err(e) => {
            return Err(e);
        },
    };
    proof {
        assert(string_views(dd.includes@) =~= Seq::<Seq<char>>::empty());
        assert(string_views(dd.excludes@) =~= Seq::<Seq<char>>::empty());
        assert(crate::rules::expand_patterns(Seq::<Seq<char>>::empty()) =~= Seq::<Seq<char>>::empty());
    }
    engine.add_rule(default_rule);
    assert(engine@ =~= seq![default_rule_view(*config)]);
    match &config.rules {
        None => {
            assert(configured_rules(all, *config) =~= Seq::<RuleView>::empty());
            assert(engine@ =~= seq![default_rule_view(*config)] + configured_rules(all, *config));
        },
        Some(rules_config) => {
            let entries = &rules_config.rules;
            let mut k: usize = 0;
            assert(entries@.subrange(0, 0) =~= Seq::<(String, RuleDefinition)>::empty());
            assert(engine@ =~= seq![default_rule_view(*config)] + configured_rules(
                entries@.subrange(0, 0),
                *config,
            ));
            while k < entries.len()
                invariant
                    k <= entries@.len(),
                    config.rules == Some(*rules_config),
                    entries@ == rules_config.rules@,
                    all == entries@,
                    can_build == (opt_size_ok(config.sizelint.max_file_size) && opt_size_ok(
                        config.sizelint.warn_file_size,
                    ) && forall|j: int|
                        0 <= j < all.len() && (#[trigger] all[j]).1.enabled ==> definition_builds(
                            all[j].1,
                        )),
                    engine@ == seq![default_rule_view(*config)] + configured_rules(
                        entries@.subrange(0, k as int),
                        *config,
                    ),
                decreases entries@.len() - k,
            {
                let ghost prefix = entries@.subrange(0, k as int);
                let ghost next = entries@.subrange(0, k + 1);
                assert(next.drop_last() =~= prefix);
                assert(next.last() == entries@[k as int]);
                let (name, def) = (&entries[k].0, &entries[k].1);
                if def.enabled {
                    let d = RuleDefinition {
                        enabled: def.enabled,
                        description: def.description.clone(),
                        priority: def.priority,
                        max_size: if def.max_size.is_some() {
                            copy_opt(&def.max_size)
                        } else {
                            copy_opt(&config.sizelint.max_file_size)
                        },
                        warn_size: if def.warn_size.is_some() {
                            copy_opt(&def.warn_size)
                        } else {
                            copy_opt(&config.sizelint.warn_file_size)
                        },
                        includes: copy_strings(&def.includes),
                        excludes: copy_strings(&def.excludes),
                        warn_on_match: def.warn_on_match,
                        error_on_match: def.error_on_match,
                    };
                    let ghost dv = d;
                    proof {
                        assert(string_views(dv.includes@) == string_views(def.includes@));
                        assert(string_views(dv.excludes@) == string_views(def.excludes@));
                        if can_build {
                            assert(all[k as int].1.enabled);
                            assert(definition_builds(all[k as int].1));
                            assert(opt_size_ok(dv.max_size));
                            assert(opt_size_ok(dv.warn_size));
                        }
                    }
                    let rule = match ConfigurableRule::new(name.clone(), d) {
                        Ok(rule) => rule,
                        Err(e) => {
                            proof {
                                assert(config_entries(*config) == all);
                                if can_build {
                                    assert(patterns_build(string_views(dv.includes@)));
                                    assert(patterns_build(string_views(dv.excludes@)));
                                }
                                assert(!can_build);
                            }
                            return Err(e);
                        },
                    };
                    proof {
                        assert(rule@ == configured_view(entries@[k as int], *config));
                    }
                    engine.add_rule(rule);
                    assert(engine@ =~= seq![default_rule_view(*config)] + configured_rules(
                        next,
                        *config,
                    ));
                } else {
                    assert(configured_rules(next, *config) == configured_rules(prefix, *config));
                }
                k = k + 1;
            }
            assert(entries@.subrange(0, entries@.len() as int) =~= entries@);
        },
    }
    Ok(engine)
}

/// Some finding has severity `s`.
pub open spec fn has_severity(s: Seq<ViolationView>, sev: Severity) -> bool {
    exists|i: int| 0 <= i < s.len() && (#[trigger] s[i]).severity == sev
}

/// Whether some finding has severity `sev`.
pub fn any_with_severity(findings: &Vec<Violation>, sev: Severity) -> (r: bool)
    ensures
        r == has_severity(views(findings@), sev),
{
    let mut i: usize = 0;
    while i < findings.len()
        invariant
            i <= findings@.len(),
            forall|j: int| 0 <= j < i ==> (#[trigger] findings@[j]).severity != sev,
        decreases findings@.len() - i,
    {
        if findings[i].severity == sev {
            assert(views(findings@)[i as int].severity == sev);
            return true;
        }
        i = i + 1;
    }
    assert forall|j: int| 0 <= j < views(findings@).len() implies (#[trigger] views(findings@)[j]).severity != sev by {
        assert(views(findings@)[j] == findings@[j]@);
    }
    false
}

/// The number of findings of severity `sev`.
pub open spec fn severity_count(s: Seq<ViolationView>, sev: Severity) -> nat
    decreases s.len(),
{
    if s.len() == 0 {
        0
    } else {
        severity_count(s.drop_last(), sev) + (if s.last().severity == sev {
            1nat
        } else {
            0nat
        })
    }
}

/// How many findings have severity `sev`.
pub fn count_severity(findings: &Vec<Violation>, sev: Severity) -> (r: usize)
    ensures
        r == severity_count(views(findings@), sev),
{
    let ghost s = views(findings@);
    let mut n: usize = 0;
    let mut i: usize = 0;
    while i < findings.len()
        invariant
            i <= findings@.len(),
            s == views(findings@),
            n == severity_count(s.subrange(0, i as int), sev),
            n <= i,
        decreases findings@.len() - i,
    {
        assert(s.subrange(0, i + 1).drop_last() =~= s.subrange(0, i as int));
        assert(s.subrange(0, i + 1).last() == findings@[i as int]@);
        if findings[i].severity == sev {
            n = n + 1;
        }
        i = i + 1;
    }
    assert(s.subrange(0, findings@.len() as int) =~= s);
    n
}

/// A run fails when any finding is an error, or, under a fail-on-warning
/// policy, when any is a warning.
pub fn should_fail(findings: &Vec<Violation>, fail_on_warn: bool) -> (r: bool)
    ensures
        r == (has_severity(views(findings@), Severity::Error) || (fail_on_warn && has_severity(
            views(findings@),
            Severity::Warning,
        ))),
{
    any_with_severity(findings, Severity::Error) || (fail_on_warn && any_with_severity(
        findings,
        Severity::Warning,
    ))
}

/// Where the files to check come from.
#[derive(Clone, Copy, Debug, PartialEq, Eq, Structural)]
pub enum DiscoveryMode {
    /// The files staged for commit.
    Staged,
    /// The modified files of the working tree.
    WorkingTree,
    /// A walk of the whole tree from the current directory.
    WholeTree,
    /// The paths given, walking the directories among them.
    GivenPaths,
}

/// The discovery mode: staged files when asked on the command line, or by the
/// configuration inside a repository; else working-tree files likewise; else
/// a walk of the whole tree when the only path is `.`; else the given paths.
pub fn choose_discovery(
    cli_staged: bool,
    config_staged: bool,
    cli_working_tree: bool,
    config_working_tree: bool,
    in_repo: bool,
    only_current_dir: bool,
) -> (r: DiscoveryMode)
    ensures
        r == (if cli_staged || (config_staged && in_repo) {
            DiscoveryMode::Staged
        } else if cli_working_tree || (config_working_tree && in_repo) {
            DiscoveryMode::WorkingTree
        } else if only_current_dir {
            DiscoveryMode::WholeTree
        } else {
            DiscoveryMode::GivenPaths
        }),
{
    if cli_staged || (config_staged && in_repo) {
        DiscoveryMode::Staged
    } else if cli_working_tree || (config_working_tree && in_repo) {
        DiscoveryMode::WorkingTree
    } else if only_current_dir {
        DiscoveryMode::WholeTree
    } else {
        DiscoveryMode::GivenPaths
    }
}

/// Where the configuration comes from.
#[derive(Debug)]
pub enum ConfigSource {
    /// A file named on the command line, read as written.
    File(String),
    /// A file found from the current directory up, over the built-in
    /// configuration, or the built-in configuration alone.
    Discover,
}

/// The configuration source: the file the check subcommand names, else the
/// file named before the subcommand, else discovery.
pub fn config_source(check_config: Option<String>, global_config: Option<String>) -> (r:
    ConfigSource)
    ensures
        check_config is Some ==> (r matches ConfigSource::File(p) && p@ == check_config->0@),
        check_config is None && global_config is Some ==> (r matches ConfigSource::File(p) && p@
            == global_config->0@),
        check_config is None && global_config is None ==> r is Discover,
{
    match check_config {
        Some(p) => ConfigSource::File(p),
        None => match global_config {
            Some(p) => ConfigSource::File(p),
            None => ConfigSource::Discover,
        },
    }
}

} // verus!
