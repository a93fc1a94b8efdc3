//! The configuration: global settings and named rule definitions.
use vstd::prelude::*;

verus! {

/// How one named rule is configured.
#[derive(Debug)]
pub struct RuleDefinition {
    pub enabled: bool,
    pub description: String,
    /// Higher numbers win when several rules apply to one file.
    pub priority: i32,
    /// Size above which a file is an error, such as `10MB`.
    pub max_size: Option<String>,
    /// Size above which a file is a warning.
    pub warn_size: Option<String>,
    /// Globs a file must match for the rule to apply (none: every file).
    pub includes: Vec<String>,
    /// Globs that exempt a file from the rule.
    pub excludes: Vec<String>,
    /// A matching file is a warning whatever its size.
    pub warn_on_match: bool,
    /// A matching file is an error whatever its size.
    pub error_on_match: bool,
}

impl Default for RuleDefinition {
    fn default() -> (r: Self)
        ensures
            !r.enabled,
            r.description@ == Seq::<char>::empty(),
            r.priority == 0,
            r.max_size is None,
            r.warn_size is None,
            r.includes@.len() == 0,
            r.excludes@.len() == 0,
            !r.warn_on_match,
            !r.error_on_match,
    {
        RuleDefinition {
            enabled: false,
            description: String::new(),
            priority: 0,
            max_size: None,
            warn_size: None,
            includes: Vec::new(),
            excludes: Vec::new(),
            warn_on_match: false,
            error_on_match: false,
        }
    }
}

/// The default configuration, as TOML.
pub const DEFAULT_CONFIG_TOML: &'static str = "# sizelint configuration

# Files above this size are errors.
max_file_size = \"10MB\"
# Files above this size are warnings.
warn_file_size = \"5MB\"
# Globs of files never checked.
excludes = []
# Check only the files staged for commit.
check_staged = false
# Check only the modified files of the working tree.
check_working_tree = false
# Leave out what .gitignore and the other ignore files leave out.
respect_gitignore = true
# Fail on warnings as on errors.
fail_on_warn = false

[rules.medium_files]
description = \"Files that grow beyond a comfortable size\"
enabled = true
priority = 50
max_size = \"5MB\"
warn_size = \"1MB\"

[rules.no_binaries]
description = \"Binary artifacts do not belong in the repository\"
enabled = false
priority = 100
includes = [\"*.exe\", \"*.dll\", \"*.so\", \"*.dylib\"]
error_on_match = true
";

/// The settings that apply to the whole run.
#[derive(Debug)]
pub struct SizelintConfig {
    /// Maximum file size, such as `10MB`.
    pub max_file_size: Option<String>,
    /// Warning threshold for file size.
    pub warn_file_size: Option<String>,
    /// Globs of paths never checked.
    pub excludes: Vec<String>,
    /// Check only staged files.
    pub check_staged: bool,
    /// Check only modified files of the working tree.
    pub check_working_tree: bool,
    /// Default revision range for file discovery.
    pub git: Option<String>,
    /// Respect ignore files.
    pub respect_gitignore: bool,
    /// Treat warnings as errors.
    pub fail_on_warn: bool,
}

/// The named rule definitions; each name stands once.
#[derive(Debug)]
pub struct RulesConfig {
    pub rules: Vec<(String, RuleDefinition)>,
}

/// The whole configuration.
#[derive(Debug)]
pub struct Config {
    pub sizelint: SizelintConfig,
    pub rules: Option<RulesConfig>,
}

/// The definitions by name; of two entries with one name the later counts.
pub open spec fn rules_map(s: Seq<(String, RuleDefinition)>) -> Map<Seq<char>, RuleDefinition>
    decreases s.len(),
{
    if s.len() == 0 {
        Map::empty()
    } else {
        rules_map(s.drop_last()).insert(s.last().0@, s.last().1)
    }
}

/// The enabled entries, in order.
pub open spec fn enabled_entries(s: Seq<(String, RuleDefinition)>) -> Seq<(String, RuleDefinition)>
    decreases s.len(),
{
    if s.len() == 0 {
        s
    } else if s.last().1.enabled {
        enabled_entries(s.drop_last()).push(s.last())
    } else {
        enabled_entries(s.drop_last())
    }
}

/// No name stands twice.
pub open spec fn names_unique(s: Seq<(String, RuleDefinition)>) -> bool {
    forall|i: int, j: int|
        0 <= i < s.len() && 0 <= j < s.len() && (#[trigger] s[i]).0@ == (#[trigger] s[j]).0@ ==> i
            == j
}

impl RulesConfig {
    /// Each name stands once.
    pub open spec fn wf(&self) -> bool {
        names_unique(self.rules@)
    }

    /// The definitions by name.
    pub open spec fn view_map(&self) -> Map<Seq<char>, RuleDefinition> {
        rules_map(self.rules@)
    }
}

proof fn lemma_rules_map_has(s: Seq<(String, RuleDefinition)>, i: int)
    requires
        names_unique(s),
        0 <= i < s.len(),
    ensures
        rules_map(s).contains_key(s[i].0@),
        rules_map(s)[s[i].0@] == s[i].1,
    decreases s.len(),
{
    if i < s.len() - 1 {
        let t = s.drop_last();
        assert(names_unique(t)) by {
            assert forall|a: int, b: int|
                0 <= a < t.len() && 0 <= b < t.len() && (#[trigger] t[a]).0@ == (#[trigger] t[b]).0@ implies a
                == b by {
                assert(t[a] == s[a] && t[b] == s[b]);
            }
        }
        assert(t[i] == s[i]);
        lemma_rules_map_has(t, i);
        assert(s.last().0@ != s[i].0@) by {
            assert(s.last() == s[s.len() - 1]);
        }
    }
}

proof fn lemma_rules_map_dom(s: Seq<(String, RuleDefinition)>, n: Seq<char>)
    ensures
        rules_map(s).contains_key(n) <==> exists|i: int| 0 <= i < s.len() && (#[trigger] s[i]).0@ == n,
    decreases s.len(),
{
    if s.len() > 0 {
        let t = s.drop_last();
        lemma_rules_map_dom(t, n);
        if exists|i: int| 0 <= i < t.len() && (#[trigger] t[i]).0@ == n {
            let i = choose|i: int| 0 <= i < t.len() && (#[trigger] t[i]).0@ == n;
            assert(s[i] == t[i]);
        }
        if exists|i: int| 0 <= i < s.len() && (#[trigger] s[i]).0@ == n {
            let i = choose|i: int| 0 <= i < s.len() && (#[trigger] s[i]).0@ == n;
            if i < s.len() - 1 {
                assert(t[i] == s[i]);
            }
        }
    }
}

proof fn lemma_rules_map_update(
    s: Seq<(String, RuleDefinition)>,
    i: int,
    x: (String, RuleDefinition),
)
    requires
        names_unique(s),
        0 <= i < s.len(),
        x.0@ == s[i].0@,
    ensures
        rules_map(s.update(i, x)) == rules_map(s).insert(x.0@, x.1),
        names_unique(s.update(i, x)),
    decreases s.len(),
{
    let u = s.update(i, x);
    assert(names_unique(u)) by {
        assert forall|a: int, b: int|
            0 <= a < u.len() && 0 <= b < u.len() && (#[trigger] u[a]).0@ == (#[trigger] u[b]).0@ implies a
            == b by {
            assert(u[a].0@ == s[a].0@ && u[b].0@ == s[b].0@);
        }
    }
    let t = s.drop_last();
    if i == s.len() - 1 {
        assert(u.drop_last() =~= t);
        assert(u.last() == x);
        assert(rules_map(u) =~= rules_map(s).insert(x.0@, x.1));
    } else {
        assert(names_unique(t)) by {
            assert forall|a: int, b: int|
                0 <= a < t.len() && 0 <= b < t.len() && (#[trigger] t[a]).0@ == (#[trigger] t[b]).0@ implies a
                == b by {
                assert(t[a] == s[a] && t[b] == s[b]);
            }
        }
        assert(u.drop_last() =~= t.update(i, x));
        lemma_rules_map_update(t, i, x);
        assert(u.last() == s.last());
        assert(s.last().0@ != x.0@) by {
            assert(s.last() == s[s.len() - 1]);
        }
        assert(rules_map(u) =~= rules_map(s).insert(x.0@, x.1));
    }
}

impl RulesConfig {
    /// Adds or replaces the definition of `name`.
    pub fn insert(&mut self, name: String, def: RuleDefinition)
        requires
            old(self).wf(),
        ensures
            final(self).wf(),
            final(self).view_map() == old(self).view_map().insert(name@, def),
    {
        let mut i: usize = 0;
        while i < self.rules.len()
            invariant
                self.wf(),
                self.rules@ == old(self).rules@,
                i <= self.rules@.len(),
                forall|j: int| 0 <= j < i ==> (#[trigger] self.rules@[j]).0@ != name@,
            decreases self.rules@.len() - i,
        {
            if self.rules[i].0 == name {
                proof {
                    lemma_rules_map_update(self.rules@, i as int, (name, def));
                }
                self.rules.set(i, (name, def));
                return;
            }
            i = i + 1;
        }
        let ghost before = self.rules@;
        self.rules.push((name, def));
        proof {
            let s = self.rules@;
            assert(s.drop_last() =~= before);
            assert forall|a: int, b: int|
                0 <= a < s.len() && 0 <= b < s.len() && (#[trigger] s[a]).0@ == (#[trigger] s[b]).0@ implies a
                == b by {
                if a < s.len() - 1 && b < s.len() - 1 {
                    assert(s[a] == before[a] && s[b] == before[b]);
                } else if a < s.len() - 1 {
                    assert(s[a] == before[a]);
                } else if b < s.len() - 1 {
                    assert(s[b] == before[b]);
                }
            }
        }
    }

    /// Takes every definition of `other`, replacing those of the same name.
    fn merge_from(&mut self, other: RulesConfig)
        requires
            old(self).wf(),
            other.wf(),
        ensures
            final(self).wf(),
            final(self).view_map() == old(self).view_map().union_prefer_right(other.view_map()),
    {
        let mut other = other;
        let ghost all = other.rules@;
        while other.rules.len() > 0
            invariant
                self.wf(),
                other.wf(),
                all.len() >= other.rules@.len(),
                other.rules@ == all.subrange(0, other.rules@.len() as int),
                self.view_map() == old(self).view_map().union_prefer_right(
                    rules_map(all.subrange(other.rules@.len() as int, all.len() as int)),
                ),
                names_unique(all),
            decreases other.rules@.len(),
        {
            let ghost k = other.rules@.len() as int;
            let (name, def) = other.rules.pop().unwrap();
            proof {
                assert(other.rules@ =~= all.subrange(0, k - 1));
                assert(other.wf()) by {
                    let t = other.rules@;
                    assert forall|a: int, b: int|
                        0 <= a < t.len() && 0 <= b < t.len() && (#[trigger] t[a]).0@ == (
                        #[trigger] t[b]).0@ implies a == b by {
                        assert(t[a] == all[a] && t[b] == all[b]);
                    }
                }
            }
            let ghost before = self.view_map();
            self.insert(name, def);
            proof {
                let tail = all.subrange(k - 1, all.len() as int);
                let rest = all.subrange(k, all.len() as int);
                assert(tail[0] == all[k - 1]);
                assert(all[k - 1] == (name, def));
                lemma_rules_map_prepend(tail);
                assert(tail.drop_first() =~= rest);
                assert(self.view_map() =~= old(self).view_map().union_prefer_right(
                    rules_map(tail),
                ));
            }
        }
        proof {
            assert(all.subrange(0, all.len() as int) =~= all);
        }
    }

    /// The definition of `name`, if there is one.
    pub fn get_rule(&self, name: &str) -> (r: Option<&RuleDefinition>)
        requires
            self.wf(),
        ensures
            r is Some <==> self.view_map().contains_key(name@),
            r is Some ==> *r->0 == self.view_map()[name@],
    {
        let key = String::from_str(name);
        let mut i: usize = 0;
        while i < self.rules.len()
            invariant
                self.wf(),
                key@ == name@,
                i <= self.rules@.len(),
                forall|j: int| 0 <= j < i ==> (#[trigger] self.rules@[j]).0@ != name@,
            decreases self.rules@.len() - i,
        {
            if self.rules[i].0 == key {
                proof {
                    lemma_rules_map_has(self.rules@, i as int);
                }
                return Some(&self.rules[i].1);
            }
            i = i + 1;
        }
        proof {
            lemma_rules_map_dom(self.rules@, name@);
        }
        None
    }

    /// The enabled definitions, with their names, in order.
    pub fn get_enabled_rules(&self) -> (r: Vec<(&String, &RuleDefinition)>)
        ensures
            r@.map_values(|p: (&String, &RuleDefinition)| (*p.0, *p.1)) == enabled_entries(
                self.rules@,
            ),
    {
        let mut out: Vec<(&String, &RuleDefinition)> = Vec::new();
        let mut i: usize = 0;
        assert(self.rules@.subrange(0, 0) =~= Seq::<(String, RuleDefinition)>::empty());
        assert(out@.map_values(|p: (&String, &RuleDefinition)| (*p.0, *p.1)) =~= Seq::<
            (String, RuleDefinition),
        >::empty());
        while i < self.rules.len()
            invariant
                i <= self.rules@.len(),
                out@.map_values(|p: (&String, &RuleDefinition)| (*p.0, *p.1)) == enabled_entries(
                    self.rules@.subrange(0, i as int),
                ),
            decreases self.rules@.len() - i,
        {
            let ghost before = out@.map_values(|p: (&String, &RuleDefinition)| (*p.0, *p.1));
            let ghost next = self.rules@.subrange(0, i + 1);
            assert(next.drop_last() =~= self.rules@.subrange(0, i as int));
            assert(next.last() == self.rules@[i as int]);
            let entry = &self.rules[i];
            if entry.1.enabled {
                out.push((&entry.0, &entry.1));
                assert(out@.map_values(|p: (&String, &RuleDefinition)| (*p.0, *p.1)) =~= before.push(
                    self.rules@[i as int],
                ));
            }
            i = i + 1;
        }
        assert(self.rules@.subrange(0, self.rules@.len() as int) =~= self.rules@);
        out
    }
}

proof fn lemma_rules_map_prepend(s: Seq<(String, RuleDefinition)>)
    requires
        s.len() > 0,
        names_unique(s),
    ensures
        rules_map(s) == rules_map(s.drop_first()).insert(s[0].0@, s[0].1),
    decreases s.len(),
{
    let t = s.drop_first();
    if s.len() == 1 {
        assert(s.drop_last() =~= Seq::<(String, RuleDefinition)>::empty());
        assert(t =~= Seq::<(String, RuleDefinition)>::empty());
        assert(rules_map(s) =~= rules_map(t).insert(s[0].0@, s[0].1));
    } else {
        let d = s.drop_last();
        assert(names_unique(d)) by {
            assert forall|a: int, b: int|
                0 <= a < d.len() && 0 <= b < d.len() && (#[trigger] d[a]).0@ == (#[trigger] d[b]).0@ implies a
                == b by {
                assert(d[a] == s[a] && d[b] == s[b]);
            }
        }
        lemma_rules_map_prepend(d);
        assert(d.drop_first() =~= t.drop_last());
        assert(t.last() == s.last());
        assert(d[0] == s[0]);
        assert(s.last().0@ != s[0].0@) by {
            assert(s.last() == s[s.len() - 1]);
        }
        assert(rules_map(s) =~= rules_map(t).insert(s[0].0@, s[0].1));
    }
}

/// The settings of `base` overridden by those of `user`: optional values and a
/// non-empty exclude list replace the base's, flags always do.
pub open spec fn merged_settings(base: SizelintConfig, user: SizelintConfig) -> SizelintConfig {
    SizelintConfig {
        max_file_size: if user.max_file_size is Some {
            user.max_file_size
        } else {
            base.max_file_size
        },
        warn_file_size: if user.warn_file_size is Some {
            user.warn_file_size
        } else {
            base.warn_file_size
        },
        excludes: if user.excludes@.len() > 0 {
            user.excludes
        } else {
            base.excludes
        },
        check_staged: user.check_staged,
        check_working_tree: user.check_working_tree,
        git: if user.git is Some {
            user.git
        } else {
            base.git
        },
        respect_gitignore: user.respect_gitignore,
        fail_on_warn: user.fail_on_warn,
    }
}

impl SizelintConfig {
    fn merge_from(&mut self, other: SizelintConfig)
        ensures
            *final(self) == merged_settings(*old(self), other),
    {
        let SizelintConfig {
            max_file_size,
            warn_file_size,
            excludes,
            check_staged,
            check_working_tree,
            git,
            respect_gitignore,
            fail_on_warn,
        } = other;
        if max_file_size.is_some() {
            self.max_file_size = max_file_size;
        }
        if warn_file_size.is_some() {
            self.warn_file_size = warn_file_size;
        }
        if excludes.len() > 0 {
            self.excludes = excludes;
        }
        self.check_staged = check_staged;
        self.check_working_tree = check_working_tree;
        if git.is_some() {
            self.git = git;
        }
        self.respect_gitignore = respect_gitignore;
        self.fail_on_warn = fail_on_warn;
    }
}

impl Config {
    /// Every rule name stands once.
    pub open spec fn wf(&self) -> bool {
        self.rules is Some ==> self.rules->0.wf()
    }

    /// The rule definitions by name (none without a rules table).
    pub open spec fn rule_map(&self) -> Map<Seq<char>, RuleDefinition> {
        match self.rules {
            Some(r) => r.view_map(),
            None => Map::empty(),
        }
    }

    /// Overrides this configuration with a user's: the settings as
    /// `merged_settings` says, and the user's rule definitions added to or
    /// replacing these.
    fn merge_from_user_config(&mut self, user_config: Config)
        requires
            old(self).wf(),
            user_config.wf(),
        ensures
            final(self).wf(),
            final(self).sizelint == merged_settings(old(self).sizelint, user_config.sizelint),
            final(self).rule_map() == old(self).rule_map().union_prefer_right(
                user_config.rule_map(),
            ),
            final(self).rules is Some <==> (old(self).rules is Some || user_config.rules is Some),
    {
        let Config { sizelint, rules } = user_config;
        self.sizelint.merge_from(sizelint);
        match rules {
            Some(user_rules) => {
                match &mut self.rules {
                    Some(default_rules) => {
                        default_rules.merge_from(user_rules);
                    },
                    None => {
                        self.rules = Some(user_rules);
                        assert(self.rule_map() =~= Map::<Seq<char>, RuleDefinition>::empty().union_prefer_right(
                            user_config.rule_map(),
                        ));
                    },
                }
            },
            None => {
                assert(self.rule_map() =~= old(self).rule_map().union_prefer_right(
                    Map::<Seq<char>, RuleDefinition>::empty(),
                ));
            },
        }
    }

    /// The built-in configuration overridden by a user's.
    pub fn load_with_defaults(default_config: Config, user_config: Config) -> (r: Config)
        requires
            default_config.wf(),
            user_config.wf(),
        ensures
            r.wf(),
            r.sizelint == merged_settings(default_config.sizelint, user_config.sizelint),
            r.rule_map() == default_config.rule_map().union_prefer_right(user_config.rule_map()),
    {
        let mut config = default_config;
        config.merge_from_user_config(user_config);
        config
    }

    /// The default configuration, as TOML text.
    pub fn create_default_config() -> (r: String)
        ensures
            r@ == DEFAULT_CONFIG_TOML@,
    {
        String::from_str(DEFAULT_CONFIG_TOML)
    }

    /// The default configuration, as TOML text.
    pub fn default_config_str() -> (r: &'static str)
        ensures
            r@ == DEFAULT_CONFIG_TOML@,
    {
        DEFAULT_CONFIG_TOML
    }
}

/// The configured entries (none without a rules table).
pub open spec fn config_entries(config: Config) -> Seq<(String, RuleDefinition)> {
    match config.rules {
        Some(rc) => rc.rules@,
        None => Seq::empty(),
    }
}

} // verus!
