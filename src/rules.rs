//! Rules, the rule engine that picks one rule per file, and the merge of
//! findings that keeps the largest one per path.
use vstd::prelude::*;
use globset::GlobSet;
use crate::config::{config_entries, Config, RuleDefinition};
use crate::git::HistoryBlob;
use crate::error::SizelintError;
use crate::glob::{
    add_glob, any_glob_matches, build_glob_set, glob_parses, glob_set_builds, glob_set_is_match,
    glob_set_patterns, new_glob_builder,
};
use crate::size::{size_accepted, size_bytes, size_error_reason, size_text};
use crate::text::{chars_of, trimmed};
pub use crate::size::{format_size, parse_size_string};

verus! {

/// How serious a finding is; an error outranks a warning.
#[derive(Clone, Copy, Debug, PartialEq, Eq, Structural)]
pub enum Severity {
    Warning,
    Error,
}

/// What a finding says, as values.
pub struct ViolationView {
    pub path: Seq<char>,
    pub rule_name: Seq<char>,
    pub message: Seq<char>,
    pub severity: Severity,
    pub actual_value: Option<Seq<char>>,
    pub expected_value: Option<Seq<char>>,
    pub sort_key: u64,
}

/// A finding: a file, or a historical version of one, broke a rule.
#[derive(Debug)]
pub struct Violation {
    pub path: String,
    pub rule_name: String,
    pub message: String,
    pub severity: Severity,
    pub actual_value: Option<String>,
    pub expected_value: Option<String>,
    /// The byte size that drove the finding, used to compare findings of one
    /// path (zero for a finding on a pattern match).
    pub sort_key: u64,
}

/// The text of an optional string.
pub open spec fn opt_view(o: Option<String>) -> Option<Seq<char>> {
    match o {
        Some(s) => Some(s@),
        None => None,
    }
}

impl View for Violation {
    type V = ViolationView;

    open spec fn view(&self) -> ViolationView {
        ViolationView {
            path: self.path@,
            rule_name: self.rule_name@,
            message: self.message@,
            severity: self.severity,
            actual_value: opt_view(self.actual_value),
            expected_value: opt_view(self.expected_value),
            sort_key: self.sort_key,
        }
    }
}

/// The views of a sequence of findings.
pub open spec fn views(s: Seq<Violation>) -> Seq<ViolationView> {
    s.map_values(|v: Violation| v@)
}

/// The texts of a sequence of strings.
pub open spec fn string_views(s: Seq<String>) -> Seq<Seq<char>> {
    s.map_values(|v: String| v@)
}

fn copy_opt(o: &Option<String>) -> (r: Option<String>)
    ensures
        opt_view(r) == opt_view(*o),
{
    match o {
        Some(s) => Some(s.clone()),
        None => None,
    }
}

/// A copy of a list of strings.
pub fn copy_strings(v: &Vec<String>) -> (r: Vec<String>)
    ensures
        string_views(r@) == string_views(v@),
{
    let mut r: Vec<String> = Vec::new();
    let mut i: usize = 0;
    while i < v.len()
        invariant
            i <= v@.len(),
            r@.len() == i,
            forall|j: int| 0 <= j < i ==> (#[trigger] r@[j])@ == v@[j]@,
        decreases v@.len() - i,
    {
        let s = v[i].clone();
        r.push(s);
        i = i + 1;
    }
    assert(string_views(r@) =~= string_views(v@));
    r
}

impl Violation {
    pub fn new(path: String, rule_name: String, message: String, severity: Severity) -> (r: Self)
        ensures
            r@ == (ViolationView {
                path: path@,
                rule_name: rule_name@,
                message: message@,
                severity,
                actual_value: None,
                expected_value: None,
                sort_key: 0,
            }),
    {
        Violation {
            path,
            rule_name,
            message,
            severity,
            actual_value: None,
            expected_value: None,
            sort_key: 0,
        }
    }

    pub fn with_actual_value(self, actual: String) -> (r: Self)
        ensures
            r@ == (ViolationView { actual_value: Some(actual@), ..self@ }),
    {
        Violation { actual_value: Some(actual), ..self }
    }

    pub fn with_expected_value(self, expected: String) -> (r: Self)
        ensures
            r@ == (ViolationView { expected_value: Some(expected@), ..self@ }),
    {
        Violation { expected_value: Some(expected), ..self }
    }

    pub fn with_sort_key(self, sort_key: u64) -> (r: Self)
        ensures
            r@ == (ViolationView { sort_key, ..self@ }),
    {
        Violation { sort_key, ..self }
    }

    /// A copy of the finding.
    pub fn duplicate(&self) -> (r: Self)
        ensures
            r@ == self@,
    {
        Violation {
            path: self.path.clone(),
            rule_name: self.rule_name.clone(),
            message: self.message.clone(),
            severity: self.severity,
            actual_value: copy_opt(&self.actual_value),
            expected_value: copy_opt(&self.expected_value),
            sort_key: self.sort_key,
        }
    }

    /// The stable code of the finding: `sizelint::<rule>::<severity>`.
    pub fn diagnostic_code(&self) -> (r: String)
        ensures
            r@ == "sizelint::"@ + self.rule_name@ + "::"@ + (if self.severity == Severity::Error {
                "error"@
            } else {
                "warning"@
            }),
    {
        let level = match self.severity {
            Severity::Error => "error",
            Severity::Warning => "warning",
        };
        String::from_str("sizelint::").concat(self.rule_name.as_str()).concat("::").concat(level)
    }

    /// A hint that puts the actual and the expected value side by side, when
    /// the finding has both.
    pub fn help(&self) -> (r: Option<String>)
        ensures
            (self.actual_value is Some && self.expected_value is Some) <==> r is Some,
            r is Some ==> r->0@ == "Actual: "@ + self.actual_value->0@ + ", Expected: "@
                + self.expected_value->0@,
    {
        match (&self.actual_value, &self.expected_value) {
            (Some(actual), Some(expected)) => Some(
                String::from_str("Actual: ").concat(actual.as_str()).concat(", Expected: ").concat(
                    expected.as_str(),
                ),
            ),
            _ => None,
        }
    }
}

/// What a rule is, for listing and describing.
#[derive(Debug)]
pub struct RuleInfo {
    pub name: String,
    pub description: String,
    pub enabled: bool,
    pub priority: Option<i32>,
    pub max_size: Option<u64>,
    pub warn_size: Option<u64>,
    pub max_size_str: Option<String>,
    pub warn_size_str: Option<String>,
    pub includes: Vec<String>,
    pub excludes: Vec<String>,
    pub warn_on_match: bool,
    pub error_on_match: bool,
}

/// `info` describes the rule `r`.
pub open spec fn describes_rule(info: RuleInfo, r: ConfigurableRule) -> bool {
    &&& info.name@ == r@.name
    &&& info.description@ == r.spec_definition().description@
    &&& info.enabled == r@.enabled
    &&& info.priority == r@.priority
    &&& info.max_size == r@.max_size
    &&& info.warn_size == r@.warn_size
    &&& opt_view(info.max_size_str) == opt_view(r.spec_definition().max_size)
    &&& opt_view(info.warn_size_str) == opt_view(r.spec_definition().warn_size)
    &&& string_views(info.includes@) == string_views(r.spec_definition().includes@)
    &&& string_views(info.excludes@) == string_views(r.spec_definition().excludes@)
    &&& info.warn_on_match == r@.warn_on_match
    &&& info.error_on_match == r@.error_on_match
}

/// The byte count of an optional size string, when it parses.
pub open spec fn parsed_size(s: Option<String>) -> Option<u64> {
    match s {
        Some(t) => if size_accepted(t@) {
            Some(size_bytes(t@))
        } else {
            None
        },
        None => None,
    }
}

fn parsed_size_of(s: &Option<String>) -> (r: Option<u64>)
    ensures
        r == parsed_size(*s),
{
    match s {
        Some(t) => match parse_size_string(t.as_str()) {
            Ok(v) => Some(v),
            Err(_) => None,
        },
        None => None,
    }
}

/// `info` describes the configured rule `name` with definition `d`.
pub open spec fn describes_definition(info: RuleInfo, name: Seq<char>, d: RuleDefinition) -> bool {
    &&& info.name@ == name
    &&& info.description@ == d.description@
    &&& info.enabled == d.enabled
    &&& info.priority == Some(d.priority)
    &&& info.max_size == parsed_size(d.max_size)
    &&& info.warn_size == parsed_size(d.warn_size)
    &&& opt_view(info.max_size_str) == opt_view(d.max_size)
    &&& opt_view(info.warn_size_str) == opt_view(d.warn_size)
    &&& string_views(info.includes@) == string_views(d.includes@)
    &&& string_views(info.excludes@) == string_views(d.excludes@)
    &&& info.warn_on_match == d.warn_on_match
    &&& info.error_on_match == d.error_on_match
}

/// `info` describes one of the disabled entries of `es`.
pub open spec fn from_disabled_entry(info: RuleInfo, es: Seq<(String, RuleDefinition)>) -> bool {
    exists|k: int|
        0 <= k < es.len() && !es[k].1.enabled && #[trigger] describes_definition(
            info,
            es[k].0@,
            es[k].1,
        )
}

/// A file to check, with its size on disk.
#[derive(Debug)]
pub struct CandidateFile {
    pub path: String,
    pub size: u64,
}

/// What a configured rule is, as values.
pub struct RuleView {
    pub name: Seq<char>,
    pub enabled: bool,
    /// `None` for the rule named `default`, which loses to every other rule.
    pub priority: Option<i32>,
    pub max_size: Option<u64>,
    pub warn_size: Option<u64>,
    /// The rule lists include patterns, so that a file must match one.
    pub has_includes: bool,
    /// The include globs, as matched.
    pub includes: Seq<Seq<char>>,
    /// The exclude globs, as matched.
    pub excludes: Seq<Seq<char>>,
    pub warn_on_match: bool,
    pub error_on_match: bool,
}

/// A pattern without `/` names a file anywhere in the tree: `**/` is put in
/// front of it. One with `/` stands as written.
pub open spec fn expand_pattern(p: Seq<char>) -> Seq<char> {
    if p.contains('/') {
        p
    } else {
        "**/"@ + p
    }
}

pub open spec fn expand_patterns(ps: Seq<Seq<char>>) -> Seq<Seq<char>> {
    ps.map_values(|p: Seq<char>| expand_pattern(p))
}

/// The glob of a configured pattern parses.
pub open spec fn pattern_ok(p: Seq<char>) -> bool {
    glob_parses(expand_pattern(p))
}

pub open spec fn all_patterns_ok(ps: Seq<Seq<char>>) -> bool {
    forall|i: int| 0 <= i < ps.len() ==> pattern_ok(#[trigger] ps[i])
}

/// Every glob of `ps` parses, and the set of them builds.
pub open spec fn patterns_build(ps: Seq<Seq<char>>) -> bool {
    all_patterns_ok(ps) && glob_set_builds(expand_patterns(ps))
}

/// The first pattern of `ps` whose glob does not parse.
pub open spec fn first_bad_pattern(ps: Seq<Seq<char>>) -> int {
    choose|i: int|
        0 <= i < ps.len() && !pattern_ok(#[trigger] ps[i]) && forall|j: int|
            0 <= j < i ==> pattern_ok(#[trigger] ps[j])
}

/// The byte count of an optional size string.
pub open spec fn opt_size(s: Option<String>) -> Option<u64> {
    match s {
        Some(t) => Some(size_bytes(t@)),
        None => None,
    }
}

/// An optional size string is absent or accepted.
pub open spec fn opt_size_ok(s: Option<String>) -> bool {
    match s {
        Some(t) => size_accepted(t@),
        None => true,
    }
}

/// `e` is the error that `parse_size_string` gives for `s`.
pub open spec fn is_size_refusal(e: SizelintError, s: Seq<char>) -> bool {
    e matches SizelintError::InvalidSizeFormat { input, reason } && input@ == trimmed(s)
        && reason@ == size_error_reason(s)
}

/// `e` names `p` as a pattern that does not parse.
pub open spec fn is_pattern_refusal(e: SizelintError, p: Seq<char>) -> bool {
    e matches SizelintError::ConfigInvalidPattern { pattern, .. } && pattern@ == p
}

/// The rule that `name` and `d` configure.
pub open spec fn rule_view_of(name: Seq<char>, d: RuleDefinition) -> RuleView {
    RuleView {
        name,
        enabled: d.enabled,
        priority: if name == "default"@ {
            None
        } else {
            Some(d.priority)
        },
        max_size: opt_size(d.max_size),
        warn_size: opt_size(d.warn_size),
        has_includes: d.includes@.len() > 0,
        includes: expand_patterns(string_views(d.includes@)),
        excludes: expand_patterns(string_views(d.excludes@)),
        warn_on_match: d.warn_on_match,
        error_on_match: d.error_on_match,
    }
}

/// The rule leaves `path` alone: it has includes and none matches, or an
/// exclude matches.
pub open spec fn rule_skips(r: RuleView, path: Seq<char>) -> bool {
    (r.has_includes && !any_glob_matches(r.includes, path)) || any_glob_matches(r.excludes, path)
}

/// The finding for a file that matches the rule's patterns.
pub open spec fn match_finding(r: RuleView, path: Seq<char>, severity: Severity) -> ViolationView {
    ViolationView {
        path,
        rule_name: r.name,
        message: "File "@ + path + " matches rule pattern"@,
        severity,
        actual_value: Some("matched"@),
        expected_value: Some("not matched"@),
        sort_key: 0,
    }
}

/// The finding for a file of `size` bytes above `limit`: an error for the
/// maximum size, a warning for the warning size.
pub open spec fn size_finding(
    r: RuleView,
    path: Seq<char>,
    size: u64,
    limit: u64,
    severity: Severity,
) -> ViolationView {
    ViolationView {
        path,
        rule_name: r.name,
        message: "File size "@ + size_text(size as nat) + (if severity == Severity::Error {
            " exceeds maximum allowed size "@
        } else {
            " exceeds warning threshold "@
        }) + size_text(limit as nat),
        severity,
        actual_value: Some(size_text(size as nat)),
        expected_value: Some("≤ "@ + size_text(limit as nat)),
        sort_key: size,
    }
}

/// What one rule finds in a file: nothing if it skips the file; else a match
/// error, or else a match warning, when so configured; else an error above the
/// maximum size; else a warning above the warning size.
pub open spec fn rule_findings(r: RuleView, path: Seq<char>, size: u64) -> Seq<ViolationView> {
    if rule_skips(r, path) {
        Seq::empty()
    } else if r.error_on_match {
        seq![match_finding(r, path, Severity::Error)]
    } else if r.warn_on_match {
        seq![match_finding(r, path, Severity::Warning)]
    } else if r.max_size is Some && size > r.max_size->0 {
        seq![size_finding(r, path, size, r.max_size->0, Severity::Error)]
    } else if r.warn_size is Some && size > r.warn_size->0 {
        seq![size_finding(r, path, size, r.warn_size->0, Severity::Warning)]
    } else {
        Seq::empty()
    }
}

/// A rule built from configuration: size thresholds, globs and match flags.
pub struct ConfigurableRule {
    name: String,
    definition: RuleDefinition,
    max_size: Option<u64>,
    warn_size: Option<u64>,
    includes: GlobSet,
    excludes: GlobSet,
}

impl View for ConfigurableRule {
    type V = RuleView;

    closed spec fn view(&self) -> RuleView {
        RuleView {
            name: self.name@,
            enabled: self.definition.enabled,
            priority: if self.name@ == "default"@ {
                None
            } else {
                Some(self.definition.priority)
            },
            max_size: self.max_size,
            warn_size: self.warn_size,
            has_includes: self.definition.includes@.len() > 0,
            includes: glob_set_patterns(self.includes),
            excludes: glob_set_patterns(self.excludes),
            warn_on_match: self.definition.warn_on_match,
            error_on_match: self.definition.error_on_match,
        }
    }
}

/// The glob of a configured pattern: `**/` in front unless it holds a `/`.
pub fn expand_if_path(pattern: &str) -> (r: String)
    ensures
        r@ == expand_pattern(pattern@),
{
    let cs = chars_of(pattern);
    let mut i: usize = 0;
    while i < cs.len()
        invariant
            i <= cs@.len(),
            cs@ == pattern@,
            forall|j: int| 0 <= j < i ==> cs@[j] != '/',
        decreases cs@.len() - i,
    {
        if cs[i] == '/' {
            assert(pattern@.contains('/')) by {
                assert(pattern@[i as int] == '/');
            }
            return String::from_str(pattern);
        }
        i = i + 1;
    }
    assert(!pattern@.contains('/'));
    String::from_str("**/").concat(pattern)
}

/// The glob set of configured patterns.
fn build_patterns(patterns: &Vec<String>, field: &str) -> (r: Result<GlobSet, SizelintError>)
    ensures
        r is Ok ==> glob_set_patterns(r->Ok_0) == expand_patterns(string_views(patterns@)),
        !all_patterns_ok(string_views(patterns@)) ==> r is Err && is_pattern_refusal(
            r->Err_0,
            string_views(patterns@)[first_bad_pattern(string_views(patterns@))],
        ),
        all_patterns_ok(string_views(patterns@)) ==> (r is Ok <==> glob_set_builds(
            expand_patterns(string_views(patterns@)),
        )),
        all_patterns_ok(string_views(patterns@)) && r is Err ==> r->Err_0 is ConfigInvalid,
        patterns@.len() == 0 ==> r is Ok,
{
    let ghost ps = string_views(patterns@);
    let mut b = new_glob_builder();
    let mut i: usize = 0;
    assert(expand_patterns(ps).subrange(0, 0) =~= Seq::<Seq<char>>::empty());
    while i < patterns.len()
        invariant
            i <= patterns@.len(),
            ps == string_views(patterns@),
            crate::glob::builder_patterns(b) == expand_patterns(ps).subrange(0, i as int),
            forall|j: int| 0 <= j < i ==> pattern_ok(#[trigger] ps[j]),
        decreases patterns@.len() - i,
    {
        let e = expand_if_path(patterns[i].as_str());
        match add_glob(&mut b, e.as_str()) {
            Ok(()) => {},
            Err(source) => {
                proof {
                    assert(!pattern_ok(ps[i as int]));
                    let k = first_bad_pattern(ps);
                    assert(exists|k: int|
                        0 <= k < ps.len() && !pattern_ok(#[trigger] ps[k]) && forall|j: int|
                            0 <= j < k ==> pattern_ok(#[trigger] ps[j])) by {
                        assert(0 <= i < ps.len() && !pattern_ok(ps[i as int]));
                    }
                    if k < i {
                        assert(pattern_ok(ps[k]));
                    }
                    if k > i {
                        assert(pattern_ok(ps[i as int]));
                    }
                    assert(k == i);
                }
                return Err(SizelintError::config_invalid_pattern(patterns[i].clone(), source));
            },
        }
        i = i + 1;
        assert(expand_patterns(ps).subrange(0, i as int) =~= expand_patterns(ps).subrange(
            0,
            i - 1,
        ).push(expand_pattern(ps[i - 1])));
    }
    assert(expand_patterns(ps).subrange(0, patterns@.len() as int) =~= expand_patterns(ps));
    match build_glob_set(&b) {
        Ok(set) => Ok(set),
        Err(_) => Err(
            SizelintError::config_invalid(
                String::from_str(field),
                String::from_str("globset_builder"),
                String::from_str("Failed to build glob patterns"),
            ),
        ),
    }
}

fn parse_opt_size(s: &Option<String>) -> (r: Result<Option<u64>, SizelintError>)
    ensures
        r is Ok <==> opt_size_ok(*s),
        r is Ok ==> r->Ok_0 == opt_size(*s),
        r is Err ==> is_size_refusal(r->Err_0, s->0@),
{
    match s {
        Some(t) => match parse_size_string(t.as_str()) {
            Ok(v) => Ok(Some(v)),
            Err(e) => Err(e),
        },
        None => Ok(None),
    }
}

impl ConfigurableRule {
    /// Builds the rule `name` from its definition: the size strings are
    /// parsed, then the include and exclude patterns compiled.
    pub fn new(name: String, definition: RuleDefinition) -> (r: Result<Self, SizelintError>)
        ensures
            r is Ok ==> r->Ok_0@ == rule_view_of(name@, definition),
            r is Ok ==> r->Ok_0.spec_definition() == definition,
            !opt_size_ok(definition.max_size) ==> r is Err && is_size_refusal(
                r->Err_0,
                definition.max_size->0@,
            ),
            opt_size_ok(definition.max_size) && !opt_size_ok(definition.warn_size) ==> r is Err
                && is_size_refusal(r->Err_0, definition.warn_size->0@),
            ({
                let inc = string_views(definition.includes@);
                opt_size_ok(definition.max_size) && opt_size_ok(definition.warn_size)
                    && !all_patterns_ok(inc) ==> r is Err && is_pattern_refusal(
                    r->Err_0,
                    inc[first_bad_pattern(inc)],
                )
            }),
            ({
                let inc = string_views(definition.includes@);
                opt_size_ok(definition.max_size) && opt_size_ok(definition.warn_size)
                    && all_patterns_ok(inc) && !patterns_build(inc) ==> r is Err
                    && r->Err_0 is ConfigInvalid
            }),
            ({
                let inc = string_views(definition.includes@);
                let exc = string_views(definition.excludes@);
                opt_size_ok(definition.max_size) && opt_size_ok(definition.warn_size)
                    && patterns_build(inc) && !all_patterns_ok(exc) ==> r is Err
                    && is_pattern_refusal(r->Err_0, exc[first_bad_pattern(exc)])
            }),
            ({
                let inc = string_views(definition.includes@);
                let exc = string_views(definition.excludes@);
                opt_size_ok(definition.max_size) && opt_size_ok(definition.warn_size)
                    && patterns_build(inc) && all_patterns_ok(exc) && !patterns_build(exc) ==> r is Err
                    && r->Err_0 is ConfigInvalid
            }),
            opt_size_ok(definition.max_size) && opt_size_ok(definition.warn_size) && patterns_build(
                string_views(definition.includes@),
            ) && patterns_build(string_views(definition.excludes@)) ==> r is Ok,
            opt_size_ok(definition.max_size) && opt_size_ok(definition.warn_size)
                && definition.includes@.len() == 0 && definition.excludes@.len() == 0 ==> r is Ok,
    {
        let max_size = match parse_opt_size(&definition.max_size) {
            Ok(v) => v,
            Err(e) => {
                return Err(e);
            },
        };
        let warn_size = match parse_opt_size(&definition.warn_size) {
            Ok(v) => v,
            Err(e) => {
                return Err(e);
            },
        };
        let includes = match build_patterns(&definition.includes, "include_patterns") {
            Ok(g) => g,
            Err(e) => {
                return Err(e);
            },
        };
        let excludes = match build_patterns(&definition.excludes, "exclude_patterns") {
            Ok(g) => g,
            Err(e) => {
                return Err(e);
            },
        };
        Ok(ConfigurableRule { name, definition, max_size, warn_size, includes, excludes })
    }

    /// The definition the rule was built from.
    pub closed spec fn spec_definition(&self) -> RuleDefinition {
        self.definition
    }

    /// What the rule is, for listing.
    pub fn get_rule_info(&self) -> (r: RuleInfo)
        ensures
            describes_rule(r, *self),
    {
        RuleInfo {
            name: self.name.clone(),
            description: self.definition.description.clone(),
            enabled: self.definition.enabled,
            priority: self.get_priority(),
            max_size: self.max_size,
            warn_size: self.warn_size,
            max_size_str: copy_opt(&self.definition.max_size),
            warn_size_str: copy_opt(&self.definition.warn_size),
            includes: copy_strings(&self.definition.includes),
            excludes: copy_strings(&self.definition.excludes),
            warn_on_match: self.definition.warn_on_match,
            error_on_match: self.definition.error_on_match,
        }
    }

    /// Whether the rule leaves `path` alone.
    pub fn should_skip_file(&self, path: &str) -> (r: bool)
        ensures
            r == rule_skips(self@, path@),
    {
        if self.definition.includes.len() > 0 && !glob_set_is_match(&self.includes, path) {
            return true;
        }
        glob_set_is_match(&self.excludes, path)
    }

    /// The rule's priority; the rule named `default` has none.
    pub fn get_priority(&self) -> (r: Option<i32>)
        ensures
            r == self@.priority,
    {
        if self.name == String::from_str("default") {
            None
        } else {
            Some(self.definition.priority)
        }
    }

    pub fn name(&self) -> (r: &str)
        ensures
            r@ == self@.name,
    {
        self.name.as_str()
    }

    pub fn description(&self) -> (r: &str)
        ensures
            r@ == self.spec_definition().description@,
    {
        self.definition.description.as_str()
    }

    pub fn is_enabled(&self) -> (r: bool)
        ensures
            r == self@.enabled,
    {
        self.definition.enabled
    }

    /// The findings of this rule on a file of `size` bytes at `path`.
    pub fn check(&self, path: &str, size: u64) -> (r: Vec<Violation>)
        ensures
            views(r@) == rule_findings(self@, path@, size),
    {
        let mut out: Vec<Violation> = Vec::new();
        if self.should_skip_file(path) {
            assert(views(out@) =~= Seq::<ViolationView>::empty());
            return out;
        }
        if self.definition.error_on_match || self.definition.warn_on_match {
            let severity = if self.definition.error_on_match {
                Severity::Error
            } else {
                Severity::Warning
            };
            let message = String::from_str("File ").concat(path).concat(" matches rule pattern");
            let v = Violation::new(String::from_str(path), self.name.clone(), message, severity);
            let v = v.with_actual_value(String::from_str("matched")).with_expected_value(
                String::from_str("not matched"),
            );
            out.push(v);
            assert(views(out@) =~= rule_findings(self@, path@, size));
            return out;
        }
        let (limit, severity) = match (self.max_size, self.warn_size) {
            (Some(m), _) if size > m => (m, Severity::Error),
            (_, Some(w)) if size > w => (w, Severity::Warning),
            _ => {
                assert(views(out@) =~= rule_findings(self@, path@, size));
                return out;
            },
        };
        let what = if severity == Severity::Error {
            " exceeds maximum allowed size "
        } else {
            " exceeds warning threshold "
        };
        let message = String::from_str("File size ").concat(format_size(size).as_str()).concat(
            what,
        ).concat(format_size(limit).as_str());
        let v = Violation::new(String::from_str(path), self.name.clone(), message, severity);
        let v = v.with_actual_value(format_size(size)).with_expected_value(
            String::from_str("≤ ").concat(format_size(limit).as_str()),
        ).with_sort_key(size);
        out.push(v);
        assert(views(out@) =~= rule_findings(self@, path@, size));
        out
    }
}

/// How a priority ranks: a set priority by its value, an unset one below all.
pub open spec fn rank(p: Option<i32>) -> int {
    match p {
        Some(v) => v as int,
        None => i32::MIN as int - 1,
    }
}

/// The rule is enabled and does not skip `path`.
pub open spec fn rule_applies(r: RuleView, path: Seq<char>) -> bool {
    r.enabled && !rule_skips(r, path)
}

/// Rule `i` is the one that runs on `path`: it applies, no applying rule
/// ranks higher, and none before it ranks as high.
pub open spec fn is_selected(rules: Seq<RuleView>, path: Seq<char>, i: int) -> bool {
    &&& 0 <= i < rules.len()
    &&& rule_applies(rules[i], path)
    &&& forall|j: int|
        0 <= j < rules.len() && rule_applies(#[trigger] rules[j], path) ==> rank(rules[j].priority)
            <= rank(rules[i].priority) && (j < i ==> rank(rules[j].priority) < rank(
            rules[i].priority,
        ))
}

/// The index of the rule that runs on `path`, if any applies.
pub open spec fn selected_rule(rules: Seq<RuleView>, path: Seq<char>) -> Option<int> {
    if exists|i: int| is_selected(rules, path, i) {
        Some(choose|i: int| is_selected(rules, path, i))
    } else {
        None
    }
}

/// What the engine finds in one file: the findings of the selected rule only.
pub open spec fn engine_findings(rules: Seq<RuleView>, path: Seq<char>, size: u64) -> Seq<
    ViolationView,
> {
    match selected_rule(rules, path) {
        Some(i) => rule_findings(rules[i], path, size),
        None => Seq::empty(),
    }
}

/// The findings of the engine on each `(path, size)` in turn, concatenated.
pub open spec fn findings_of_files(rules: Seq<RuleView>, files: Seq<(Seq<char>, u64)>) -> Seq<
    ViolationView,
>
    decreases files.len(),
{
    if files.len() == 0 {
        Seq::empty()
    } else {
        findings_of_files(rules, files.drop_last()) + engine_findings(
            rules,
            files.last().0,
            files.last().1,
        )
    }
}

pub open spec fn candidate_entries(files: Seq<CandidateFile>) -> Seq<(Seq<char>, u64)> {
    files.map_values(|f: CandidateFile| (f.path@, f.size))
}

pub open spec fn blob_entries(blobs: Seq<HistoryBlob>) -> Seq<(Seq<char>, u64)> {
    blobs.map_values(|b: HistoryBlob| (b.path@, b.size))
}

/// The enabled rules, in order.
pub open spec fn enabled_rules(rules: Seq<RuleView>) -> Seq<RuleView>
    decreases rules.len(),
{
    if rules.len() == 0 {
        rules
    } else if rules.last().enabled {
        enabled_rules(rules.drop_last()).push(rules.last())
    } else {
        enabled_rules(rules.drop_last())
    }
}

/// Finding `i` is the one kept for its path: no finding of that path has a
/// larger sort key, and none before it has as large a one.
#[verifier::opaque]
pub open spec fn is_kept(s: Seq<ViolationView>, i: int) -> bool {
    forall|j: int|
        0 <= j < s.len() && (#[trigger] s[j]).path == s[i].path ==> s[j].sort_key <= s[i].sort_key
            && (j < i ==> s[j].sort_key < s[i].sort_key)
}

/// The kept findings among the first `n`, in their order.
pub open spec fn kept_prefix(s: Seq<ViolationView>, n: nat) -> Seq<ViolationView>
    decreases n,
{
    if n == 0 {
        Seq::empty()
    } else {
        let p = kept_prefix(s, (n - 1) as nat);
        if is_kept(s, n - 1) {
            p.push(s[n - 1])
        } else {
            p
        }
    }
}

/// One finding per path: the first of those with the largest sort key.
pub open spec fn dedup_findings(s: Seq<ViolationView>) -> Seq<ViolationView> {
    kept_prefix(s, s.len())
}

proof fn lemma_selected_unique(rules: Seq<RuleView>, path: Seq<char>, i: int, k: int)
    requires
        is_selected(rules, path, i),
        is_selected(rules, path, k),
    ensures
        i == k,
{
    assert(rule_applies(rules[i], path) && rule_applies(rules[k], path));
    if i < k {
        assert(rank(rules[i].priority) < rank(rules[k].priority));
        assert(rank(rules[k].priority) <= rank(rules[i].priority));
    } else if k < i {
        assert(rank(rules[k].priority) < rank(rules[i].priority));
        assert(rank(rules[i].priority) <= rank(rules[k].priority));
    }
}

/// Whether priority `a` ranks above priority `b`.
fn outranks(a: Option<i32>, b: Option<i32>) -> (r: bool)
    ensures
        r == (rank(a) > rank(b)),
{
    match (a, b) {
        (Some(x), Some(y)) => x > y,
        (Some(_), None) => true,
        (None, _) => false,
    }
}

/// The findings of `findings` with one per path: the first of those with the
/// largest sort key.
pub fn dedup_violations(findings: &Vec<Violation>) -> (r: Vec<Violation>)
    ensures
        views(r@) == dedup_findings(views(findings@)),
{
    let ghost s = views(findings@);
    let n = findings.len();
    let mut out: Vec<Violation> = Vec::new();
    let mut i: usize = 0;
    while i < n
        invariant
            n == findings@.len() == s.len(),
            s == views(findings@),
            i <= n,
            views(out@) == kept_prefix(s, i as nat),
        decreases n - i,
    {
        let mut kept = true;
        let mut j: usize = 0;
        while j < n
            invariant
                n == findings@.len() == s.len(),
                s == views(findings@),
                i < n,
                j <= n,
                kept <==> forall|k: int|
                    0 <= k < j && (#[trigger] s[k]).path == s[i as int].path ==> s[k].sort_key
                        <= s[i as int].sort_key && (k < i ==> s[k].sort_key < s[i as int].sort_key),
            decreases n - j,
        {
            assert(s[j as int] == findings@[j as int]@);
            assert(s[i as int] == findings@[i as int]@);
            if findings[j].path == findings[i].path {
                let key_j = findings[j].sort_key;
                let key_i = findings[i].sort_key;
                if key_j > key_i || (j < i && key_j == key_i) {
                    kept = false;
                }
            }
            j = j + 1;
        }
        assert(kept == is_kept(s, i as int)) by {
            reveal(is_kept);
        }
        if kept {
            let v = findings[i].duplicate();
            out.push(v);
        }
        i = i + 1;
        assert(views(out@) =~= kept_prefix(s, i as nat));
    }
    out
}

/// The merge of live-tree findings and historical findings: one per path, the
/// largest, where on equal sort keys a live-tree finding is preferred.
pub fn merge_findings(live: &Vec<Violation>, historical: &Vec<Violation>) -> (r: Vec<Violation>)
    ensures
        views(r@) == dedup_findings(views(live@) + views(historical@)),
{
    let mut all: Vec<Violation> = Vec::new();
    let mut i: usize = 0;
    while i < live.len()
        invariant
            i <= live@.len(),
            all@.len() == i,
            forall|j: int| 0 <= j < i ==> (#[trigger] all@[j])@ == live@[j]@,
        decreases live@.len() - i,
    {
        all.push(live[i].duplicate());
        i = i + 1;
    }
    let mut k: usize = 0;
    while k < historical.len()
        invariant
            i == live@.len(),
            k <= historical@.len(),
            all@.len() == i + k,
            forall|j: int| 0 <= j < i ==> (#[trigger] all@[j])@ == live@[j]@,
            forall|j: int| 0 <= j < k ==> (#[trigger] all@[i + j])@ == historical@[j]@,
        decreases historical@.len() - k,
    {
        all.push(historical[k].duplicate());
        k = k + 1;
    }
    proof {
        let want = views(live@) + views(historical@);
        assert forall|j: int| 0 <= j < all@.len() implies views(all@)[j] == want[j] by {
            if j >= i {
                assert(all@[i + (j - i)]@ == historical@[j - i]@);
            }
        }
        assert(views(all@) =~= want);
    }
    dedup_violations(&all)
}

/// The rules, evaluated together: one rule runs per file.
pub struct RuleEngine {
    rules: Vec<ConfigurableRule>,
}

impl View for RuleEngine {
    type V = Seq<RuleView>;

    closed spec fn view(&self) -> Seq<RuleView> {
        self.rules@.map_values(|r: ConfigurableRule| r@)
    }
}

impl RuleEngine {
    pub fn new() -> (r: Self)
        ensures
            r@ == Seq::<RuleView>::empty(),
    {
        let r = RuleEngine { rules: Vec::new() };
        assert(r@ =~= Seq::<RuleView>::empty());
        r
    }

    pub fn add_rule(&mut self, rule: ConfigurableRule)
        ensures
            final(self)@ == old(self)@.push(rule@),
    {
        self.rules.push(rule);
        assert(self@ =~= old(self)@.push(rule@));
    }

    /// The rules, in the order they were added.
    pub fn get_rules(&self) -> (r: &[ConfigurableRule])
        ensures
            r@.map_values(|x: ConfigurableRule| x@) == self@,
    {
        self.rules.as_slice()
    }

    /// The number of rules.
    pub fn len(&self) -> (r: usize)
        ensures
            r == self@.len(),
    {
        self.rules.len()
    }

    /// The enabled rules, in order.
    pub fn get_enabled_rules(&self) -> (r: Vec<&ConfigurableRule>)
        ensures
            r@.map_values(|x: &ConfigurableRule| x@) == enabled_rules(self@),
    {
        let mut out: Vec<&ConfigurableRule> = Vec::new();
        let mut i: usize = 0;
        while i < self.rules.len()
            invariant
                i <= self.rules@.len(),
                out@.map_values(|x: &ConfigurableRule| x@) == enabled_rules(self@.subrange(0, i as int)),
            decreases self.rules@.len() - i,
        {
            let ghost before = out@;
            assert(self@.subrange(0, i + 1).drop_last() =~= self@.subrange(0, i as int));
            assert(self@.subrange(0, i + 1).last() == self.rules@[i as int]@);
            if self.rules[i].is_enabled() {
                out.push(&self.rules[i]);
                assert(out@.map_values(|x: &ConfigurableRule| x@) =~= before.map_values(
                    |x: &ConfigurableRule| x@,
                ).push(self.rules@[i as int]@));
            }
            i = i + 1;
        }
        assert(self@.subrange(0, self@.len() as int) =~= self@);
        out
    }

    /// The rules, as built.
    pub closed spec fn spec_rules(&self) -> Seq<ConfigurableRule> {
        self.rules@
    }

    /// What each rule is, in order.
    pub fn get_rule_info(&self) -> (r: Vec<RuleInfo>)
        ensures
            r@.len() == self@.len() == self.spec_rules().len(),
            forall|i: int|
                0 <= i < r@.len() ==> describes_rule(#[trigger] r@[i], self.spec_rules()[i])
                    && self.spec_rules()[i]@ == self@[i],
    {
        let mut out: Vec<RuleInfo> = Vec::new();
        let mut i: usize = 0;
        while i < self.rules.len()
            invariant
                i <= self.rules@.len(),
                out@.len() == i,
                forall|j: int| 0 <= j < i ==> describes_rule(#[trigger] out@[j], self.rules@[j]),
            decreases self.rules@.len() - i,
        {
            out.push(self.rules[i].get_rule_info());
            i = i + 1;
        }
        out
    }

    /// What each rule is, followed by the disabled rules of `config` whose
    /// names are not listed yet, with their sizes where they parse.
    pub fn get_all_rule_info(&self, config: &Config) -> (r: Vec<RuleInfo>)
        ensures
            r@.len() >= self@.len() == self.spec_rules().len(),
            forall|i: int|
                0 <= i < self@.len() ==> describes_rule(#[trigger] r@[i], self.spec_rules()[i])
                    && self.spec_rules()[i]@ == self@[i],
            forall|i: int|
                self@.len() <= i < r@.len() ==> from_disabled_entry(
                    #[trigger] r@[i],
                    config_entries(*config),
                ),
            forall|i: int, j: int|
                self@.len() <= i < r@.len() && 0 <= j < i ==> (#[trigger] r@[j]).name@ != (
                #[trigger] r@[i]).name@,
            forall|k: int|
                0 <= k < config_entries(*config).len() && !(#[trigger] config_entries(
                    *config,
                )[k]).1.enabled ==> exists|i: int|
                    0 <= i < r@.len() && r@[i].name@ == config_entries(*config)[k].0@,
    {
        let mut all = self.get_rule_info();
        let ghost n = self@.len();
        let ghost es = config_entries(*config);
        match &config.rules {
            None => {},
            Some(rules_config) => {
                let entries = &rules_config.rules;
                let mut k: usize = 0;
                while k < entries.len()
                    invariant
                        k <= entries@.len(),
                        entries@ == es,
                        all@.len() >= n,
                        n == self@.len() == self.spec_rules().len(),
                        forall|i: int|
                            0 <= i < n ==> describes_rule(#[trigger] all@[i], self.spec_rules()[i])
                                && self.spec_rules()[i]@ == self@[i],
                        forall|i: int|
                            n <= i < all@.len() ==> from_disabled_entry(#[trigger] all@[i], es),
                        forall|i: int, j: int|
                            n <= i < all@.len() && 0 <= j < i ==> (#[trigger] all@[j]).name@ != (
                            #[trigger] all@[i]).name@,
                        forall|j: int|
                            0 <= j < k && !(#[trigger] es[j]).1.enabled ==> exists|i: int|
                                0 <= i < all@.len() && all@[i].name@ == es[j].0@,
                    decreases entries@.len() - k,
                {
                    let (name, def) = (&entries[k].0, &entries[k].1);
                    if !def.enabled {
                        let mut present = false;
                        let mut i: usize = 0;
                        while i < all.len()
                            invariant
                                i <= all@.len(),
                                present ==> exists|t: int| 0 <= t < all@.len() && all@[t].name@ == name@,
                                !present ==> forall|t: int| 0 <= t < i ==> all@[t].name@ != name@,
                            decreases all@.len() - i,
                        {
                            if all[i].name == *name {
                                present = true;
                            }
                            i = i + 1;
                        }
                        if !present {
                            let info = RuleInfo {
                                name: name.clone(),
                                description: def.description.clone(),
                                enabled: def.enabled,
                                priority: Some(def.priority),
                                max_size: parsed_size_of(&def.max_size),
                                warn_size: parsed_size_of(&def.warn_size),
                                max_size_str: copy_opt(&def.max_size),
                                warn_size_str: copy_opt(&def.warn_size),
                                includes: copy_strings(&def.includes),
                                excludes: copy_strings(&def.excludes),
                                warn_on_match: def.warn_on_match,
                                error_on_match: def.error_on_match,
                            };
                            assert(describes_definition(info, es[k as int].0@, es[k as int].1));
                            let ghost before = all@;
                            all.push(info);
                            proof {
                                assert forall|j: int|
                                    0 <= j < k + 1 && !(#[trigger] es[j]).1.enabled implies exists|i: int|
                                    0 <= i < all@.len() && all@[i].name@ == es[j].0@ by {
                                    if j < k {
                                        let t = choose|t: int|
                                            0 <= t < before.len() && before[t].name@ == es[j].0@;
                                        assert(all@[t] == before[t]);
                                    } else {
                                        assert(all@[before.len() as int].name@ == es[j].0@);
                                    }
                                }
                                assert forall|i: int|
                                    n <= i < all@.len() implies from_disabled_entry(
                                    #[trigger] all@[i],
                                    es,
                                ) by {
                                    if i < before.len() {
                                        assert(all@[i] == before[i]);
                                    } else {
                                        assert(describes_definition(all@[i], es[k as int].0@, es[k as int].1));
                                    }
                                }
                                assert forall|i: int, j: int|
                                    n <= i < all@.len() && 0 <= j < i implies (#[trigger] all@[j]).name@ != (
                                    #[trigger] all@[i]).name@ by {
                                    if i < before.len() {
                                        assert(all@[i] == before[i] && all@[j] == before[j]);
                                    } else {
                                        assert(all@[j] == before[j]);
                                    }
                                }
                                assert forall|i: int| 0 <= i < n implies describes_rule(
                                    #[trigger] all@[i],
                                    self.spec_rules()[i],
                                ) && self.spec_rules()[i]@ == self@[i] by {
                                    assert(all@[i] == before[i]);
                                }
                            }
                        } else {
                            proof {
                                let t = choose|t: int| 0 <= t < all@.len() && all@[t].name@ == name@;
                                assert forall|j: int|
                                    0 <= j < k + 1 && !(#[trigger] es[j]).1.enabled implies exists|i: int|
                                    0 <= i < all@.len() && all@[i].name@ == es[j].0@ by {
                                    if j == k {
                                        assert(all@[t].name@ == es[j].0@);
                                    }
                                }
                            }
                        }
                    }
                    k = k + 1;
                }
            },
        }
        all
    }

    /// The findings on one file of `size` bytes: those of the single rule
    /// that is selected for it, the applying rule of highest priority.
    pub fn check_file(&self, path: &str, size: u64) -> (r: Vec<Violation>)
        ensures
            views(r@) == engine_findings(self@, path@, size),
    {
        let ghost rules = self@;
        let mut best: Option<usize> = None;
        let mut j: usize = 0;
        while j < self.rules.len()
            invariant
                rules == self@,
                rules.len() == self.rules@.len(),
                j <= rules.len(),
                best is None ==> forall|k: int| 0 <= k < j ==> !rule_applies(#[trigger] rules[k], path@),
                best is Some ==> {
                    let b = best->0 as int;
                    &&& b < j
                    &&& rule_applies(rules[b], path@)
                    &&& forall|k: int|
                        0 <= k < j && rule_applies(#[trigger] rules[k], path@) ==> rank(
                            rules[k].priority,
                        ) <= rank(rules[b].priority) && (k < b ==> rank(rules[k].priority) < rank(
                            rules[b].priority,
                        ))
                },
            decreases rules.len() - j,
        {
            let rule = &self.rules[j];
            assert(rule@ == rules[j as int]);
            if rule.is_enabled() && !rule.should_skip_file(path) {
                match best {
                    None => {
                        best = Some(j);
                    },
                    Some(b) => {
                        assert(self.rules@[b as int]@ == rules[b as int]);
                        if outranks(rule.get_priority(), self.rules[b].get_priority()) {
                            best = Some(j);
                        }
                    },
                }
            }
            j = j + 1;
        }
        match best {
            None => {
                assert(selected_rule(rules, path@) is None) by {
                    if exists|i: int| is_selected(rules, path@, i) {
                        let i = choose|i: int| is_selected(rules, path@, i);
                        assert(rule_applies(rules[i], path@));
                    }
                }
                let out: Vec<Violation> = Vec::new();
                assert(views(out@) =~= Seq::<ViolationView>::empty());
                out
            },
            Some(b) => {
                proof {
                    assert(is_selected(rules, path@, b as int));
                    let i = choose|i: int| is_selected(rules, path@, i);
                    lemma_selected_unique(rules, path@, i, b as int);
                }
                assert(self.rules@[b as int]@ == rules[b as int]);
                self.rules[b].check(path, size)
            },
        }
    }

    /// The findings on every file, file after file.
    pub fn check_files(&self, files: &Vec<CandidateFile>) -> (r: Vec<Violation>)
        ensures
            views(r@) == findings_of_files(self@, candidate_entries(files@)),
    {
        let ghost entries = candidate_entries(files@);
        let mut out: Vec<Violation> = Vec::new();
        let mut i: usize = 0;
        while i < files.len()
            invariant
                i <= files@.len(),
                entries == candidate_entries(files@),
                views(out@) == findings_of_files(self@, entries.subrange(0, i as int)),
            decreases files@.len() - i,
        {
            let found = self.check_file(files[i].path.as_str(), files[i].size);
            proof {
                assert(entries.subrange(0, i + 1).drop_last() =~= entries.subrange(0, i as int));
            }
            append_findings(&mut out, found);
            i = i + 1;
        }
        assert(entries.subrange(0, files@.len() as int) =~= entries);
        out
    }

    /// The findings on every historical blob, by its recorded path and size,
    /// with one finding kept per path: the largest.
    pub fn check_history_blobs(&self, blobs: &Vec<HistoryBlob>) -> (r: Vec<Violation>)
        ensures
            views(r@) == dedup_findings(findings_of_files(self@, blob_entries(blobs@))),
    {
        let ghost entries = blob_entries(blobs@);
        let mut out: Vec<Violation> = Vec::new();
        let mut i: usize = 0;
        while i < blobs.len()
            invariant
                i <= blobs@.len(),
                entries == blob_entries(blobs@),
                views(out@) == findings_of_files(self@, entries.subrange(0, i as int)),
            decreases blobs@.len() - i,
        {
            let found = self.check_file(blobs[i].path.as_str(), blobs[i].size);
            proof {
                assert(entries.subrange(0, i + 1).drop_last() =~= entries.subrange(0, i as int));
            }
            append_findings(&mut out, found);
            i = i + 1;
        }
        assert(entries.subrange(0, blobs@.len() as int) =~= entries);
        dedup_violations(&out)
    }
}

fn append_findings(out: &mut Vec<Violation>, more: Vec<Violation>)
    ensures
        views(final(out)@) == views(old(out)@) + views(more@),
{
    let mut more = more;
    let ghost tail = views(more@);
    let ghost start = views(out@);
    let mut rev: Vec<Violation> = Vec::new();
    while more.len() > 0
        invariant
            views(more@) + views(rev@).reverse() == tail,
            views(out@) == start,
        decreases more@.len(),
    {
        let v = more.pop().unwrap();
        proof {
            assert(views(more@.push(v)) =~= views(more@).push(v@));
        }
        rev.push(v);
        assert(views(more@) + views(rev@).reverse() =~= tail);
    }
    assert(views(rev@).reverse() =~= tail);
    while rev.len() > 0
        invariant
            views(out@) + views(rev@).reverse() == start + tail,
        decreases rev@.len(),
    {
        let v = rev.pop().unwrap();
        out.push(v);
        assert(views(out@) + views(rev@).reverse() =~= start + tail);
    }
    assert(views(out@) =~= start + tail);
}

/// When two rules, of priorities 10 and 20, both apply to a file, only the
/// rule of priority 20 runs: the engine's findings are that rule's, and none of
/// them names the rule of priority 10.
pub proof fn lemma_higher_priority_rule_runs_alone(
    rules: Seq<RuleView>,
    path: Seq<char>,
    size: u64,
    lo: int,
    hi: int,
)
    requires
        rules.len() == 2,
        0 <= lo < 2,
        0 <= hi < 2,
        lo != hi,
        rules[lo].priority == Some(10i32),
        rules[hi].priority == Some(20i32),
        rule_applies(rules[lo], path),
        rule_applies(rules[hi], path),
        rules[lo].name != rules[hi].name,
    ensures
        engine_findings(rules, path, size) == rule_findings(rules[hi], path, size),
        forall|k: int|
            0 <= k < engine_findings(rules, path, size).len() ==> (#[trigger] engine_findings(
                rules,
                path,
                size,
            )[k]).rule_name == rules[hi].name && engine_findings(rules, path, size)[k].rule_name
                != rules[lo].name,
{
    assert(is_selected(rules, path, hi)) by {
        assert forall|j: int| 0 <= j < rules.len() && rule_applies(#[trigger] rules[j], path) implies rank(
            rules[j].priority,
        ) <= rank(rules[hi].priority) && (j < hi ==> rank(rules[j].priority) < rank(
            rules[hi].priority,
        )) by {
            assert(j == lo || j == hi);
        }
    }
    let i = choose|i: int| is_selected(rules, path, i);
    lemma_selected_unique(rules, path, i, hi);
    lemma_findings_name_their_rule(rules[hi], path, size);
}

/// Every finding of a rule names that rule.
pub proof fn lemma_findings_name_their_rule(r: RuleView, path: Seq<char>, size: u64)
    ensures
        forall|k: int|
            0 <= k < rule_findings(r, path, size).len() ==> (#[trigger] rule_findings(
                r,
                path,
                size,
            )[k]).rule_name == r.name,
{
}

/// A rule with both a maximum and a warning size gives a file above its
/// maximum exactly one finding, an error, and no warning, though the file is
/// above the warning size too. (A rule that warns on every match gives a
/// warning instead, and a rule that skips the file gives nothing.)
pub proof fn lemma_max_size_overrides_warn_size(r: RuleView, path: Seq<char>, size: u64)
    requires
        r.max_size is Some,
        r.warn_size is Some,
        size > r.max_size->0,
        !rule_skips(r, path),
        !r.warn_on_match,
    ensures
        rule_findings(r, path, size).len() == 1,
        rule_findings(r, path, size)[0].severity == Severity::Error,
        forall|k: int|
            0 <= k < rule_findings(r, path, size).len() ==> (#[trigger] rule_findings(
                r,
                path,
                size,
            )[k]).severity != Severity::Warning,
{
}

/// The first of the findings of path `p` with the largest sort key among the
/// first `n`, or -1 when none of them has path `p`.
pub open spec fn best_of(s: Seq<ViolationView>, p: Seq<char>, n: nat) -> int
    decreases n,
{
    if n == 0 {
        -1
    } else {
        let b = best_of(s, p, (n - 1) as nat);
        if s[n - 1].path == p && (b < 0 || s[n - 1].sort_key > s[b].sort_key) {
            n - 1
        } else {
            b
        }
    }
}

proof fn lemma_best_of(s: Seq<ViolationView>, p: Seq<char>, n: nat)
    requires
        n <= s.len(),
    ensures
        -1 <= best_of(s, p, n) < n,
        best_of(s, p, n) >= 0 ==> s[best_of(s, p, n)].path == p,
        best_of(s, p, n) >= 0 ==> forall|j: int|
            0 <= j < n && (#[trigger] s[j]).path == p ==> s[j].sort_key <= s[best_of(
                s,
                p,
                n,
            )].sort_key && (j < best_of(s, p, n) ==> s[j].sort_key < s[best_of(s, p, n)].sort_key),
        best_of(s, p, n) < 0 ==> forall|j: int| 0 <= j < n ==> (#[trigger] s[j]).path != p,
    decreases n,
{
    if n > 0 {
        lemma_best_of(s, p, (n - 1) as nat);
    }
}

/// Entry `k` of the kept findings among the first `n` is some kept finding.
pub open spec fn has_kept_source(s: Seq<ViolationView>, n: nat, k: int) -> bool {
    exists|i: int| #[trigger] kept_entry(s, n, k, i)
}

/// Entry `k` of the kept findings among the first `n` is finding `i`.
pub open spec fn kept_entry(s: Seq<ViolationView>, n: nat, k: int, i: int) -> bool {
    0 <= i < n && is_kept(s, i) && kept_prefix(s, n)[k] == s[i]
}

proof fn lemma_kept_prefix_from(s: Seq<ViolationView>, n: nat)
    requires
        n <= s.len(),
    ensures
        forall|k: int| 0 <= k < kept_prefix(s, n).len() ==> #[trigger] has_kept_source(s, n, k),
    decreases n,
{
    if n > 0 {
        let m = (n - 1) as nat;
        lemma_kept_prefix_from(s, m);
        let p = kept_prefix(s, m);
        let q = kept_prefix(s, n);
        assert forall|k: int| 0 <= k < q.len() implies #[trigger] has_kept_source(s, n, k) by {
            if k < p.len() {
                assert(has_kept_source(s, m, k));
                let i = choose|i: int| #[trigger] kept_entry(s, m, k, i);
                assert(q[k] == p[k]);
                assert(kept_entry(s, n, k, i));
            } else {
                assert(q[k] == s[m as int]);
                assert(kept_entry(s, n, k, m as int));
            }
        }
    }
}

proof fn lemma_kept_prefix_to(s: Seq<ViolationView>, n: nat, i: int)
    requires
        n <= s.len(),
        0 <= i < n,
        is_kept(s, i),
    ensures
        exists|k: int| 0 <= k < kept_prefix(s, n).len() && #[trigger] kept_entry(s, n, k, i),
    decreases n,
{
    let m = (n - 1) as nat;
    let p = kept_prefix(s, m);
    let q = kept_prefix(s, n);
    if i < m {
        lemma_kept_prefix_to(s, m, i);
        let k = choose|k: int| 0 <= k < p.len() && #[trigger] kept_entry(s, m, k, i);
        if is_kept(s, m as int) {
            assert(q[k] == p[k]);
        }
        assert(kept_entry(s, n, k, i));
    } else {
        assert(q[p.len() as int] == s[i]);
        assert(kept_entry(s, n, p.len() as int, i));
    }
}

proof fn lemma_kept_prefix_distinct(s: Seq<ViolationView>, n: nat, k1: int, k2: int)
    requires
        n <= s.len(),
        0 <= k1 < kept_prefix(s, n).len(),
        0 <= k2 < kept_prefix(s, n).len(),
        kept_prefix(s, n)[k1].path == kept_prefix(s, n)[k2].path,
    ensures
        k1 == k2,
    decreases n,
{
    let m = (n - 1) as nat;
    let p = kept_prefix(s, m);
    let q = kept_prefix(s, n);
    if !is_kept(s, m as int) {
        lemma_kept_prefix_distinct(s, m, k1, k2);
    } else if k1 < p.len() && k2 < p.len() {
        assert(q[k1] == p[k1] && q[k2] == p[k2]);
        lemma_kept_prefix_distinct(s, m, k1, k2);
    } else if k1 < p.len() || k2 < p.len() {
        let k = if k1 < p.len() {
            k1
        } else {
            k2
        };
        assert(q[k] == p[k]);
        lemma_kept_prefix_from(s, m);
        assert(has_kept_source(s, m, k));
        let i = choose|i: int| #[trigger] kept_entry(s, m, k, i);
        assert(q[p.len() as int] == s[m as int]);
        lemma_kept_unique(s, i, m as int);
    }
}

proof fn lemma_kept_unique(s: Seq<ViolationView>, i1: int, i2: int)
    requires
        0 <= i1 < s.len(),
        0 <= i2 < s.len(),
        is_kept(s, i1),
        is_kept(s, i2),
        s[i1].path == s[i2].path,
    ensures
        i1 == i2,
{
    reveal(is_kept);
    assert(s[i1].sort_key <= s[i2].sort_key && (i1 < i2 ==> s[i1].sort_key < s[i2].sort_key));
    assert(s[i2].sort_key <= s[i1].sort_key && (i2 < i1 ==> s[i2].sort_key < s[i1].sort_key));
}

/// Some finding has path `p`.
pub open spec fn has_path(s: Seq<ViolationView>, p: Seq<char>) -> bool {
    exists|k: int| 0 <= k < s.len() && (#[trigger] s[k]).path == p
}

/// Merging live-tree findings with historical ones keeps one finding per path
/// that has any: a finding with the largest sort key of that path, and a
/// live-tree finding wherever one has that key.
pub proof fn lemma_merge_keeps_largest(live: Seq<ViolationView>, historical: Seq<ViolationView>)
    ensures
        ({
            let s = live + historical;
            let d = dedup_findings(s);
            &&& forall|j: int| 0 <= j < s.len() ==> has_path(d, (#[trigger] s[j]).path)
            &&& forall|k1: int, k2: int|
                0 <= k1 < d.len() && 0 <= k2 < d.len() && (#[trigger] d[k1]).path == (
                #[trigger] d[k2]).path ==> k1 == k2
            &&& forall|k: int, j: int|
                0 <= k < d.len() && 0 <= j < s.len() && (#[trigger] s[j]).path == (
                #[trigger] d[k]).path ==> s[j].sort_key <= d[k].sort_key
            &&& forall|k: int, j: int|
                0 <= k < d.len() && 0 <= j < live.len() && (#[trigger] live[j]).path == (
                #[trigger] d[k]).path && live[j].sort_key == d[k].sort_key ==> exists|i: int|
                    0 <= i < live.len() && d[k] == live[i]
        }),
{
    let s = live + historical;
    let n = s.len();
    let d = dedup_findings(s);
    lemma_kept_prefix_from(s, n);
    assert forall|j: int| 0 <= j < s.len() implies has_path(d, (#[trigger] s[j]).path) by {
        let p = s[j].path;
        lemma_best_of(s, p, n);
        let b = best_of(s, p, n);
        assert(is_kept(s, b)) by {
            reveal(is_kept);
        }
        lemma_kept_prefix_to(s, n, b);
        let k = choose|k: int| 0 <= k < d.len() && #[trigger] kept_entry(s, n, k, b);
        assert(d[k].path == s[j].path);
    }
    assert forall|k1: int, k2: int|
        0 <= k1 < d.len() && 0 <= k2 < d.len() && (#[trigger] d[k1]).path == (#[trigger] d[k2]).path implies k1
        == k2 by {
        lemma_kept_prefix_distinct(s, n, k1, k2);
    }
    assert forall|k: int, j: int|
        0 <= k < d.len() && 0 <= j < s.len() && (#[trigger] s[j]).path == (#[trigger] d[k]).path implies s[j].sort_key
        <= d[k].sort_key by {
        assert(has_kept_source(s, n, k));
        let i = choose|i: int| #[trigger] kept_entry(s, n, k, i);
        reveal(is_kept);
        assert(s[j].path == s[i].path);
    }
    assert forall|k: int, j: int|
        0 <= k < d.len() && 0 <= j < live.len() && (#[trigger] live[j]).path == (
        #[trigger] d[k]).path && live[j].sort_key == d[k].sort_key implies exists|i: int|
        0 <= i < live.len() && d[k] == live[i] by {
        assert(has_kept_source(s, n, k));
        let i = choose|i: int| #[trigger] kept_entry(s, n, k, i);
        reveal(is_kept);
        assert(s[j] == live[j]);
        assert(s[j].path == s[i].path);
        assert(i <= j);
        assert(s[i] == live[i]);
    }
}

} // verus!
