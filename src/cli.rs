//! The command line, as values: what was asked for and with which options.
use vstd::prelude::*;
use crate::rules::{copy_strings, string_views};

verus! {

/// The parsed command line.
#[derive(Debug)]
pub struct Cli {
    pub command: Commands,
    /// Configuration file given before the subcommand.
    pub config: Option<String>,
    pub verbose: bool,
    pub log_level: LogLevel,
}

/// The subcommands.
#[derive(Debug)]
pub enum Commands {
    /// Check files for size violations.
    Check {
        paths: Vec<String>,
        config: Option<String>,
        format: OutputFormat,
        staged: bool,
        working_tree: bool,
        quiet: bool,
        fail_on_warn: bool,
    },
    /// Write the default configuration.
    Init { force: bool, stdout: bool, edit: bool },
    /// List or describe rules.
    Rules { action: RuleAction },
    /// Print shell completions.
    Completions { shell: String },
}

/// What the rules subcommand does.
#[derive(Debug)]
pub enum RuleAction {
    List,
    Describe { rule: String },
}

/// How results are reported.
#[derive(Clone, Copy, Debug, PartialEq, Eq, Structural)]
pub enum OutputFormat {
    Human,
    Json,
    Summary,
}

/// How much is logged.
#[derive(Clone, Copy, Debug, PartialEq, Eq, Structural)]
pub enum LogLevel {
    Trace,
    Debug,
    Info,
    Warn,
    Error,
}

/// The text of an optional string.
pub open spec fn opt_text(o: Option<String>) -> Option<Seq<char>> {
    match o {
        Some(s) => Some(s@),
        None => None,
    }
}

/// Two subcommands say the same.
pub open spec fn same_command(a: Commands, b: Commands) -> bool {
    match (a, b) {
        (
            Commands::Check {
                paths: p1,
                config: c1,
                format: f1,
                staged: s1,
                working_tree: w1,
                quiet: q1,
                fail_on_warn: x1,
            },
            Commands::Check {
                paths: p2,
                config: c2,
                format: f2,
                staged: s2,
                working_tree: w2,
                quiet: q2,
                fail_on_warn: x2,
            },
        ) => string_views(p1@) == string_views(p2@) && opt_text(c1) == opt_text(c2) && f1 == f2
            && s1 == s2 && w1 == w2 && q1 == q2 && x1 == x2,
        (
            Commands::Init { force: f1, stdout: s1, edit: e1 },
            Commands::Init { force: f2, stdout: s2, edit: e2 },
        ) => f1 == f2 && s1 == s2 && e1 == e2,
        (Commands::Rules { action: RuleAction::List }, Commands::Rules { action: RuleAction::List }) => true,
        (
            Commands::Rules { action: RuleAction::Describe { rule: r1 } },
            Commands::Rules { action: RuleAction::Describe { rule: r2 } },
        ) => r1@ == r2@,
        (Commands::Completions { shell: s1 }, Commands::Completions { shell: s2 }) => s1@ == s2@,
        _ => false,
    }
}

fn copy_opt_text(o: &Option<String>) -> (r: Option<String>)
    ensures
        opt_text(r) == opt_text(*o),
{
    match o {
        Some(s) => Some(s.clone()),
        None => None,
    }
}

impl LogLevel {
    /// The level's name, as a log filter writes it.
    pub fn as_str(&self) -> (r: &str)
        ensures
            r@ == (match *self {
                LogLevel::Trace => "trace"@,
                LogLevel::Debug => "debug"@,
                LogLevel::Info => "info"@,
                LogLevel::Warn => "warn"@,
                LogLevel::Error => "error"@,
            }),
    {
        match self {
            LogLevel::Trace => "trace",
            LogLevel::Debug => "debug",
            LogLevel::Info => "info",
            LogLevel::Warn => "warn",
            LogLevel::Error => "error",
        }
    }
}

impl Cli {
    /// A copy of the subcommand.
    pub fn get_command(&self) -> (r: Commands)
        ensures
            same_command(r, self.command),
    {
        match &self.command {
            Commands::Check { paths, config, format, staged, working_tree, quiet, fail_on_warn } => {
                Commands::Check {
                    paths: copy_strings(paths),
                    config: copy_opt_text(config),
                    format: *format,
                    staged: *staged,
                    working_tree: *working_tree,
                    quiet: *quiet,
                    fail_on_warn: *fail_on_warn,
                }
            },
            Commands::Init { force, stdout, edit } => Commands::Init {
                force: *force,
                stdout: *stdout,
                edit: *edit,
            },
            Commands::Rules { action } => match action {
                RuleAction::List => Commands::Rules { action: RuleAction::List },
                RuleAction::Describe { rule } => Commands::Rules {
                    action: RuleAction::Describe { rule: rule.clone() },
                },
            },
            Commands::Completions { shell } => Commands::Completions { shell: shell.clone() },
        }
    }

    /// The paths to check: those given, or `.` when a check names none; no
    /// path for another subcommand.
    pub fn get_paths(&self) -> (r: Vec<String>)
        ensures
            (match self.command {
                Commands::Check { paths, .. } => if paths@.len() > 0 {
                    string_views(r@) == string_views(paths@)
                } else {
                    string_views(r@) == seq![seq!['.']]
                },
                _ => r@.len() == 0,
            }),
    {
        match &self.command {
            Commands::Check { paths, .. } => {
                if paths.len() > 0 {
                    copy_strings(paths)
                } else {
                    let mut v: Vec<String> = Vec::new();
                    let dot = String::from_str(".");
                    proof {
                        reveal_strlit(".");
                        assert(dot@ =~= seq!['.']);
                    }
                    v.push(dot);
                    assert(string_views(v@) =~= seq![seq!['.']]);
                    v
                }
            },
            _ => Vec::new(),
        }
    }

    /// The output format of a check; human-readable otherwise.
    pub fn get_format(&self) -> (r: OutputFormat)
        ensures
            r == (match self.command {
                Commands::Check { format, .. } => format,
                _ => OutputFormat::Human,
            }),
    {
        match &self.command {
            Commands::Check { format, .. } => *format,
            _ => OutputFormat::Human,
        }
    }

    pub fn get_quiet(&self) -> (r: bool)
        ensures
            r == (match self.command {
                Commands::Check { quiet, .. } => quiet,
                _ => false,
            }),
    {
        match &self.command {
            Commands::Check { quiet, .. } => *quiet,
            _ => false,
        }
    }

    pub fn get_staged(&self) -> (r: bool)
        ensures
            r == (match self.command {
                Commands::Check { staged, .. } => staged,
                _ => false,
            }),
    {
        match &self.command {
            Commands::Check { staged, .. } => *staged,
            _ => false,
        }
    }

    pub fn get_working_tree(&self) -> (r: bool)
        ensures
            r == (match self.command {
                Commands::Check { working_tree, .. } => working_tree,
                _ => false,
            }),
    {
        match &self.command {
            Commands::Check { working_tree, .. } => *working_tree,
            _ => false,
        }
    }

    pub fn get_fail_on_warn(&self) -> (r: bool)
        ensures
            r == (match self.command {
                Commands::Check { fail_on_warn, .. } => fail_on_warn,
                _ => false,
            }),
    {
        match &self.command {
            Commands::Check { fail_on_warn, .. } => *fail_on_warn,
            _ => false,
        }
    }

    /// The configuration file that a check names, if any.
    pub fn get_check_config(&self) -> (r: Option<String>)
        ensures
            opt_text(r) == (match self.command {
                Commands::Check { config, .. } => opt_text(config),
                _ => None,
            }),
    {
        match &self.command {
            Commands::Check { config, .. } => copy_opt_text(config),
            _ => None,
        }
    }
}

} // verus!
