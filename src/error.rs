//! The library's error type.
use vstd::prelude::*;
use crate::git::GitError;

verus! {

/// What can go wrong while configuring or running a check.
#[derive(Debug)]
pub enum SizelintError {
    /// No configuration file was found at any of the given places.
    ConfigNotFound { paths: Vec<String> },
    /// A configuration file could not be read.
    ConfigRead { path: String, message: String },
    /// A configuration file is not valid TOML for this tool.
    ConfigParse { path: String, message: String },
    /// A configuration value is not acceptable.
    ConfigInvalid { field: String, value: String, expected: String },
    /// A glob pattern of a rule or of the exclude list does not parse.
    ConfigInvalidPattern { pattern: String, source: globset::Error },
    /// A filesystem operation failed.
    FileSystem { operation: String, path: String, message: String },
    /// The current directory could not be determined.
    CurrentDirectory { message: String },
    /// A rule could not be evaluated on a file.
    RuleExecution { rule: String, path: String, message: String },
    /// A size string such as `10MB` could not be parsed.
    InvalidSizeFormat { input: String, reason: String },
    /// Collecting the files to check failed.
    FileDiscovery { path: String, message: String },
    /// A version-control operation failed.
    Git(GitError),
}

impl SizelintError {
    pub fn config_read(path: String, message: String) -> (r: Self)
        ensures
            r == (SizelintError::ConfigRead { path, message }),
    {
        SizelintError::ConfigRead { path, message }
    }

    pub fn config_invalid(field: String, value: String, expected: String) -> (r: Self)
        ensures
            r == (SizelintError::ConfigInvalid { field, value, expected }),
    {
        SizelintError::ConfigInvalid { field, value, expected }
    }

    pub fn config_invalid_pattern(pattern: String, source: globset::Error) -> (r: Self)
        ensures
            r == (SizelintError::ConfigInvalidPattern { pattern, source }),
    {
        SizelintError::ConfigInvalidPattern { pattern, source }
    }

    pub fn filesystem(operation: String, path: String, message: String) -> (r: Self)
        ensures
            r == (SizelintError::FileSystem { operation, path, message }),
    {
        SizelintError::FileSystem { operation, path, message }
    }

    pub fn rule_execution(rule: String, path: String, message: String) -> (r: Self)
        ensures
            r == (SizelintError::RuleExecution { rule, path, message }),
    {
        SizelintError::RuleExecution { rule, path, message }
    }

    pub fn invalid_size_format(input: String, reason: String) -> (r: Self)
        ensures
            r == (SizelintError::InvalidSizeFormat { input, reason }),
    {
        SizelintError::InvalidSizeFormat { input, reason }
    }

    pub fn file_discovery(path: String, message: String) -> (r: Self)
        ensures
            r == (SizelintError::FileDiscovery { path, message }),
    {
        SizelintError::FileDiscovery { path, message }
    }
}

} // verus!
