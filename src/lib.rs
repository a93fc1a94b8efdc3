//! Size hygiene checks for source trees, including files that only existed
//! transiently in version-control history.
pub mod cli;
pub mod config;
pub mod error;
pub mod filter;
pub mod git;
pub mod glob;
pub mod number;
pub mod rules;
pub mod setup;
pub mod size;
pub mod text;
