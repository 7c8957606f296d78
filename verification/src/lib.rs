//! Expansion of grouped path patterns such as `src/(main.rs, util/(fs, time), -tests)`
//! into the concrete path or glob strings they stand for.
//!
//! A pattern is literal text with groups in it. A group is a parenthesised,
//! comma-separated list of alternatives, each of which may hold groups of
//! its own; an alternative that starts with `-` or `^` is excluded. The
//! pattern stands for every string that picks one alternative from each
//! group, less the strings that an excluded alternative gives.

pub mod balance;
pub mod error;
pub mod expand;
pub mod glob;
pub mod pairs;
pub mod pattern;
pub mod resolve;
pub mod scan;
pub mod text;

pub use error::ParseError;
pub use glob::is_glob;
pub use pairs::Expansion;
pub use pattern::{expand_group_pattern, patterns_of};
