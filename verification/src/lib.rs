//! Glob-pattern matching over "/"-separated relative paths.
//!
//! The crate answers CI-style "did anything I care about change?" questions:
//! a list of glob patterns (positive, or negative when they begin with `!`)
//! is evaluated against a list of changed paths, and the results are combined
//! with set semantics into a single boolean.
//!
//! The byte-level meaning of a pattern is pinned down by the specification
//! functions in [`semantics`]; the executable matcher is proved to return
//! exactly that meaning for every pattern and every candidate path.

pub mod semantics;
pub mod charset;
pub mod matcher;
pub mod compose;
pub mod laws;
pub mod cli;
pub mod changes;
pub mod config;
pub mod output;
