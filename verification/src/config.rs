//! The final configuration the program runs with, after command-line
//! arguments and environment values have been merged by the caller.

use vstd::prelude::*;

verus! {

/// Final configuration: the pattern list, the base reference to diff
/// against, and the optional output name and sink path.
#[derive(Debug, PartialEq)]
pub struct Config {
    /// The glob patterns, positive or `!`-negative.
    pub patterns: Vec<String>,
    /// The reference the change list is computed against.
    pub base_ref: String,
    /// The name to label the result with, if any.
    pub github_output_name: Option<String>,
    /// The file the labelled result is appended to, if any.
    pub github_output_filepath: Option<String>,
}

} // verus!
