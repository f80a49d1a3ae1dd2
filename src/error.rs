use vstd::prelude::*;

verus! {

/// The fatal errors of path resolution. Each carries the text it is about.
#[derive(Debug, Clone, PartialEq, Eq)]
pub enum MatchError {
    /// A pattern text is not a valid glob.
    InvalidPattern(String),
    /// A root path does not exist.
    PathNotFound(String),
    /// A root path is a directory but recursion was not requested.
    RecursionRequired(String),
}

} // verus!
