//! Resolution of user-supplied paths into an ordered list of files, honouring
//! recursion, a symlink policy and glob-based inclusion, exclusion and exclude-dir
//! filters. The filesystem itself is reached by the caller: the library decides
//! what to keep, what to descend into and in which order the result comes out.

pub mod error;
pub mod files;
pub mod glob_pattern;
pub mod matcher;
pub mod path;
