//! Rewrites a fixed placeholder token in source files into a repository
//! permalink built from the repository's remote URL, its current branch and
//! the file's path relative to the repository root.
//!
//! The library holds the pure logic: interpreting the output of the
//! version-control queries, deciding which files are processed, building the
//! link string and performing the whole-file substitution. Directory
//! traversal, subprocess invocation and file reading and writing live
//! outside the library and hand it plain values.

pub mod link;
pub mod run;
pub mod text;
pub mod vcs;
