//! Verified core of a line-oriented text search tool.
//!
//! Two independent components carry the logic: a path resolver that matches a
//! set of glob expressions against a directory tree (one level or recursive),
//! and a line scanner that reports every line of a stream that satisfies a
//! matcher, in literal-substring or regular-expression mode.

pub mod matcher;
pub mod resolver;
pub mod scanner;
