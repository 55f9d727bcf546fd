//! Core logic of a terminal browser for git commits and their diffs:
//! scrollable list state, a directory tree of changed files, a parser that
//! turns unified diffs into side-by-side rows, and the key-driven state of
//! the three panels.

pub mod scroll;
pub mod text;
pub mod diff;
pub mod git;
pub mod tree;
pub mod app;
pub mod error;
pub mod ui;
