//! Searching a directory tree for files whose lines contain a query string,
//! with a bounded number of concurrently running traversal tasks.
//!
//! The library holds the decisions of the search: how a line is matched, how
//! the options are validated, how each visited entry is treated, and when a
//! new traversal task may be admitted. Reading the file system and running
//! the tasks is left to the caller. The same decisions also drive a search
//! over a snapshot of a tree held in memory, whose results are specified
//! exactly.
pub mod matcher;
pub mod config;
pub mod walker;
pub mod tree;
