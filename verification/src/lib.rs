//! Helpers for installing and building dependencies: removing paths,
//! finding files by glob pattern, installing files into a directory and
//! unpacking archives.
//!
//! The library holds the decisions these operations make, on plain values;
//! the filesystem work itself is done by the caller, which hands in what it
//! observed (whether a path is a directory, what a glob walk listed) and
//! carries out the steps that come back.

pub mod path;
pub mod find;
pub mod remove;
pub mod archive;
pub mod install;
