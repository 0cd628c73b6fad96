//! Merging of overlapping module directory trees into one logical tree, and
//! the plan of staging directories and bind mounts that makes that tree
//! visible at its real path.
//!
//! Everything here works on plain values: names and paths are byte strings,
//! directory trees are snapshots, and the result of a deployment is a list of
//! filesystem operations for the caller to carry out, with the conflicts
//! that the merge found between the sources.

pub mod name;
pub mod name_map;
pub mod fs;
pub mod custom;
pub mod node;
pub mod source;
pub mod merge;
pub mod tree;
pub mod ops;
pub mod mirror;
pub mod mount;
pub mod words;
pub mod module_list;
pub mod deploy;
pub mod ffi;
pub mod laws;
pub mod same;
pub mod run;
