//! A synchronisation engine for a note repository: it reconciles a local
//! revision history with a remote one, by fast-forward where that is
//! possible and by a three-way merge where the histories have diverged, and
//! reports the conflicts that a merge leaves for the caller to resolve.

pub mod error;
pub mod path;
pub mod path_map;
pub mod content;
pub mod tree;
pub mod revision;
pub mod history;
pub mod ancestry;
pub mod merge_base;
pub mod index;
pub mod merge;
pub mod naming;
pub mod naming_laws;
pub mod repository;
pub mod transport;
pub mod sync;
pub mod phase;
pub mod git_operations;
pub mod commands;
pub mod laws;
