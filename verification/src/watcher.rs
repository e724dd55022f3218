//! Decisions of the filesystem watcher: scope, ignore rules, event
//! coalescing and Finder tags.

pub mod events;
pub mod file_tags;
pub mod walker;
