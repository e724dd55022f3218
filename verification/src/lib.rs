//! Filesystem indexing, search and query library.
//!
//! The query language (tokenizer, parser, optimizer, matchers), the compact
//! node storage (slab, node encoding, name pool), the index tree helpers and
//! the workspace state machine are verified here. Reading the disk, watching
//! the filesystem and talking to other processes happens around this crate.

pub mod cancel;
pub mod error;
pub mod index;
pub mod query;
pub mod search;
pub mod storage;
pub mod strings;
pub mod types;
pub mod watcher;
pub mod workspace;
