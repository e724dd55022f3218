//! Workspace of the command bar: application instances, focus, follow-up
//! context, and the kernel operations that change them atomically.

pub mod error;
pub mod invariants;
pub mod kernel_tools;
pub mod patch;
pub mod state;
pub mod window_cache;
