//! The index tree: nodes in a slab linked by parent and child indices, the
//! name index, and the queries that walk them.

pub mod file_nodes;

pub mod node_view;
pub mod persistence;
pub mod name_index;
pub mod data;
pub mod construct;
pub mod restore;
