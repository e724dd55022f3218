//! Storage of index entries: compact indices, node records, a slab
//! allocator with a free list, and a name pool.

pub mod index_types;
pub mod namepool;
pub mod node;
pub mod slab;
