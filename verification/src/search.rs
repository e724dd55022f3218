//! Searching an index: sets of node ids for each part of a query, and the
//! result list built from them.

pub mod id_sets;
pub mod name_order;
pub mod text_sets;
pub mod engine;
pub mod eval;
pub mod run;
pub mod index_loop;
pub mod external;
