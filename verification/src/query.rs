//! Query language: parsing, predicates and matching.

pub mod content;
pub mod context;
pub mod date_filter;
pub mod evaluate;
pub mod expression;
pub mod highlight;
pub mod matcher;
pub mod optimizer;
pub mod parser;
pub mod path;
pub mod size;
pub mod text_match;
pub mod type_filter;
