//! A rewriter for logical query plans that splits projections containing
//! user-defined functions (UDFs) into chains of simpler nodes, so that every
//! column-computing node holds at most one UDF invocation.

pub mod concat;
pub mod expr;
pub mod names;
pub mod plan;
pub mod rewrite;
pub mod split;
pub mod truncate;
pub mod video;
