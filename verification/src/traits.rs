//! The capability contracts: what any graph-like structure must
//! support, read-only and mutable, unweighted and weighted.

pub mod graph;
pub mod value;
pub mod weighted;
