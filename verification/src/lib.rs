//! A small graph-data-structure library: capability traits for
//! directed/undirected, weighted/unweighted graphs, together with one
//! concrete adjacency-list implementation, `SimpleGraph`.
//!
//! Callers build a graph through the mutable capability and query it
//! through the read-only capability; the weighted capability adds a
//! weight channel keyed by ordered vertex pairs.

pub mod error;
pub mod graphs;
pub mod traits;

pub use error::GraphError;
pub use graphs::simple::SimpleGraph;
pub use traits::graph::Graph;
pub use traits::graph::GraphMut;
