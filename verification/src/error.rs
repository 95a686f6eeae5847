//! The closed set of failure kinds shared by every graph operation.

use vstd::prelude::*;
use vstd::string::StringExecFns;

verus! {

/// An error arising from a graph operation.
///
/// Every fallible operation in the library reports one of these kinds;
/// no operation panics on caller-supplied data.
#[derive(Debug, Clone, PartialEq, Eq)]
pub enum GraphError {
    /// A referenced vertex is absent from the graph.
    VertexNotFound,
    /// A vertex with the same identity is already in the graph.
    VertexAlreadyExists,
    /// The edge to be added is already in the graph.
    EdgeAlreadyExists,
    /// A referenced edge is absent from the graph.
    EdgeNotFound,
    /// A malformed request from outside, with a human-readable reason.
    InvalidOperation(String),
}

impl GraphError {
    /// The fixed, human-readable sentence for this error kind; the
    /// catch-all kind appends its embedded reason.
    pub fn message(&self) -> (r: String)
        ensures
            r@ == self.message_text(),
    {
        match self {
            GraphError::VertexNotFound => "Vertex not found.".to_string(),
            GraphError::VertexAlreadyExists => "Vertex already exists.".to_string(),
            GraphError::EdgeAlreadyExists => "Edge already exists.".to_string(),
            GraphError::EdgeNotFound => "Edge not found.".to_string(),
            GraphError::InvalidOperation(msg) => {
                let mut s = "Invalid operation: ".to_string();
                s.append(msg.as_str());
                s
            },
        }
    }

    /// What `message` returns, as a sequence of characters.
    pub open spec fn message_text(&self) -> Seq<char> {
        match self {
            GraphError::VertexNotFound => "Vertex not found."@,
            GraphError::VertexAlreadyExists => "Vertex already exists."@,
            GraphError::EdgeAlreadyExists => "Edge already exists."@,
            GraphError::EdgeNotFound => "Edge not found."@,
            GraphError::InvalidOperation(msg) => "Invalid operation: "@ + msg@,
        }
    }
}

} // verus!
