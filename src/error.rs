//! Error values of the graph and serialization layers.
use vstd::prelude::*;
use crate::graph::{VertexID, EdgeID};
use crate::text::{decimal, push_usize};

verus! {

/// A vertex or edge that an operation needed is missing.
#[derive(Debug, PartialEq, Eq)]
pub enum GraphError {
    VertexNotInGraph(VertexID),
    EdgeNotInGraph(EdgeID),
}

impl GraphError {
    /// The message that describes the error.
    pub fn message(&self) -> (r: String)
        ensures
            r@ == match *self {
                GraphError::VertexNotInGraph(v) => "Vertex "@ + decimal(v as nat) + " is not in Graph"@,
                GraphError::EdgeNotInGraph(e) => "Edge ("@ + decimal(e.0 as nat) + ", "@ + decimal(e.1 as nat) + ") is not in Graph"@,
            },
    {
        let mut s = String::new();
        match self {
            GraphError::VertexNotInGraph(v) => {
                s.append("Vertex ");
                push_usize(&mut s, *v);
                s.append(" is not in Graph");
            },
            GraphError::EdgeNotInGraph(e) => {
                s.append("Edge (");
                push_usize(&mut s, e.0);
                s.append(", ");
                push_usize(&mut s, e.1);
                s.append(") is not in Graph");
            },
        }
        s
    }
}

/// A failure to encode or decode a value, with its message.
#[derive(Debug)]
pub enum SerializationError {
    Message(String),
}

impl SerializationError {
    /// The message that describes the error.
    pub fn message(&self) -> (r: String)
        ensures
            r@ == match self {
                SerializationError::Message(m) => m@,
            },
    {
        match self {
            SerializationError::Message(m) => m.clone(),
        }
    }
}

} // verus!
