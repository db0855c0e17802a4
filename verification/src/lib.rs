use vstd::prelude::*;

pub mod graph;
pub mod layout;
pub mod matrix;
pub mod metrics;
pub mod traverse;
pub mod writer;

pub use graph::{Connection, ConnectionRecord, Graph, Node};
pub use layout::Layout;
pub use metrics::{Centralities, DegreeDistribution, Degrees, Ratio, Skewness, Strengths};
pub use writer::{Writeable, WriteError};

verus! {

/// The errors a graph operation can report.
#[derive(Clone, Copy, Debug, PartialEq, Eq, Structural)]
pub enum GraphError {
    /// A node with the requested label already exists; the operation was a no-op.
    DuplicateLabel,
    /// A label named in the operation does not belong to any node.
    NodeNotFound,
    /// The start label of a traversal does not belong to any node.
    StartNodeNotFound,
    /// A metric that divides by the node or edge count was asked of a graph
    /// too small for the division to be defined.
    EmptyGraphDivision,
}

} // verus!
