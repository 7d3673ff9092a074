//! The errors of graph operations.
use vstd::prelude::*;
use vstd::string::StringExecFns;

verus! {

/// The graph holds at least one cycle, so it has no topological order.
#[derive(Debug, PartialEq, Eq, Structural)]
pub struct GraphHasCycle;

/// What a query on a graph can fail with.
#[derive(Debug)]
pub enum GraphInteractionError {
    /// The label names no node of the graph.
    NodeNotExist(String),
    /// A symbol that the interner never issued.
    InternalResolve(u32),
    /// A subset was asked for with a depth limit of zero.
    ZeroSubsetLimit,
}

impl GraphHasCycle {
    /// The human readable description of the error.
    pub fn message(&self) -> (r: String)
        ensures
            r@ == "Unable to topologically sort, graph has at least one cycle"@,
    {
        "Unable to topologically sort, graph has at least one cycle".to_owned()
    }
}

impl GraphInteractionError {
    pub fn node_not_exists(id: &str) -> (r: GraphInteractionError)
        ensures
            r matches GraphInteractionError::NodeNotExist(s) && s@ == id@,
    {
        GraphInteractionError::NodeNotExist(id.to_owned())
    }

    /// The human readable description of the error, on one line.
    pub fn message(&self) -> (r: String)
        ensures
            self matches GraphInteractionError::NodeNotExist(s) ==> r@ == "Node `"@ + s@
                + "` does not exist"@,
            self is ZeroSubsetLimit ==> r@ == "Cannot set a `0` limit for a subset operation"@,
    {
        match self {
            GraphInteractionError::NodeNotExist(node_id) => {
                "Node `".to_owned().concat(node_id.as_str()).concat("` does not exist")
            },
            GraphInteractionError::InternalResolve(symbol) => {
                "Internal symbol `".to_owned().concat(symbol.to_string().as_str()).concat(
                    "` does not exist",
                )
            },
            GraphInteractionError::ZeroSubsetLimit => {
                "Cannot set a `0` limit for a subset operation".to_owned()
            },
        }
    }

    /// Whether this is the error for an unknown label `id`.
    pub open spec fn is_node_not_exist(&self, id: Seq<char>) -> bool {
        match self {
            GraphInteractionError::NodeNotExist(s) => s@ == id,
            _ => false,
        }
    }
}

} // verus!
