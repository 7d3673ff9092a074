//! A labeled directed graph library for large, mostly static graphs.
//!
//! Labels are interned into dense 32-bit symbols; adjacency is stored per
//! symbol in both directions; queries are verified against a mathematical
//! model of the edge relation.
//!
//! - `builder`: collects edges and finalizes them into a `DirectedGraph`.
//! - `graph`, with the queries in the private modules `query`, `paths` and
//!   `subset`: the immutable graph and its well-formedness.
//! - `acyclic` and `dag`: Kahn's topological sort and the graph without cycles.
//! - `interner`, `node_vec`, `sym`: labels, symbols and query results.
//! - `snapshot`: what a stored graph keeps, and its version prefix.
//! - `laws`: properties of every graph, proved over the same model.
mod label_map;
mod node_map;
mod paths;
mod query;
mod sorted;
mod subset;
mod sym_set;

pub mod acyclic;
pub mod builder;
pub mod dag;
pub mod error;
pub mod graph;
pub mod interner;
pub mod laws;
pub mod node_vec;
pub mod snapshot;
pub mod sym;

pub use acyclic::topological_sort;
pub use builder::DirectedGraphBuilder;
pub use dag::DirectedAcyclicGraph;
pub use error::{GraphHasCycle, GraphInteractionError};
pub use graph::DirectedGraph;
pub use interner::{InternerBuilder, Resolver};
pub use node_vec::{NodeVec, NodeVecIter};
pub use sym::Sym;
