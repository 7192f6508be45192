//! An incrementally maintainable relational engine over time-varying
//! multisets with signed multiplicities, together with the graph and
//! constraint analyses built on it: label-propagation connected components,
//! bidirectional shortest paths with path-DAG reconstruction, worker-balanced
//! triangle enumeration, k-truss decomposition, bounded-surfer page ranking,
//! and board constraint propagation.

pub mod diff;
pub mod collection;
pub mod history;
pub mod reach;
pub mod connected;
pub mod paths;
pub mod neighborhoods;
pub mod shortest;
pub mod triangles;
pub mod truss;
pub mod pagerank;
pub mod sudoku;
pub mod scores;
pub mod ops;
pub mod fixpoint;

use vstd::prelude::*;

verus! {

/// A graph node identifier.
pub type Node = u64;

/// A directed or oriented graph edge.
pub type Edge = (Node, Node);

/// A signed multiplicity change.
pub type Diff = i64;

/// An iteration counter or hop bound.
pub type Iter = u64;

} // verus!
