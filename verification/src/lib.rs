use vstd::prelude::*;

pub mod async_graph;
pub mod bdd_ops;
pub mod colored_sets;
pub mod decomposition;
pub mod semantics;
pub mod stats;
pub mod trim;
pub mod valuations;

verus! {

/// Identifier of a network variable: a dense, zero-based index into the
/// ordered list of state variables of an asynchronous Boolean network.
#[derive(Clone, Copy, PartialEq, Eq, Structural, Debug)]
pub struct VariableId(pub u16);

} // verus!
