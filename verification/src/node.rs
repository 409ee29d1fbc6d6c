//! Graph nodes: their kind and their state.
use vstd::prelude::*;

verus! {

/// A node is either a named input (user-provided value) or a derived computation.
#[derive(Debug, Clone, Copy, PartialEq, Eq, Structural)]
pub enum NodeKind {
    Input,
    Compute,
}

/// Metadata and state for a single graph node.
///
/// `V` is the type of the values that flow through the graph and `F` the type
/// of the compute functions.
pub(crate) struct Node<V, F> {
    pub name: String,
    pub kind: NodeKind,
    /// Whether this node needs recomputation.
    pub dirty: bool,
    /// Last computed / set value.
    pub value: Option<V>,
    /// Compute function for `NodeKind::Compute`.
    pub compute_fn: Option<F>,
    /// The nodes this node depends on, in the order the dependencies were added.
    pub deps: Vec<usize>,
}

/// What a node holds, as mathematical values.
pub struct NodeView<V, F> {
    pub name: Seq<char>,
    pub kind: NodeKind,
    pub dirty: bool,
    pub value: Option<V>,
    pub compute_fn: Option<F>,
    pub deps: Seq<usize>,
}

impl<V, F> Node<V, F> {
    pub(crate) open spec fn view(&self) -> NodeView<V, F> {
        NodeView {
            name: self.name@,
            kind: self.kind,
            dirty: self.dirty,
            value: self.value,
            compute_fn: self.compute_fn,
            deps: self.deps@,
        }
    }
}

} // verus!
