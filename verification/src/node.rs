//! Random variables of a graphical model and the shape of their states.

use vstd::prelude::*;

verus! {

/// The kind of value a node takes: a spin (two states) or a category.
#[derive(Clone, Copy, Debug, PartialEq, Eq, Hash, Structural)]
pub enum NodeType {
    Spin,
    Categorical,
}

/// A random variable: an identifier and the kind of value it takes.
#[derive(Clone, Copy, Debug, PartialEq, Eq, Hash, Structural)]
pub struct Node {
    pub id: usize,
    pub node_type: NodeType,
}

impl Node {
    pub fn new(id: usize, node_type: NodeType) -> (r: Node)
        ensures
            r.id == id,
            r.node_type == node_type,
    {
        Node { id, node_type }
    }
}

/// Element kind of a state tensor.
#[derive(Clone, Copy, Debug, PartialEq, Eq, Hash, Structural)]
pub enum DType {
    Bool,
    Int,
    Float,
}

/// Shape and element kind of the state of one node.
pub struct TensorSpec {
    pub shape: Vec<usize>,
    pub dtype: DType,
}

/// All nodes of the sequence have the same type.
pub open spec fn uniform_type(nodes: Seq<Node>) -> bool {
    forall|i: int, j: int|
        0 <= i < nodes.len() && 0 <= j < nodes.len() ==> #[trigger] nodes[i].node_type == #[trigger] nodes[j].node_type
}

} // verus!
