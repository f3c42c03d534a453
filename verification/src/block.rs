//! Blocks: sequences of nodes of one type that are sampled together.

use vstd::prelude::*;
use crate::node::{uniform_type, Node, NodeType};

verus! {

/// A sequence of nodes that all have the same type.
pub struct Block {
    nodes: Vec<Node>,
}

impl Block {
    #[verifier::type_invariant]
    spec fn inv(self) -> bool {
        uniform_type(self.nodes@)
    }

    /// The nodes of the block, in order.
    pub closed spec fn node_seq(self) -> Seq<Node> {
        self.nodes@
    }

    /// A block from the given nodes; an error when they do not all have the same type.
    pub fn new(nodes: Vec<Node>) -> (r: Result<Block, String>)
        ensures
            r is Ok <==> uniform_type(nodes@),
            r matches Ok(b) ==> b@ == nodes@,
            r matches Err(e) ==> e@ == "All nodes in a block must have the same type"@,
    {
        let mut i: usize = 0;
        while i < nodes.len()
            invariant
                i <= nodes@.len(),
                forall|q: int| 0 <= q < i ==> #[trigger] nodes@[q].node_type == nodes@[0].node_type,
            decreases nodes@.len() - i,
        {
            if nodes[i].node_type != nodes[0].node_type {
                assert(!uniform_type(nodes@)) by {
                    assert(nodes@[i as int].node_type != nodes@[0].node_type);
                }
                return Err("All nodes in a block must have the same type".to_string());
            }
            i = i + 1;
        }
        assert(uniform_type(nodes@)) by {
            assert forall|p: int, q: int| 0 <= p < nodes@.len() && 0 <= q < nodes@.len() implies #[trigger] nodes@[p].node_type
                == #[trigger] nodes@[q].node_type by {
                assert(nodes@[p].node_type == nodes@[0].node_type);
                assert(nodes@[q].node_type == nodes@[0].node_type);
            }
        }
        Ok(Block { nodes })
    }

    /// Number of nodes.
    pub fn len(&self) -> (r: usize)
        ensures
            r == self@.len(),
    {
        self.nodes.len()
    }

    /// The nodes, in order; they all have the same type.
    pub fn nodes(&self) -> (r: &Vec<Node>)
        ensures
            r@ == self@,
            uniform_type(self@),
    {
        proof {
            use_type_invariant(self);
        }
        &self.nodes
    }

    /// The type shared by the nodes; `None` for an empty block.
    pub fn node_type(&self) -> (r: Option<NodeType>)
        ensures
            self@.len() == 0 ==> r is None,
            self@.len() > 0 ==> r == Some(self@[0].node_type),
    {
        if self.nodes.len() == 0 {
            None
        } else {
            Some(self.nodes[0].node_type)
        }
    }
}

impl View for Block {
    type V = Seq<Node>;

    open spec fn view(&self) -> Seq<Node> {
        self.node_seq()
    }
}

impl Clone for Block {
    fn clone(&self) -> (r: Self)
        ensures
            r@ == self@,
    {
        proof {
            use_type_invariant(self);
        }
        let mut nodes: Vec<Node> = Vec::new();
        let mut i: usize = 0;
        while i < self.nodes.len()
            invariant
                i <= self.nodes@.len(),
                nodes@ == self.nodes@.take(i as int),
            decreases self.nodes@.len() - i,
        {
            nodes.push(self.nodes[i]);
            i = i + 1;
            assert(nodes@ =~= self.nodes@.take(i as int));
        }
        assert(nodes@ =~= self.nodes@);
        Block { nodes }
    }
}

} // verus!
