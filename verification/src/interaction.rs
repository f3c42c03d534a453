//! Interaction groups: which nodes a conditional update reads, and the
//! static parameters of the interaction.

use vstd::prelude::*;
use crate::block::Block;
use crate::tensor::DenseTensor;

verus! {

/// Every tail block has as many nodes as the head block.
pub open spec fn tails_match_head(head: Seq<crate::node::Node>, tails: Seq<Block>) -> bool {
    forall|i: int| 0 <= i < tails.len() ==> (#[trigger] tails[i])@.len() == head.len()
}

/// Checks `tails_match_head` on concrete blocks.
pub fn check_tails_match_head(head: &Block, tails: &Vec<Block>) -> (r: bool)
    ensures
        r == tails_match_head(head@, tails@),
{
    let n = head.len();
    let mut i: usize = 0;
    while i < tails.len()
        invariant
            i <= tails@.len(),
            n == head@.len(),
            forall|q: int| 0 <= q < i ==> (#[trigger] tails@[q])@.len() == head@.len(),
        decreases tails@.len() - i,
    {
        if tails[i].len() != n {
            return false;
        }
        i = i + 1;
    }
    true
}

/// Information required to update the state of the head nodes during block
/// sampling: the tail blocks whose states are read, and the interaction
/// parameters, whose leading axis runs over the head nodes.
pub struct InteractionGroup<T> {
    /// The nodes whose conditional updates are affected by this group.
    pub head_nodes: Block,
    /// The nodes whose states are required to update `head_nodes`.
    pub tail_nodes: Vec<Block>,
    /// The parameters of the interaction.
    pub interaction: DenseTensor<T>,
}

impl<T> InteractionGroup<T> {
    /// A group; an error when a tail block's length differs from the head's,
    /// or when the interaction's leading dimension differs from it.
    pub fn new(interaction: DenseTensor<T>, head_nodes: Block, tail_nodes: Vec<Block>) -> (r: Result<
        Self,
        String,
    >)
        requires
            interaction.shape@.len() >= 1,
        ensures
            r is Ok <==> tails_match_head(head_nodes@, tail_nodes@) && interaction.shape@[0]
                == head_nodes@.len(),
            r matches Ok(g) ==> g.head_nodes@ == head_nodes@ && g.tail_nodes@ == tail_nodes@
                && g.interaction == interaction,
            r matches Err(e) ==> (!tails_match_head(head_nodes@, tail_nodes@) ==> e@
                == "All tail node blocks must have the same length as head_nodes"@) && (
            tails_match_head(head_nodes@, tail_nodes@) ==> e@
                == "All arrays in interaction must have leading dimension equal to the length of head_nodes"@),
    {
        if !check_tails_match_head(&head_nodes, &tail_nodes) {
            return Err("All tail node blocks must have the same length as head_nodes".to_string());
        }
        if interaction.shape[0] != head_nodes.len() {
            return Err(
                "All arrays in interaction must have leading dimension equal to the length of head_nodes".to_string(),
            );
        }
        Ok(InteractionGroup { head_nodes, tail_nodes, interaction })
    }
}

} // verus!
