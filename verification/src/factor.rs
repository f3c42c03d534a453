//! Interaction groups produced by factors: the head block, the tail blocks
//! and a discrete-EBM interaction whose weights run over the head nodes.

use vstd::prelude::*;
use crate::block::Block;
use crate::discrete_ebm::DiscreteEBMInteraction;
use crate::interaction::{check_tails_match_head, tails_match_head};

verus! {

/// An interaction group whose static information is a discrete-EBM interaction.
pub struct FactorInteractionGroup<T> {
    /// The interaction: spin count and weights, leading axis over the head nodes.
    pub interaction: DiscreteEBMInteraction<T>,
    /// The nodes updated with this group.
    pub head_nodes: Block,
    /// The nodes whose states the update reads.
    pub tail_nodes: Vec<Block>,
}

impl<T> FactorInteractionGroup<T> {
    /// A group; an error when a tail block's length differs from the head's,
    /// or when the weights' leading dimension differs from it.
    pub fn new(interaction: DiscreteEBMInteraction<T>, head_nodes: Block, tail_nodes: Vec<Block>) -> (r:
        Result<Self, String>)
        requires
            interaction.weights.shape@.len() >= 1,
        ensures
            r is Ok <==> tails_match_head(head_nodes@, tail_nodes@) && interaction.weights.shape@[0]
                == head_nodes@.len(),
            r matches Ok(g) ==> g.head_nodes@ == head_nodes@ && g.tail_nodes@ == tail_nodes@
                && g.interaction == interaction,
            r matches Err(e) ==> (!tails_match_head(head_nodes@, tail_nodes@) ==> e@
                == "All tail node blocks must have the same length as head_nodes"@) && (
            tails_match_head(head_nodes@, tail_nodes@) ==> e@
                == "All arrays in interaction must have leading dimension equal to the length of head_nodes"@),
    {
        if !check_tails_match_head(&head_nodes, &tail_nodes) {
            return Err("All tail node blocks must have the same length as head_nodes".to_string());
        }
        if interaction.weights.shape[0] != head_nodes.len() {
            return Err(
                "All arrays in interaction must have leading dimension equal to the length of head_nodes".to_string(),
            );
        }
        Ok(FactorInteractionGroup { interaction, head_nodes, tail_nodes })
    }
}

/// A factor of an energy-based model: groups of nodes and the interaction
/// groups that the factor contributes to block sampling.
pub trait AbstractFactor<T>: Sized {
    /// What `to_interaction_groups` needs of the factor.
    spec fn ready_for_groups(&self) -> bool;

    /// The node groups that the factor reports for validation.
    spec fn reported_groups(&self) -> Seq<Block>;

    /// The node groups that the factor reports for validation.
    fn node_groups(&self) -> (r: &[Block])
        ensures
            r@ == self.reported_groups(),
    ;

    /// The interaction groups of the factor.
    fn to_interaction_groups(&self) -> (r: Vec<FactorInteractionGroup<T>>)
        requires
            self.ready_for_groups(),
    ;
}

} // verus!
