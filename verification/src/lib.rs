//! Discrete probabilistic graphical models for block Gibbs sampling.
//!
//! - [`node`], [`block`]: random variables and blocks of nodes of one type.
//! - [`shape`], [`tensor`]: row-major shapes and dense tensors with the
//!   layout operations the library needs.
//! - [`blockspec`], [`state_tree`]: where block states live in the global
//!   state, and moving state between the two.
//! - [`interaction`], [`factor`], [`discrete_ebm`]: interaction groups,
//!   discrete energy-based factors, weight gathering and spin products.
//! - [`samplers`]: the parameters of the conditional samplers.
//! - [`laws`]: properties relating several operations.

pub mod node;
pub mod block;
pub mod blockspec;
pub mod shape;
pub mod tensor;
pub mod interaction;
pub mod state_tree;
pub mod factor;
pub mod discrete_ebm;
pub mod samplers;
pub mod laws;
