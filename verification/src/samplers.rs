//! Conditional samplers for block Gibbs sampling: their parameters.

use vstd::prelude::*;

verus! {

/// Bernoulli sampling of spin nodes: `P(S = 1) = sigmoid(2 * gamma)`.
pub struct BernoulliConditional;

/// Softmax sampling of categorical nodes: `P(X = k)` proportional to `exp(theta_k)`.
pub struct SoftmaxConditional {
    /// Number of categories of the distribution.
    pub n_categories: usize,
}

impl SoftmaxConditional {
    pub fn new(n_categories: usize) -> (r: Self)
        ensures
            r.n_categories == n_categories,
    {
        SoftmaxConditional { n_categories }
    }
}

/// Gibbs updates of categorical variables in discrete EBMs.
pub struct CategoricalGibbsConditional {
    /// Number of categories of the distribution.
    pub n_categories: usize,
    /// Number of spin variables in each interaction.
    pub n_spin: usize,
}

impl CategoricalGibbsConditional {
    pub fn new(n_categories: usize, n_spin: usize) -> (r: Self)
        ensures
            r.n_categories == n_categories,
            r.n_spin == n_spin,
    {
        CategoricalGibbsConditional { n_categories, n_spin }
    }
}

/// Gibbs updates of spin-valued variables in discrete EBMs.
pub struct SpinGibbsConditional;

impl SpinGibbsConditional {
    pub fn new() -> (r: Self)
        ensures
            r == SpinGibbsConditional,
    {
        SpinGibbsConditional
    }
}

impl Default for SpinGibbsConditional {
    fn default() -> (r: Self)
        ensures
            r == SpinGibbsConditional,
    {
        Self::new()
    }
}

} // verus!
