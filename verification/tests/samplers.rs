use thrml::samplers::{CategoricalGibbsConditional, SoftmaxConditional, SpinGibbsConditional};

#[test]
fn softmax_conditional_keeps_category_count() {
    let s = SoftmaxConditional::new(4);
    assert_eq!(s.n_categories, 4);
}

#[test]
fn categorical_gibbs_conditional_keeps_parameters() {
    let s = CategoricalGibbsConditional::new(3, 2);
    assert_eq!(s.n_categories, 3);
    assert_eq!(s.n_spin, 2);
}

#[test]
fn spin_gibbs_conditional_default_is_new() {
    let _a = SpinGibbsConditional::new();
    let _b: SpinGibbsConditional = Default::default();
}
