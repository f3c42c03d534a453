use thrml::block::Block;
use thrml::discrete_ebm::{
    CategoricalEBMFactor, DiscreteEBMFactor, SpinEBMFactor, SquareCategoricalEBMFactor,
    SquareDiscreteEBMFactor,
};
use thrml::factor::AbstractFactor;
use thrml::node::{Node, NodeType};
use thrml::tensor::DenseTensor;

fn block(ids: std::ops::Range<usize>, ty: NodeType) -> Block {
    Block::new(ids.map(|i| Node::new(i, ty)).collect()).unwrap()
}

fn ids(b: &Block) -> Vec<usize> {
    b.nodes().iter().map(|n| n.id).collect()
}

fn w(shape: Vec<usize>) -> DenseTensor<i32> {
    let n: usize = shape.iter().product();
    DenseTensor::new(shape, (0..n as i32).collect()).unwrap()
}

#[test]
fn factor_new_reports_each_error() {
    let e = DiscreteEBMFactor::new(vec![], vec![], w(vec![2])).err().unwrap();
    assert_eq!(e, "At least one node group must be provided");

    let e = DiscreteEBMFactor::new(
        vec![block(0..2, NodeType::Spin), block(2..5, NodeType::Spin)],
        vec![],
        w(vec![2]),
    )
    .err()
    .unwrap();
    assert_eq!(e, "Every block in node_groups must contain the same number of nodes");

    let e = DiscreteEBMFactor::new(vec![block(0..2, NodeType::Spin)], vec![], w(vec![3]))
        .err()
        .unwrap();
    assert_eq!(
        e,
        "The leading dimension of weights must have the same length as the number of nodes in each node group"
    );

    let e = DiscreteEBMFactor::new(vec![block(0..2, NodeType::Spin)], vec![], w(vec![2, 3]))
        .err()
        .unwrap();
    assert_eq!(
        e,
        "The shape of the weight tensor must be [b, x_1, ..., x_k], where k is the length of categorical_node_groups"
    );
}

#[test]
fn factor_node_groups_lists_spin_then_categorical() {
    let f = DiscreteEBMFactor::new(
        vec![block(0..2, NodeType::Spin)],
        vec![block(2..4, NodeType::Categorical)],
        w(vec![2, 3]),
    )
    .unwrap();
    let g = f.node_groups();
    assert_eq!(g.len(), 2);
    assert_eq!(ids(&g[0]), vec![0, 1]);
    assert_eq!(ids(&g[1]), vec![2, 3]);
}

#[test]
fn spin_interaction_group_rotates_heads_and_tiles_weights() {
    // Three spin groups of two nodes, one categorical group of two nodes with 2 categories.
    let f = DiscreteEBMFactor::new(
        vec![block(0..2, NodeType::Spin), block(2..4, NodeType::Spin), block(4..6, NodeType::Spin)],
        vec![block(6..8, NodeType::Categorical)],
        w(vec![2, 2]),
    )
    .unwrap();
    let groups = AbstractFactor::to_interaction_groups(&f);
    assert_eq!(groups.len(), 2);
    let g = &groups[0];
    assert_eq!(ids(&g.head_nodes), vec![0, 1, 2, 3, 4, 5]);
    assert_eq!(g.tail_nodes.len(), 3);
    assert_eq!(ids(&g.tail_nodes[0]), vec![2, 3, 0, 1, 0, 1]);
    assert_eq!(ids(&g.tail_nodes[1]), vec![4, 5, 4, 5, 2, 3]);
    assert_eq!(ids(&g.tail_nodes[2]), vec![6, 7, 6, 7, 6, 7]);
    assert_eq!(g.interaction.n_spin, 2);
    assert_eq!(g.interaction.weights.shape, vec![6, 2]);
    assert_eq!(g.interaction.weights.data, vec![0, 1, 2, 3, 0, 1, 2, 3, 0, 1, 2, 3]);

    let c = &groups[1];
    assert_eq!(ids(&c.head_nodes), vec![6, 7]);
    assert_eq!(c.tail_nodes.len(), 3);
    assert_eq!(ids(&c.tail_nodes[2]), vec![4, 5]);
    assert_eq!(c.interaction.n_spin, 3);
    assert_eq!(c.interaction.weights.data, vec![0, 1, 2, 3]);
}

#[test]
fn categorical_heads_move_their_axis() {
    let f = CategoricalEBMFactor::new(
        vec![block(0..1, NodeType::Categorical), block(1..2, NodeType::Categorical)],
        w(vec![1, 2, 3]),
    )
    .unwrap();
    let groups = f.to_interaction_groups();
    assert_eq!(groups.len(), 2);
    assert_eq!(groups[0].interaction.weights.shape, vec![1, 2, 3]);
    assert_eq!(groups[0].interaction.weights.data, vec![0, 1, 2, 3, 4, 5]);
    assert_eq!(ids(&groups[0].tail_nodes[0]), vec![1]);
    assert_eq!(groups[1].interaction.weights.shape, vec![1, 3, 2]);
    assert_eq!(groups[1].interaction.weights.data, vec![0, 3, 1, 4, 2, 5]);
    assert_eq!(ids(&groups[1].tail_nodes[0]), vec![0]);
    assert_eq!(f.node_groups().len(), 2);
    assert_eq!(f.inner().spin_node_groups.len(), 0);
}

#[test]
fn every_group_is_consistent() {
    let f = DiscreteEBMFactor::new(
        vec![block(0..3, NodeType::Spin), block(3..6, NodeType::Spin)],
        vec![block(6..9, NodeType::Categorical), block(9..12, NodeType::Categorical)],
        w(vec![3, 2, 2]),
    )
    .unwrap();
    let groups = f.to_interaction_groups();
    assert_eq!(groups.len(), 3);
    for g in &groups {
        for t in &g.tail_nodes {
            assert_eq!(t.len(), g.head_nodes.len());
        }
        assert_eq!(g.interaction.weights.shape[0], g.head_nodes.len());
    }
}

#[test]
fn spin_factor_wraps_spin_groups() {
    let f = SpinEBMFactor::new(vec![block(0..2, NodeType::Spin), block(2..4, NodeType::Spin)], w(vec![2]))
        .unwrap();
    assert_eq!(f.node_groups().len(), 2);
    assert_eq!(f.inner().categorical_node_groups.len(), 0);
    let groups = f.to_interaction_groups();
    assert_eq!(groups.len(), 1);
    assert_eq!(groups[0].interaction.n_spin, 1);
    assert_eq!(ids(&groups[0].tail_nodes[0]), vec![2, 3, 0, 1]);
}

#[test]
fn square_factor_requires_square_weights() {
    let e = SquareDiscreteEBMFactor::new(
        vec![],
        vec![block(0..1, NodeType::Categorical), block(1..2, NodeType::Categorical)],
        w(vec![1, 2, 3]),
    )
    .err()
    .unwrap();
    assert_eq!(e, "Interaction tensor is not square");
    let f = SquareDiscreteEBMFactor::new(
        vec![block(2..3, NodeType::Spin)],
        vec![block(0..1, NodeType::Categorical), block(1..2, NodeType::Categorical)],
        w(vec![1, 3, 3]),
    )
    .unwrap();
    assert_eq!(f.node_groups().len(), 1);
    assert_eq!(f.inner().categorical_node_groups.len(), 2);
    assert_eq!(f.to_interaction_groups().len(), 3);
    let e = SquareCategoricalEBMFactor::new(vec![block(0..1, NodeType::Categorical)], w(vec![2, 3]))
        .err()
        .unwrap();
    assert_eq!(
        e,
        "The leading dimension of weights must have the same length as the number of nodes in each node group"
    );
    let f = SquareCategoricalEBMFactor::new(
        vec![block(0..1, NodeType::Categorical), block(1..2, NodeType::Categorical)],
        w(vec![1, 2, 2]),
    )
    .unwrap();
    assert_eq!(f.node_groups().len(), 2);
    assert_eq!(f.to_interaction_groups().len(), 2);
}

#[test]
fn energy_terms_gather_weights_and_spin_signs() {
    let f = DiscreteEBMFactor::new(
        vec![block(0..2, NodeType::Spin), block(2..4, NodeType::Spin)],
        vec![block(4..6, NodeType::Categorical)],
        w(vec![2, 3]),
    )
    .unwrap();
    let (weights, signs) = f.energy_terms(&vec![vec![true, false], vec![true, true]], &vec![vec![2, 1]]);
    assert_eq!(weights.data, vec![2, 4]);
    assert_eq!(signs, vec![1, -1]);
    let g = SpinEBMFactor::new(vec![block(0..2, NodeType::Spin)], w(vec![2])).unwrap();
    let (weights, signs) = g.inner().energy_terms(&vec![], &vec![]);
    assert_eq!(weights.data, vec![0, 1]);
    assert_eq!(signs, vec![1]);
}

#[test]
fn spin_factor_takes_unit_trailing_axes() {
    let groups = vec![block(0..3, NodeType::Spin), block(3..6, NodeType::Spin)];
    let f = SpinEBMFactor::new(groups, w(vec![3, 1, 1])).unwrap();
    assert_eq!(f.inner().weights.shape, vec![3, 1, 1]);
    assert_eq!(ids(&f.inner().spin_node_groups[1]), vec![3, 4, 5]);
    assert_eq!(f.inner().categorical_node_groups.len(), 0);
    let (weights, signs) = f.inner().energy_terms(&vec![vec![true, false, true], vec![false, false, true]], &vec![]);
    assert_eq!(weights.data, vec![0, 1, 2]);
    assert_eq!(signs, vec![-1, 1, 1]);

    let e = SpinEBMFactor::new(vec![block(0..3, NodeType::Spin)], w(vec![3, 1, 2])).err().unwrap();
    assert_eq!(
        e,
        "The shape of the weight tensor must be [b, x_1, ..., x_k], where k is the length of categorical_node_groups"
    );
    let e = DiscreteEBMFactor::new(
        vec![],
        vec![block(0..3, NodeType::Categorical)],
        w(vec![3, 2, 1]),
    )
    .err()
    .unwrap();
    assert_eq!(
        e,
        "The shape of the weight tensor must be [b, x_1, ..., x_k], where k is the length of categorical_node_groups"
    );
}

#[test]
fn spin_factor_with_unit_axes_merges_heads() {
    let f = DiscreteEBMFactor::new(
        vec![block(0..1, NodeType::Spin), block(1..2, NodeType::Spin)],
        vec![],
        DenseTensor::new(vec![1, 1, 1], vec![5]).unwrap(),
    )
    .unwrap();
    let groups = f.to_interaction_groups();
    assert_eq!(groups.len(), 1);
    assert_eq!(ids(&groups[0].head_nodes), vec![0, 1]);
    assert_eq!(groups[0].tail_nodes.len(), 1);
    assert_eq!(ids(&groups[0].tail_nodes[0]), vec![1, 0]);
    assert_eq!(groups[0].interaction.n_spin, 1);
    assert_eq!(groups[0].interaction.weights.shape, vec![2, 1, 1]);
    assert_eq!(groups[0].interaction.weights.data, vec![5, 5]);
}
