use thrml::block::Block;
use thrml::interaction::InteractionGroup;
use thrml::node::{Node, NodeType};
use thrml::tensor::DenseTensor;

fn spins(ids: std::ops::Range<usize>) -> Vec<Node> {
    ids.map(|i| Node::new(i, NodeType::Spin)).collect()
}

#[test]
fn block_requires_one_node_type() {
    let ok = Block::new(spins(0..3)).expect("same type");
    assert_eq!(ok.len(), 3);
    assert_eq!(ok.node_type(), Some(NodeType::Spin));
    assert_eq!(ok.nodes()[1].id, 1);
    let mixed = vec![Node::new(0, NodeType::Spin), Node::new(1, NodeType::Categorical)];
    let err = Block::new(mixed).err().expect("mixed types are refused");
    assert_eq!(err, "All nodes in a block must have the same type");
}

#[test]
fn empty_block_has_no_type() {
    let b = Block::new(vec![]).expect("empty block");
    assert_eq!(b.len(), 0);
    assert_eq!(b.node_type(), None);
}

#[test]
fn block_clone_keeps_nodes() {
    let b = Block::new(spins(4..6)).unwrap();
    let c = b.clone();
    assert_eq!(c.nodes(), b.nodes());
}

#[test]
fn interaction_group_checks_lengths() {
    let head = Block::new(spins(0..2)).unwrap();
    let tail = Block::new(spins(2..4)).unwrap();
    let w = DenseTensor::new(vec![2, 1], vec![0.5f32, 1.5]).unwrap();
    let g = InteractionGroup::new(w, head.clone(), vec![tail.clone()]).expect("consistent");
    assert_eq!(g.head_nodes.len(), 2);
    assert_eq!(g.tail_nodes.len(), 1);

    let short = Block::new(spins(4..5)).unwrap();
    let w = DenseTensor::new(vec![2, 1], vec![0.5f32, 1.5]).unwrap();
    let e = InteractionGroup::new(w, head.clone(), vec![short]).err().unwrap();
    assert_eq!(e, "All tail node blocks must have the same length as head_nodes");

    let w = DenseTensor::new(vec![3, 1], vec![0.5f32, 1.5, 2.5]).unwrap();
    let e = InteractionGroup::new(w, head, vec![tail]).err().unwrap();
    assert_eq!(e, "All arrays in interaction must have leading dimension equal to the length of head_nodes");
}
