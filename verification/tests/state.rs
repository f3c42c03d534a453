use indexmap::IndexMap;
use thrml::block::Block;
use thrml::blockspec::{find_location, BlockSpec, NodeLocation};
use thrml::node::{DType, Node, NodeType, TensorSpec};
use thrml::state_tree::{
    block_state_to_global, block_types_known, from_global_state, make_empty_block_state,
    make_empty_block_state_checked, node_type_known, StateLeaf,
};
use thrml::tensor::DenseTensor;

fn block(ids: std::ops::Range<usize>, ty: NodeType) -> Block {
    Block::new(ids.map(|i| Node::new(i, ty)).collect()).unwrap()
}

fn vec1(data: Vec<f32>) -> DenseTensor<f32> {
    DenseTensor::new(vec![data.len()], data).unwrap()
}

#[test]
fn block_spec_groups_blocks_by_node_type() {
    let blocks = vec![
        block(0..2, NodeType::Spin),
        block(2..5, NodeType::Categorical),
        block(5..6, NodeType::Spin),
        block(6..6, NodeType::Spin),
    ];
    let spec = BlockSpec::new(blocks).expect("distinct nodes");
    assert_eq!(spec.block_to_global_slice_spec, vec![vec![0, 2], vec![1]]);
    assert_eq!(find_location(&spec.node_locations, Node::new(5, NodeType::Spin)), Some((0, 2)));
    assert_eq!(find_location(&spec.node_locations, Node::new(3, NodeType::Categorical)), Some((1, 1)));
    assert_eq!(find_location(&spec.node_locations, Node::new(9, NodeType::Spin)), None);
}

#[test]
fn block_spec_refuses_repeated_nodes() {
    let e = BlockSpec::new(vec![block(0..2, NodeType::Spin), block(1..3, NodeType::Spin)]).err().unwrap();
    assert_eq!(e, "A node occurs in more than one place in the blocks");
}

#[test]
fn node_locations_of_blocks() {
    let spec = BlockSpec::new(vec![block(0..2, NodeType::Spin), block(2..4, NodeType::Spin)]).unwrap();
    let (sd, pos) = spec.get_node_locations(&block(2..4, NodeType::Spin)).unwrap();
    assert_eq!(sd, 0);
    assert_eq!(pos, vec![2, 3]);
    let mixed = Block::new(vec![Node::new(3, NodeType::Spin), Node::new(0, NodeType::Spin)]).unwrap();
    assert_eq!(spec.get_node_locations(&mixed).unwrap().1, vec![3, 0]);
    assert_eq!(spec.get_node_locations(&block(7..8, NodeType::Spin)).err().unwrap(), "Node is not in the block spec");
    assert_eq!(spec.get_node_locations(&block(0..0, NodeType::Spin)).err().unwrap(), "Block is empty");
}

#[test]
fn nodes_in_two_arrays_are_refused() {
    let spec = BlockSpec {
        blocks: vec![],
        block_to_global_slice_spec: vec![],
        node_locations: vec![
            NodeLocation { node: Node::new(0, NodeType::Spin), sd_index: 0, position: 0 },
            NodeLocation { node: Node::new(1, NodeType::Spin), sd_index: 1, position: 0 },
        ],
    };
    let e = spec.get_node_locations(&block(0..2, NodeType::Spin)).err().unwrap();
    assert_eq!(e, "All nodes of a block must be in the same global state");
}

#[test]
fn global_state_round_trip() {
    let blocks = vec![block(0..2, NodeType::Spin), block(2..3, NodeType::Categorical), block(3..6, NodeType::Spin)];
    let spec = BlockSpec::new(blocks.clone()).unwrap();
    let state = vec![vec1(vec![1.0, 0.0]), vec1(vec![2.0]), vec1(vec![0.0, 1.0, 1.0])];
    let global = block_state_to_global(&state, &spec);
    assert_eq!(global.len(), 2);
    assert_eq!(global[0].data, vec![1.0, 0.0, 0.0, 1.0, 1.0]);
    assert_eq!(global[1].data, vec![2.0]);
    let back = from_global_state(&global, &spec, &blocks);
    for (b, s) in back.iter().zip(state.iter()) {
        assert_eq!(b.shape, s.shape);
        assert_eq!(b.data, s.data);
    }
}

#[test]
fn stack_of_one_leaf_is_the_leaf() {
    let a = vec1(vec![3.0, 4.0]);
    let r = <DenseTensor<f32> as StateLeaf>::stack(&[a.duplicate()]);
    assert_eq!(r.shape, a.shape);
    assert_eq!(r.data, a.data);
    let p = a.take_indices(&vec![1, 1, 0]);
    assert_eq!(p.data, vec![4.0, 4.0, 3.0]);
}

#[test]
fn empty_block_state_has_batch_times_block_length_zeros() {
    let mut specs: IndexMap<NodeType, TensorSpec> = IndexMap::new();
    specs.insert(NodeType::Spin, TensorSpec { shape: vec![], dtype: DType::Bool });
    let blocks = vec![block(0..3, NodeType::Spin), block(3..3, NodeType::Categorical)];
    let batch = vec![2, 2];
    let s = make_empty_block_state(&blocks, &specs, Some(&batch), 0.0f32);
    assert_eq!(s.len(), 2);
    assert_eq!(s[0].shape, vec![12]);
    assert_eq!(s[0].data, vec![0.0; 12]);
    assert_eq!(s[1].shape, vec![0]);
    let s = make_empty_block_state(&blocks, &specs, None, 0i32);
    assert_eq!(s[0].shape, vec![3]);
}

#[test]
fn node_types_are_checked_before_making_state() {
    let mut specs: IndexMap<NodeType, TensorSpec> = IndexMap::new();
    specs.insert(NodeType::Spin, TensorSpec { shape: vec![], dtype: DType::Bool });
    assert!(node_type_known(&specs, &NodeType::Spin));
    assert!(!node_type_known(&specs, &NodeType::Categorical));
    let spins = vec![block(0..2, NodeType::Spin), block(2..2, NodeType::Categorical)];
    let mixed = vec![block(0..2, NodeType::Spin), block(2..3, NodeType::Categorical)];
    assert!(block_types_known(&spins, &specs));
    assert!(!block_types_known(&mixed, &specs));
    let s = make_empty_block_state_checked(&spins, &specs, None, 0u8).unwrap();
    assert_eq!(s[0].shape, vec![2]);
    assert_eq!(s[0].data, vec![0, 0]);
    assert_eq!(s[1].shape, vec![0]);
    assert!(make_empty_block_state_checked(&mixed, &specs, None, 0u8).is_none());
}

#[test]
fn global_state_round_trip_with_trailing_axes() {
    let blocks = vec![block(0..2, NodeType::Spin), block(2..3, NodeType::Categorical), block(3..4, NodeType::Spin)];
    let spec = BlockSpec::new(blocks.clone()).unwrap();
    let state = vec![
        DenseTensor::new(vec![2, 3], vec![1, 2, 3, 4, 5, 6]).unwrap(),
        DenseTensor::new(vec![1, 2], vec![7, 8]).unwrap(),
        DenseTensor::new(vec![1, 3], vec![9, 10, 11]).unwrap(),
    ];
    let global = block_state_to_global(&state, &spec);
    assert_eq!(global.len(), 2);
    assert_eq!(global[0].shape, vec![3, 3]);
    assert_eq!(global[0].data, vec![1, 2, 3, 4, 5, 6, 9, 10, 11]);
    assert_eq!(global[1].shape, vec![1, 2]);
    let back = from_global_state(&global, &spec, &blocks);
    assert_eq!(back.len(), 3);
    for (b, s) in back.iter().zip(state.iter()) {
        assert_eq!(b.shape, s.shape);
        assert_eq!(b.data, s.data);
    }
}
