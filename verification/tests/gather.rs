use thrml::discrete_ebm::{batch_gather, batch_gather_with_k, spin_product, split_states};
use thrml::tensor::DenseTensor;

fn t(shape: Vec<usize>, data: Vec<f32>) -> DenseTensor<f32> {
    DenseTensor::new(shape, data).expect("shape and data agree")
}

#[test]
fn batch_gather_reads_one_weight_per_batch_entry() {
    // weights[b, i, j] = 100 b + 10 i + j, shape [2, 2, 3]
    let mut data = Vec::new();
    for b in 0..2 {
        for i in 0..2 {
            for j in 0..3 {
                data.push((100 * b + 10 * i + j) as f32);
            }
        }
    }
    let w = t(vec![2, 2, 3], data);
    let r = batch_gather(&w, &vec![vec![1, 0], vec![2, 1]]);
    assert_eq!(r.shape, vec![2]);
    assert_eq!(r.data, vec![12.0, 101.0]);
}

#[test]
fn batch_gather_without_indices_flattens() {
    let w = t(vec![2, 2], vec![1.0, 2.0, 3.0, 4.0]);
    let r = batch_gather(&w, &vec![]);
    assert_eq!(r.shape, vec![4]);
    assert_eq!(r.data, vec![1.0, 2.0, 3.0, 4.0]);
}

#[test]
fn batch_gather_single_trailing_axis() {
    let w = t(vec![3, 2], vec![0.5, 1.5, 2.5, 3.5, 4.5, 5.5]);
    let r = batch_gather(&w, &vec![vec![1, 0, 1]]);
    assert_eq!(r.data, vec![1.5, 2.5, 5.5]);
}

#[test]
fn batch_gather_with_k_keeps_the_k_axis() {
    // weights[b, c, i] = 100 b + 10 c + i, shape [2, 3, 2]
    let mut data = Vec::new();
    for b in 0..2 {
        for c in 0..3 {
            for i in 0..2 {
                data.push((100 * b + 10 * c + i) as f32);
            }
        }
    }
    let w = t(vec![2, 3, 2], data);
    let r = batch_gather_with_k(&w, &vec![vec![1, 0]]);
    assert_eq!(r.shape, vec![2, 3]);
    assert_eq!(r.data, vec![1.0, 11.0, 21.0, 100.0, 110.0, 120.0]);
}

#[test]
fn batch_gather_with_k_without_indices_is_the_weights() {
    let w = t(vec![2, 2], vec![1.0, 2.0, 3.0, 4.0]);
    let r = batch_gather_with_k(&w, &vec![]);
    assert_eq!(r.shape, vec![2, 2]);
    assert_eq!(r.data, vec![1.0, 2.0, 3.0, 4.0]);
}

#[test]
fn batch_gather_with_k_without_indices_drops_unit_axes() {
    let w = t(vec![2, 3, 1], vec![1.0, 2.0, 3.0, 4.0, 5.0, 6.0]);
    let r = batch_gather_with_k(&w, &vec![]);
    assert_eq!(r.shape, vec![2, 3]);
    assert_eq!(r.data, vec![1.0, 2.0, 3.0, 4.0, 5.0, 6.0]);
    let w = t(vec![1, 2, 1, 1], vec![7.0, 8.0]);
    let r = batch_gather_with_k(&w, &vec![]);
    assert_eq!(r.shape, vec![1, 2]);
    assert_eq!(r.data, vec![7.0, 8.0]);
}

#[test]
fn spin_product_multiplies_signs() {
    let r = spin_product(&vec![vec![true, true, false, false], vec![true, false, true, false]]);
    assert_eq!(r, vec![1, -1, -1, 1]);
}

#[test]
fn spin_product_of_nothing_is_one() {
    assert_eq!(spin_product(&vec![]), vec![1]);
}

#[test]
fn spin_product_is_always_a_unit() {
    let vals = vec![vec![false, true, false], vec![false, false, true], vec![true, false, false]];
    for v in spin_product(&vals) {
        assert!(v == 1 || v == -1);
    }
}

#[test]
fn split_states_separates_spin_and_categorical() {
    let states = vec![
        t(vec![1], vec![1.0]),
        t(vec![1], vec![0.0]),
        t(vec![1], vec![2.0]),
    ];
    let (spin, cat) = split_states(&states, 2);
    assert_eq!(spin.len(), 2);
    assert_eq!(cat.len(), 1);
    assert_eq!(spin[1].data, vec![0.0]);
    assert_eq!(cat[0].data, vec![2.0]);
}
