use thrml::tensor::DenseTensor;

fn t(shape: Vec<usize>, data: Vec<i32>) -> DenseTensor<i32> {
    DenseTensor::new(shape, data).expect("shape and data agree")
}

#[test]
fn new_accepts_matching_sizes_only() {
    assert!(DenseTensor::new(vec![2, 3], vec![0i32; 6]).is_some());
    assert!(DenseTensor::new(vec![2, 3], vec![0i32; 5]).is_none());
    assert!(DenseTensor::new(vec![], vec![7i32]).is_some());
    assert!(DenseTensor::new(vec![usize::MAX, 0, usize::MAX], Vec::<i32>::new()).is_some());
    assert!(DenseTensor::new(vec![usize::MAX, 2], vec![1i32]).is_none());
}

#[test]
fn reshape_and_duplicate_keep_elements() {
    let a = t(vec![2, 3], vec![1, 2, 3, 4, 5, 6]);
    let b = a.duplicate();
    assert_eq!(b.shape, vec![2, 3]);
    assert_eq!(b.data, a.data);
    let c = b.reshape(vec![3, 2]);
    assert_eq!(c.shape, vec![3, 2]);
    assert_eq!(c.data, vec![1, 2, 3, 4, 5, 6]);
}

#[test]
fn select_rows_picks_slices_in_order() {
    let a = t(vec![3, 2], vec![10, 11, 20, 21, 30, 31]);
    let r = a.select_rows(&vec![2, 0, 2]);
    assert_eq!(r.shape, vec![3, 2]);
    assert_eq!(r.data, vec![30, 31, 10, 11, 30, 31]);
    let e = a.select_rows(&vec![]);
    assert_eq!(e.shape, vec![0, 2]);
    assert!(e.data.is_empty());
}

#[test]
fn concat_leading_joins_along_first_axis() {
    let a = t(vec![1, 2], vec![1, 2]);
    let b = t(vec![2, 2], vec![3, 4, 5, 6]);
    let r = DenseTensor::concat_leading(&[a, b]);
    assert_eq!(r.shape, vec![3, 2]);
    assert_eq!(r.data, vec![1, 2, 3, 4, 5, 6]);
}

#[test]
fn tile_leading_repeats_the_tensor() {
    let a = t(vec![2, 1], vec![7, 8]);
    let r = a.tile_leading(3);
    assert_eq!(r.shape, vec![6, 1]);
    assert_eq!(r.data, vec![7, 8, 7, 8, 7, 8]);
}

#[test]
fn move_axis_two_of_three_swaps_trailing_axes() {
    // [b=1, x0=2, x1=3]: element [0, i, j] = 10 * i + j.
    let a = t(vec![1, 2, 3], vec![0, 1, 2, 10, 11, 12]);
    let r = a.move_axis_to_second(2);
    assert_eq!(r.shape, vec![1, 3, 2]);
    assert_eq!(r.data, vec![0, 10, 1, 11, 2, 12]);
}

#[test]
fn move_axis_one_keeps_the_tensor() {
    let a = t(vec![2, 2, 2], vec![1, 2, 3, 4, 5, 6, 7, 8]);
    let r = a.move_axis_to_second(1);
    assert_eq!(r.shape, a.shape);
    assert_eq!(r.data, a.data);
}

#[test]
fn move_axis_moves_middle_axis_of_four() {
    // shape [1, 2, 3, 2]; element [0, a, x, c] = 100 * a + 10 * x + c.
    let mut data = Vec::new();
    for a in 0..2 {
        for x in 0..3 {
            for c in 0..2 {
                data.push(100 * a + 10 * x + c);
            }
        }
    }
    let src = t(vec![1, 2, 3, 2], data);
    let r = src.move_axis_to_second(2);
    assert_eq!(r.shape, vec![1, 3, 2, 2]);
    let mut want = Vec::new();
    for x in 0..3 {
        for a in 0..2 {
            for c in 0..2 {
                want.push(100 * a + 10 * x + c);
            }
        }
    }
    assert_eq!(r.data, want);
}

#[test]
fn move_axis_of_empty_tensor_has_no_elements() {
    let a = t(vec![2, 0, 3], vec![]);
    let r = a.move_axis_to_second(2);
    assert_eq!(r.shape, vec![2, 3, 0]);
    assert!(r.data.is_empty());
}
