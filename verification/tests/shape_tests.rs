use precise_numpy::broadcasting::{broadcast_shapes, broadcast_shapes_many, broadcast_to_indices, broadcasts_into};
use precise_numpy::layout::{
    check_axis, diag_positions, eye_positions, resolve_reshape, row_major, transpose_indices,
    AxisError, ReshapeError,
};
use precise_numpy::shape::{
    checked_size, compute_strides, is_valid_shape, ravel_index, size_of, unravel_index,
};

fn gather(values: &[f64], map: &[usize]) -> Vec<f64> {
    map.iter().map(|&i| values[i]).collect()
}

#[test]
fn test_broadcast_shapes_basic() {
    assert_eq!(broadcast_shapes(&[2, 3], &[3]), Some(vec![2, 3]));
    assert_eq!(broadcast_shapes(&[3], &[2, 3]), Some(vec![2, 3]));
    assert_eq!(broadcast_shapes(&[1, 3], &[2, 1]), Some(vec![2, 3]));
    assert_eq!(broadcast_shapes(&[2, 3], &[2, 3]), Some(vec![2, 3]));
    assert_eq!(broadcast_shapes(&[2], &[3]), None);
}

#[test]
fn test_broadcast_shapes_scalar_and_empty() {
    assert_eq!(broadcast_shapes(&[], &[4, 5]), Some(vec![4, 5]));
    assert_eq!(broadcast_shapes(&[0], &[1]), Some(vec![0]));
    assert_eq!(broadcast_shapes(&[0], &[2]), None);
}

#[test]
fn test_broadcast_shapes_many() {
    let a: &[usize] = &[2, 1];
    let b: &[usize] = &[3];
    let c: &[usize] = &[1, 1, 1];
    assert_eq!(broadcast_shapes_many(&[a, b, c]), Some(vec![1, 2, 3]));
    assert_eq!(broadcast_shapes_many(&[a]), Some(vec![2, 1]));
    assert_eq!(broadcast_shapes_many(&[]), None);
    let d: &[usize] = &[4];
    // Once two shapes clash the whole list is refused, whatever follows.
    assert_eq!(broadcast_shapes_many(&[b, d, a]), None);
}

#[test]
fn test_broadcasts_into() {
    assert!(broadcasts_into(&[2, 3], &[3]));
    assert!(broadcasts_into(&[2, 3], &[1, 1]));
    assert!(!broadcasts_into(&[3], &[2, 3]));
    assert!(!broadcasts_into(&[2, 3], &[4]));
}

#[test]
fn test_broadcast_to_vector() {
    let values = [1.0, 2.0, 3.0];
    let map = broadcast_to_indices(&[3], &[2, 3]);
    let b = gather(&values, &map);
    assert_eq!(map.len(), 6);
    assert_eq!(b[0], 1.0);
    assert_eq!(b[3], 1.0);
    assert_eq!(b[5], 3.0);
}

#[test]
fn test_broadcast_to_scalar() {
    let values = [7.0];
    let map = broadcast_to_indices(&[1], &[2, 2]);
    let b = gather(&values, &map);
    assert_eq!(map.len(), 4);
    assert_eq!(b[3], 7.0);
}

#[test]
fn test_broadcast_to_column() {
    // A column [2, 1] spread over three columns repeats each row.
    assert_eq!(broadcast_to_indices(&[2, 1], &[2, 3]), vec![0, 0, 0, 1, 1, 1]);
    // Same shape: the identity.
    assert_eq!(broadcast_to_indices(&[2, 2], &[2, 2]), vec![0, 1, 2, 3]);
}

#[test]
fn test_zeros() {
    assert_eq!(checked_size(&[3, 4]), Some(12));
    assert_eq!(compute_strides(&[3, 4]), vec![4, 1]);
}

#[test]
fn test_empty_array() {
    assert_eq!(checked_size(&[0]), Some(0));
    assert_eq!(size_of(&[0]), 0);
}

#[test]
fn test_zero_dim_strides() {
    let strides = compute_strides(&[]);
    assert!(strides.is_empty());
}

#[test]
fn test_strides_and_overflow() {
    assert_eq!(compute_strides(&[2, 3, 4]), vec![12, 4, 1]);
    assert_eq!(checked_size(&[]), Some(1));
    assert_eq!(checked_size(&[usize::MAX, 2]), None);
    // A running product overflows before a zero makes the total vanish.
    assert_eq!(checked_size(&[usize::MAX, 2, 0]), None);
    assert!(is_valid_shape(&[2, 3]));
    assert!(!is_valid_shape(&[0, usize::MAX, 2]));
}

#[test]
fn test_ravel_unravel_roundtrip() {
    let shape = [2, 3, 4];
    let strides = compute_strides(&shape);
    for flat in 0..24 {
        let c = unravel_index(&shape, &strides, flat);
        assert_eq!(ravel_index(&shape, &strides, &c), flat);
    }
    assert_eq!(unravel_index(&shape, &strides, 23), vec![1, 2, 3]);
    assert_eq!(ravel_index(&shape, &strides, &[1, 0, 2]), 14);
}

#[test]
fn test_reshape() {
    let values = [1.0, 2.0, 3.0, 4.0, 5.0, 6.0];
    let shape = resolve_reshape(6, &[2, 3]).unwrap();
    assert_eq!(shape, vec![2, 3]);
    // A reshape keeps the element order.
    assert_eq!(values[0], 1.0);
    assert_eq!(values[5], 6.0);
}

#[test]
fn test_reshape_inference_and_errors() {
    assert_eq!(resolve_reshape(12, &[-1, 3]), Ok(vec![4, 3]));
    assert_eq!(resolve_reshape(12, &[2, -1, 2]), Ok(vec![2, 3, 2]));
    assert_eq!(resolve_reshape(12, &[-1, -1]), Err(ReshapeError::MultipleUnknown));
    assert_eq!(resolve_reshape(12, &[-2, 6]), Err(ReshapeError::NegativeDimension));
    assert_eq!(resolve_reshape(12, &[5, -1]), Err(ReshapeError::SizeMismatch));
    assert_eq!(resolve_reshape(12, &[0, -1]), Err(ReshapeError::SizeMismatch));
    assert_eq!(resolve_reshape(12, &[3, 5]), Err(ReshapeError::SizeMismatch));
    assert_eq!(resolve_reshape(0, &[isize::MAX, isize::MAX, 0]), Err(ReshapeError::Overflow));
}

#[test]
fn test_transpose() {
    let values = [1.0, 2.0, 3.0, 4.0, 5.0, 6.0];
    let map = transpose_indices(2, 3);
    let t = gather(&values, &map);
    assert_eq!(t.len(), 6);
    assert_eq!(t[0], 1.0);
    assert_eq!(t[1], 4.0);
    assert_eq!(t[2], 2.0);
}

#[test]
fn test_transpose_twice() {
    let there = transpose_indices(2, 3);
    let back = transpose_indices(3, 2);
    let round: Vec<usize> = back.iter().map(|&i| there[i]).collect();
    assert_eq!(round, vec![0, 1, 2, 3, 4, 5]);
}

#[test]
fn test_check_axis() {
    assert_eq!(check_axis(2, 1), Ok(()));
    assert_eq!(check_axis(2, 2), Err(AxisError::OutOfBounds { axis: 2, ndim: 2 }));
}

#[test]
fn test_eye_and_diag_positions() {
    assert_eq!(eye_positions(3, 3, 0), vec![0, 4, 8]);
    assert_eq!(eye_positions(3, 4, 1), vec![1, 6, 11]);
    assert_eq!(eye_positions(3, 3, -1), vec![3, 7]);
    assert_eq!(eye_positions(2, 2, 5), Vec::<usize>::new());
    assert_eq!(diag_positions(2, 3), vec![0, 4]);
    assert_eq!(diag_positions(3, 3), vec![0, 4, 8]);
    assert_eq!(row_major(2, 3, 1, 2), 5);
}
