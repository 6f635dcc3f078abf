use precise_numpy::manip::{
    axis_lanes, axis_range_indices, concatenate_layout, nonzero_coords, product_plan,
    split_ranges, split_sections, stack_shapes, ConcatError, ProductError, ProductKind,
    ProductPlan, SplitError,
};

fn concat_values(shapes: &[&[usize]], values: &[&[f64]], axis: usize) -> (Vec<usize>, Vec<f64>) {
    let layout = concatenate_layout(shapes, axis).unwrap();
    let total: usize = layout.out_shape.iter().product();
    let mut out = vec![0.0f64; total];
    for (i, t) in layout.targets.iter().enumerate() {
        for (f, &p) in t.iter().enumerate() {
            out[p] = values[i][f];
        }
    }
    (layout.out_shape, out)
}

#[test]
fn test_concatenate() {
    let (shape, c) = concat_values(&[&[2], &[3]], &[&[1.0, 2.0], &[3.0, 4.0, 5.0]], 0);
    assert_eq!(shape, vec![5]);
    assert_eq!(c[4], 5.0);
}

#[test]
fn test_concatenate_2d_axis1() {
    let (shape, c) = concat_values(&[&[2, 2], &[2, 1]], &[&[1.0, 2.0, 3.0, 4.0], &[5.0, 6.0]], 1);
    assert_eq!(shape, vec![2, 3]);
    assert_eq!(c[0], 1.0);
    assert_eq!(c[2], 5.0);
    assert_eq!(c[4], 4.0);
    assert_eq!(c[5], 6.0);
}

#[test]
fn test_concatenate_errors() {
    assert_eq!(concatenate_layout(&[], 0).err(), Some(ConcatError::Empty));
    assert_eq!(
        concatenate_layout(&[&[2]], 1).err(),
        Some(ConcatError::AxisOutOfBounds { axis: 1, ndim: 1 })
    );
    assert_eq!(concatenate_layout(&[&[2, 2], &[2]], 0).err(), Some(ConcatError::NdimMismatch));
    assert_eq!(
        concatenate_layout(&[&[2, 2], &[2, 3]], 0).err(),
        Some(ConcatError::DimMismatch { dim: 1, size: 3, expected: 2 })
    );
}

#[test]
fn test_stack() {
    let shapes = stack_shapes(&[&[2], &[2]], 0).unwrap();
    assert_eq!(shapes, vec![vec![1, 2], vec![1, 2]]);
    let refs: Vec<&[usize]> = shapes.iter().map(|s| s.as_slice()).collect();
    let (shape, c) = concat_values(&refs, &[&[1.0, 2.0], &[3.0, 4.0]], 0);
    assert_eq!(shape, vec![2, 2]);
    assert_eq!(c[2], 3.0);
}

#[test]
fn test_stack_errors() {
    assert_eq!(stack_shapes(&[], 0).err(), Some(ConcatError::Empty));
    assert_eq!(
        stack_shapes(&[&[2]], 2).err(),
        Some(ConcatError::AxisOutOfBounds { axis: 2, ndim: 1 })
    );
    assert_eq!(stack_shapes(&[&[2, 2], &[2]], 2).err(), Some(ConcatError::NdimMismatch));
    assert_eq!(stack_shapes(&[&[2, 3]], 1).unwrap(), vec![vec![2, 1, 3]]);
}

#[test]
fn test_split() {
    let values = [1.0, 2.0, 3.0, 4.0];
    let parts = split_ranges(&[4], &[2], 0).unwrap();
    assert_eq!(parts.len(), 2);
    assert_eq!(parts, vec![(0, 2), (2, 2)]);
    let second = axis_range_indices(&[4], 0, parts[1].0, parts[1].1);
    assert_eq!(axis_range_indices(&[4], 0, parts[0].0, parts[0].1).len(), 2);
    assert_eq!(second.len(), 2);
    assert_eq!(values[second[1]], 4.0);
}

#[test]
fn test_split_2d_and_errors() {
    assert_eq!(axis_range_indices(&[2, 3], 1, 1, 2), vec![1, 2, 4, 5]);
    assert_eq!(axis_range_indices(&[3, 2], 0, 1, 1), vec![2, 3]);
    assert_eq!(split_ranges(&[4], &[1, 3], 0), Ok(vec![(0, 1), (1, 2), (3, 1)]));
    assert_eq!(
        split_ranges(&[4], &[2], 1).err(),
        Some(SplitError::AxisOutOfBounds { axis: 1, ndim: 1 })
    );
    assert_eq!(
        split_ranges(&[4], &[0], 0).err(),
        Some(SplitError::IndexOutOfRange { index: 0, dim: 4 })
    );
    assert_eq!(
        split_ranges(&[4], &[4], 0).err(),
        Some(SplitError::IndexOutOfRange { index: 4, dim: 4 })
    );
    assert_eq!(split_ranges(&[4], &[3, 1], 0).err(), Some(SplitError::Decreasing));
    assert_eq!(split_sections(6, 3), Ok(vec![2, 4]));
    assert_eq!(split_sections(6, 1), Ok(vec![]));
    assert_eq!(split_sections(6, 0).err(), Some(SplitError::ZeroSections));
    assert_eq!(
        split_sections(7, 2).err(),
        Some(SplitError::UnequalDivision { dim: 7, sections: 2 })
    );
}

#[test]
fn test_nonzero() {
    let values = [0.0, 1.0, 0.0, 2.0];
    let flags: Vec<bool> = values.iter().map(|&v| v != 0.0).collect();
    let nz = nonzero_coords(&[2, 2], &flags);
    assert_eq!(nz[0], vec![0, 1]);
    assert_eq!(nz[1], vec![1, 1]);
}

fn lane_sums(shape: &[usize], axis: usize, values: &[f64]) -> Vec<f64> {
    let lanes = axis_lanes(shape, axis).unwrap();
    lanes
        .bases
        .iter()
        .map(|&b| (0..lanes.len).map(|t| values[b + t * lanes.stride]).sum())
        .collect()
}

#[test]
fn test_sum_axis() {
    let values = [1.0, 2.0, 3.0, 4.0];
    let s0 = lane_sums(&[2, 2], 0, &values);
    assert_eq!(axis_lanes(&[2, 2], 0).unwrap().out_shape, vec![2]);
    assert!((s0[0] - 4.0).abs() < 1e-10);
    assert!((s0[1] - 6.0).abs() < 1e-10);
    let s1 = lane_sums(&[2, 2], 1, &values);
    assert!((s1[0] - 3.0).abs() < 1e-10);
    assert!((s1[1] - 7.0).abs() < 1e-10);
}

#[test]
fn test_mean_axis() {
    let values = [1.0, 2.0, 3.0, 4.0];
    let s0 = lane_sums(&[2, 2], 0, &values);
    assert!((s0[0] / 2.0 - 2.0).abs() < 1e-10);
    assert!((s0[1] / 2.0 - 3.0).abs() < 1e-10);
}

#[test]
fn test_cumsum_axis() {
    let values = [1.0, 2.0, 3.0, 4.0];
    let lanes = axis_lanes(&[2, 2], 1).unwrap();
    let mut c = vec![0.0f64; 4];
    for &b in &lanes.bases {
        let mut acc: f64 = 0.0;
        for t in 0..lanes.len {
            acc += values[b + t * lanes.stride];
            c[b + t * lanes.stride] = acc;
        }
    }
    assert!((c[0] - 1.0).abs() < 1e-10);
    assert!((c[1] - 3.0).abs() < 1e-10);
    assert!((c[2] - 3.0).abs() < 1e-10);
    assert!((c[3] - 7.0).abs() < 1e-10);
}

#[test]
fn test_lanes_3d_and_empty_axis() {
    let l = axis_lanes(&[2, 3, 4], 1).unwrap();
    assert_eq!(l.out_shape, vec![2, 4]);
    assert_eq!(l.stride, 4);
    assert_eq!(l.len, 3);
    assert_eq!(l.bases, vec![0, 1, 2, 3, 12, 13, 14, 15]);
    let e = axis_lanes(&[2, 0], 1).unwrap();
    assert_eq!(e.out_shape, vec![2]);
    assert_eq!(e.len, 0);
    assert_eq!(e.bases, vec![0, 0]);
}

#[test]
fn test_matmul_zero_dimensions() {
    match product_plan(&[300, 2], &[2, 0], ProductKind::Matmul) {
        Ok(ProductPlan::Matrix { m, k, n, out_shape }) => {
            assert_eq!((m, k, n), (300, 2, 0));
            assert_eq!(out_shape, vec![300, 0]);
        }
        _ => panic!("expected a matrix product"),
    }
    match product_plan(&[0, 2], &[2, 3], ProductKind::Matmul) {
        Ok(ProductPlan::Matrix { out_shape, .. }) => assert_eq!(out_shape, vec![0, 3]),
        _ => panic!("expected a matrix product"),
    }
}

#[test]
fn test_dot_general_2d_1d() {
    let a = [1.0, 2.0, 3.0, 4.0];
    let b = [5.0, 6.0];
    match product_plan(&[2, 2], &[2], ProductKind::Dot) {
        Ok(ProductPlan::Matrix { m, k, n, out_shape }) => {
            assert_eq!(out_shape, vec![2]);
            let mut out = vec![0.0f64; m * n];
            for i in 0..m {
                for t in 0..k {
                    out[i * n] += a[i * k + t] * b[t];
                }
            }
            assert!((out[0] - 17.0).abs() < 1e-10);
            assert!((out[1] - 39.0).abs() < 1e-10);
        }
        _ => panic!("expected array"),
    }
}

#[test]
fn test_product_plans() {
    assert!(matches!(product_plan(&[3], &[3], ProductKind::Matmul), Ok(ProductPlan::Inner { k: 3 })));
    assert!(matches!(product_plan(&[3], &[4], ProductKind::Dot), Err(ProductError::NotAligned)));
    match product_plan(&[2], &[2, 5], ProductKind::Dot) {
        Ok(ProductPlan::Matrix { out_shape, .. }) => assert_eq!(out_shape, vec![5]),
        _ => panic!("expected a matrix product"),
    }
    match product_plan(&[2], &[2, 5], ProductKind::Matmul) {
        Ok(ProductPlan::Matrix { out_shape, .. }) => assert_eq!(out_shape, vec![5]),
        _ => panic!("expected a matrix product"),
    }
    assert!(matches!(
        product_plan(&[2, 2, 2], &[2], ProductKind::Matmul),
        Err(ProductError::Unsupported { da: 3, db: 1 })
    ));
}

#[test]
fn test_split_then_concatenate_restores_positions() {
    let shape = [2usize, 5];
    let pieces = split_ranges(&shape, &[2, 3], 1).unwrap();
    assert_eq!(pieces, vec![(0, 2), (2, 1), (3, 2)]);
    let sources: Vec<Vec<usize>> = pieces
        .iter()
        .map(|&(s, l)| axis_range_indices(&shape, 1, s, l))
        .collect();
    let piece_shapes: Vec<Vec<usize>> = pieces.iter().map(|&(_, l)| vec![2, l]).collect();
    let refs: Vec<&[usize]> = piece_shapes.iter().map(|v| v.as_slice()).collect();
    let layout = concatenate_layout(&refs, 1).unwrap();
    assert_eq!(layout.out_shape, vec![2, 5]);
    for (src, tgt) in sources.iter().zip(layout.targets.iter()) {
        assert_eq!(src, tgt);
    }
}

#[test]
fn test_concatenate_targets_fill_result_once() {
    let layout = concatenate_layout(&[&[2, 1, 3], &[2, 2, 3], &[2, 0, 3]], 1).unwrap();
    assert_eq!(layout.out_shape, vec![2, 3, 3]);
    let mut all: Vec<usize> = layout.targets.iter().flatten().copied().collect();
    all.sort();
    assert_eq!(all, (0..18).collect::<Vec<usize>>());
}

#[test]
fn test_axis_lanes_visit_each_element_once() {
    let l = axis_lanes(&[2, 3, 4], 1).unwrap();
    let mut all: Vec<usize> = Vec::new();
    for &b in &l.bases {
        for t in 0..l.len {
            all.push(b + t * l.stride);
        }
    }
    all.sort();
    assert_eq!(all, (0..24).collect::<Vec<usize>>());
}

#[test]
fn test_matmul_general_1d() {
    let a = [1.0f64, 2.0, 3.0];
    let b = [4.0f64, 5.0, 6.0];
    match product_plan(&[3], &[3], ProductKind::Matmul) {
        Ok(ProductPlan::Inner { k }) => {
            let s: f64 = (0..k).map(|t| a[t] * b[t]).sum();
            assert!((s - 32.0).abs() < 1e-10);
        }
        _ => panic!("expected scalar"),
    }
}

/// Position along the reduced axis of the largest (or smallest) value of
/// each lane.
fn lane_arg_extreme(shape: &[usize], axis: usize, values: &[f64], want_max: bool) -> Vec<usize> {
    let lanes = axis_lanes(shape, axis).unwrap();
    lanes
        .bases
        .iter()
        .map(|&b| {
            let mut best = 0;
            for t in 1..lanes.len {
                let cur = values[b + t * lanes.stride];
                let top = values[b + best * lanes.stride];
                if (want_max && cur > top) || (!want_max && cur < top) {
                    best = t;
                }
            }
            best
        })
        .collect()
}

#[test]
fn test_arg_extreme() {
    let m = [3.0, 1.0, 2.0, 4.0];
    assert_eq!(lane_arg_extreme(&[2, 2], 0, &m, true), vec![0, 1]);
    assert_eq!(lane_arg_extreme(&[2, 2], 1, &m, false), vec![1, 0]);
    let v = [3.0, 1.0, 2.0];
    assert_eq!(lane_arg_extreme(&[3], 0, &v, true), vec![0]);
    assert_eq!(lane_arg_extreme(&[3], 0, &v, false), vec![1]);
}
