use precise_numpy::index::{
    index_positions, is_scalar, normalize_index, parse_index, resolve_slice,
    selection_positions, selection_shape_vec, IndexComp, IndexError, IndexSpec,
};

fn axis(c: &IndexComp) -> (Vec<usize>, bool) {
    match c {
        IndexComp::Axis { idxs, is_int } => (idxs.clone(), *is_int),
        IndexComp::NewAxis => (vec![], false),
    }
}

#[test]
fn test_resolve_slice_forward_and_backward() {
    assert_eq!(resolve_slice(Some(1), Some(4), None, 6), Ok(vec![1, 2, 3]));
    assert_eq!(resolve_slice(None, None, Some(-1), 4), Ok(vec![3, 2, 1, 0]));
    assert_eq!(resolve_slice(Some(-2), None, None, 5), Ok(vec![3, 4]));
    assert_eq!(resolve_slice(None, None, Some(2), 5), Ok(vec![0, 2, 4]));
    assert_eq!(resolve_slice(Some(10), Some(20), None, 5), Ok(vec![]));
    assert_eq!(resolve_slice(Some(-10), Some(2), None, 5), Ok(vec![0, 1]));
    assert_eq!(resolve_slice(Some(4), Some(1), Some(-2), 5), Ok(vec![4, 2]));
    assert_eq!(resolve_slice(None, None, None, 0), Ok(vec![]));
}

#[test]
fn test_resolve_slice_errors() {
    assert_eq!(resolve_slice(None, None, Some(0), 5), Err(IndexError::ZeroStep));
    assert_eq!(resolve_slice(Some(1), None, Some(isize::MAX), 5), Err(IndexError::SliceOverflow));
    assert_eq!(resolve_slice(Some(0), None, Some(isize::MAX), 5), Ok(vec![0]));
}

#[test]
fn test_normalize_index() {
    assert_eq!(normalize_index(-1, 3), Some(2));
    assert_eq!(normalize_index(2, 3), Some(2));
    assert_eq!(normalize_index(3, 3), None);
    assert_eq!(normalize_index(-4, 3), None);
}

#[test]
fn test_row_selection() {
    let shape = [2, 3];
    let comps = parse_index(&shape, &[IndexSpec::Int(1), IndexSpec::Slice(None, None, None)]).unwrap();
    assert_eq!(comps.len(), 2);
    assert_eq!(axis(&comps[0]), (vec![1], true));
    assert_eq!(axis(&comps[1]), (vec![0, 1, 2], false));
    assert!(!is_scalar(&comps));
    assert_eq!(selection_shape_vec(&comps), vec![3]);
    assert_eq!(selection_positions(&shape, &comps), Some(vec![3, 4, 5]));
}

#[test]
fn test_column_and_scalar_selection() {
    let shape = [2, 3];
    let col = parse_index(&shape, &[IndexSpec::Slice(None, None, None), IndexSpec::Int(0)]).unwrap();
    assert_eq!(selection_positions(&shape, &col), Some(vec![0, 3]));
    assert_eq!(selection_shape_vec(&col), vec![2]);
    let one = parse_index(&shape, &[IndexSpec::Int(-1), IndexSpec::Int(0)]).unwrap();
    assert!(is_scalar(&one));
    assert_eq!(selection_positions(&shape, &one), Some(vec![3]));
    assert_eq!(selection_shape_vec(&one), Vec::<usize>::new());
}

#[test]
fn test_ellipsis_newaxis_mask_and_list() {
    let shape = [2, 3];
    let e = parse_index(&shape, &[IndexSpec::Ellipsis, IndexSpec::Int(0)]).unwrap();
    assert_eq!(selection_positions(&shape, &e), Some(vec![0, 3]));
    let v = [3];
    let n = parse_index(&v, &[IndexSpec::NewAxis]).unwrap();
    assert_eq!(selection_shape_vec(&n), vec![1, 3]);
    assert_eq!(selection_positions(&v, &n), Some(vec![0, 1, 2]));
    let m = parse_index(&v, &[IndexSpec::Mask(vec![true, false, true])]).unwrap();
    assert_eq!(selection_positions(&v, &m), Some(vec![0, 2]));
    let l = parse_index(&v, &[IndexSpec::List(vec![0, -1, 0])]).unwrap();
    assert_eq!(selection_positions(&v, &l), Some(vec![0, 2, 0]));
    let r = parse_index(&v, &[IndexSpec::Slice(None, None, Some(-1))]).unwrap();
    assert_eq!(selection_positions(&v, &r), Some(vec![2, 1, 0]));
}

#[test]
fn test_index_errors() {
    let shape = [2, 3];
    assert_eq!(
        parse_index(&shape, &[IndexSpec::Ellipsis, IndexSpec::Ellipsis]).err(),
        Some(IndexError::MultipleEllipsis)
    );
    assert_eq!(
        parse_index(&shape, &[IndexSpec::Int(0), IndexSpec::Int(0), IndexSpec::Int(0)]).err(),
        Some(IndexError::TooManyIndices { ndim: 2, given: 3 })
    );
    assert_eq!(
        parse_index(&shape, &[IndexSpec::Int(0), IndexSpec::Int(3)]).err(),
        Some(IndexError::OutOfBounds { index: 3, axis: 1, size: 3 })
    );
    assert_eq!(
        parse_index(&shape, &[IndexSpec::Mask(vec![true])]).err(),
        Some(IndexError::MaskLength { axis: 0, size: 2, mask_len: 1 })
    );
    assert_eq!(
        parse_index(&shape, &[IndexSpec::List(vec![0, -3])]).err(),
        Some(IndexError::OutOfBounds { index: -3, axis: 0, size: 2 })
    );
    assert_eq!(
        parse_index(&shape, &[IndexSpec::Slice(None, None, Some(0))]).err(),
        Some(IndexError::ZeroStep)
    );
}

#[test]
fn test_index_positions_reads_selection() {
    let (comps, pos) = index_positions(&[2, 3], &[IndexSpec::Int(1)]).unwrap();
    assert_eq!(pos, Some(vec![3, 4, 5]));
    assert_eq!(selection_shape_vec(&comps), vec![3]);
    let specs = [IndexSpec::Slice(None, None, Some(-1)), IndexSpec::Int(0)];
    let (comps, pos) = index_positions(&[2, 3], &specs).unwrap();
    assert_eq!(pos, Some(vec![3, 0]));
    assert_eq!(selection_shape_vec(&comps), vec![2]);
    let (comps, pos) = index_positions(&[2, 3], &[IndexSpec::Int(-1), IndexSpec::Int(2)]).unwrap();
    assert!(is_scalar(&comps));
    assert_eq!(pos, Some(vec![5]));
    assert!(matches!(
        index_positions(&[2, 3], &[IndexSpec::Int(2)]),
        Err(IndexError::OutOfBounds { index: 2, axis: 0, size: 2 })
    ));
}

#[test]
fn test_full_and_reversed_slices() {
    assert_eq!(resolve_slice(None, None, None, 4), Ok(vec![0, 1, 2, 3]));
    assert_eq!(resolve_slice(None, None, Some(-1), 4), Ok(vec![3, 2, 1, 0]));
    assert_eq!(resolve_slice(None, None, Some(-1), 0), Ok(vec![]));
}

#[test]
fn test_integer_index_reads_row_major_element() {
    let (comps, pos) = index_positions(&[3, 4, 5], &[IndexSpec::Int(2), IndexSpec::Int(-1), IndexSpec::Int(3)])
        .unwrap();
    assert!(is_scalar(&comps));
    assert_eq!(pos, Some(vec![2 * 20 + 3 * 5 + 3]));
}

#[test]
fn test_selection_without_lists_reads_each_element_once() {
    let specs = [
        IndexSpec::Slice(None, None, Some(-2)),
        IndexSpec::Mask(vec![true, false, true, true]),
    ];
    let (_, pos) = index_positions(&[5, 4], &specs).unwrap();
    let mut pos = pos.unwrap();
    assert_eq!(pos, vec![16, 18, 19, 8, 10, 11, 0, 2, 3]);
    pos.sort();
    pos.dedup();
    assert_eq!(pos.len(), 9);
    let (_, rep) = index_positions(&[5, 4], &[IndexSpec::List(vec![1, 1])]).unwrap();
    assert_eq!(rep, Some(vec![4, 5, 6, 7, 4, 5, 6, 7]));
}
