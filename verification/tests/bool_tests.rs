use precise_numpy::bool_array::{BoolArray, BoolArrayError, LogicOp};

#[test]
fn test_bool_logic() {
    let a = BoolArray::new(vec![true, true, false, false]);
    let b = BoolArray::new(vec![true, false, true, false]);
    assert_eq!(a.combine(&b, LogicOp::And).unwrap().to_vec(), vec![true, false, false, false]);
    assert_eq!(a.combine(&b, LogicOp::Or).unwrap().to_vec(), vec![true, true, true, false]);
    assert_eq!(a.combine(&b, LogicOp::Xor).unwrap().to_vec(), vec![false, true, true, false]);
    assert_eq!(a.combine_scalar(false, LogicOp::Or).to_vec(), vec![true, true, false, false]);
    assert_eq!(a.invert().to_vec(), vec![false, false, true, true]);
    let short = BoolArray::new(vec![true]);
    assert_eq!(a.combine(&short, LogicOp::And).err(), Some(BoolArrayError::LengthMismatch));
}

#[test]
fn test_bool_reductions() {
    let a = BoolArray::new(vec![true, false, true]);
    assert!(a.any());
    assert!(!a.all());
    assert_eq!(a.count_nonzero(), 2);
    assert!(!BoolArray::new(vec![]).any());
    assert!(BoolArray::new(vec![]).all());
    assert_eq!(a.invert().count_nonzero(), 1);
}

#[test]
fn test_bool_indexing() {
    let a = BoolArray::new(vec![true, false, true]);
    assert_eq!(a.get(0), Some(true));
    assert_eq!(a.get(-2), Some(false));
    assert_eq!(a.get(3), None);
    assert_eq!(a.get(-4), None);
    assert_eq!(a.select(&[2, 0]).to_vec(), vec![true, true]);
    assert_eq!(a.truth(), None);
    assert_eq!(BoolArray::new(vec![false]).truth(), Some(false));
}

#[test]
fn test_bool_equality() {
    let a = BoolArray::new(vec![true, false]);
    assert!(a.equals(&BoolArray::new(vec![true, false])));
    assert!(!a.equals(&BoolArray::new(vec![true])));
    assert!(BoolArray::new(vec![true]).equals_scalar(true));
    assert!(!a.equals_scalar(true));
}
