use precise_numpy::parallel::num_threads;

#[test]
fn test_num_threads() {
    let n = num_threads();
    assert!(n >= 1);
}
