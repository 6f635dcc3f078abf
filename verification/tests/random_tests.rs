use precise_numpy::random::{random_int, seed, shape_of, shape_of_scalar, with_rng, Xoshiro256};

#[test]
fn test_seed_reproducibility() {
    let mut a = Xoshiro256::new(42);
    let x = a.next_u64();
    let mut b = Xoshiro256::new(42);
    let y = b.next_u64();
    assert_eq!(x, y);
}

#[test]
fn test_known_sequence() {
    let mut g = Xoshiro256::new(42);
    assert_eq!(g.next_u64(), 1546998764402558742);
    assert_eq!(g.next_u64(), 6990951692964543102);
    assert_eq!(g.next_u64(), 12544586762248559009);
}

#[test]
fn test_default_seed() {
    let mut slot: Option<Xoshiro256> = None;
    assert_eq!(with_rng(&mut slot), 4768932952251265552);
    assert!(slot.is_some());
    assert_eq!(with_rng(&mut slot), 16168679545894742312);
}

#[test]
fn test_int_range() {
    let mut slot: Option<Xoshiro256> = None;
    seed(&mut slot, 1);
    for _ in 0..1000 {
        let x = random_int(&mut slot, 0, 10);
        assert!((0..10).contains(&x));
    }
}

#[test]
fn test_int_known_values() {
    let mut slot: Option<Xoshiro256> = None;
    seed(&mut slot, 1);
    let got: Vec<i64> = (0..10).map(|_| random_int(&mut slot, 0, 10)).collect();
    assert_eq!(got, vec![7, 2, 0, 3, 1, 2, 6, 9, 1, 8]);
    // An empty range gives its lower end.
    assert_eq!(random_int(&mut slot, 5, 5), 5);
    assert_eq!(random_int(&mut slot, 5, 3), 5);
    let neg = random_int(&mut slot, -3, -1);
    assert!(neg == -3 || neg == -2);
}

#[test]
fn test_shapes_of_random_batches() {
    assert_eq!(shape_of(None), vec![1]);
    assert_eq!(shape_of(Some(vec![3, 2])), vec![3, 2]);
    assert_eq!(shape_of_scalar(), vec![1]);
}
