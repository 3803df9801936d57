use binomial::Binomial;

#[test]
fn symmetry_concrete() {
    assert_eq!(30usize.binomial(12), 30usize.binomial(18));
    assert_eq!(30usize.binomial(12).unwrap(), 86493225usize);
    assert_eq!(10usize.binomial(0), 10usize.binomial(10));
}

#[test]
fn k_above_n_is_zero() {
    assert_eq!(5usize.binomial(9), Some(0usize));
    assert_eq!(0usize.binomial(1), Some(0usize));
    assert_eq!(200u8.binomial(201), Some(0usize));
}

#[test]
fn negative_k_is_zero() {
    assert_eq!((-5isize).binomial(-1), Some(0isize));
    assert_eq!(7isize.binomial(-3), Some(0isize));
    assert_eq!((-4i8).binomial(-4), Some(0isize));
    assert_eq!(9i128.binomial(-2), Some(0i128));
}

#[test]
fn small_k() {
    assert_eq!(123456usize.binomial(0), Some(1usize));
    assert_eq!(123456usize.binomial(1), Some(123456usize));
    assert_eq!((-987isize).binomial(0), Some(1isize));
    assert_eq!((-987isize).binomial(1), Some(-987isize));
    assert_eq!(0usize.binomial(0), Some(1usize));
}

#[test]
fn pascal_identity_concrete() {
    let lhs = 12usize.binomial(5).unwrap();
    let rhs = 11usize.binomial(4).unwrap() + 11usize.binomial(5).unwrap();
    assert_eq!(lhs, rhs);
    assert_eq!(lhs, 792usize);
}

#[test]
fn overflow_monotone_concrete() {
    assert!(68usize.binomial(34).is_none());
    assert!(69usize.binomial(34).is_none());
    assert!(70usize.binomial(34).is_none());
}

#[test]
fn negative_n_alternating_row() {
    let expected: [isize; 6] = [1, -3, 6, -10, 15, -21];
    for (k, &v) in expected.iter().enumerate() {
        assert_eq!((-3isize).binomial(k as isize).unwrap(), v);
    }
    for (k, &v) in expected.iter().enumerate() {
        assert_eq!((-3i8).binomial(k as i8).unwrap(), v);
    }
}

#[test]
fn narrow_input_wide_result() {
    // The result type is the native width, so a u8 input can produce a
    // coefficient far beyond u8::MAX.
    assert_eq!(67u8.binomial(34).unwrap(), 14226520737620288370usize);
    assert!(68u8.binomial(34).is_none());
    assert_eq!(6u8.binomial(3).unwrap(), 20usize);
}

#[test]
fn signed_positive_matches_unsigned() {
    for k in 0..16isize {
        assert_eq!(
            15isize.binomial(k).unwrap() as usize,
            15usize.binomial(k as usize).unwrap()
        );
    }
}
