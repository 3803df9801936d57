use binomial::Binomial;

#[test]
fn i128_overflow_binomial131_no_overflow() {
    assert_eq!(
        130i128.binomial(65).unwrap(),
        95067625827960698145584333020095113100i128
    );
}

#[test]
fn i128_overflow_binomial132_overflow() {
    assert!(131i128.binomial(65).is_none());
}
