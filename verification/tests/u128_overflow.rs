use binomial::Binomial;

#[test]
fn u128_overflow_binomial131_no_overflow() {
    assert_eq!(
        131u128.binomial(65).unwrap(),
        188694833082770476622296176145946360850u128
    );
}

#[test]
fn u128_overflow_binomial132_overflow() {
    assert!(132u128.binomial(66).is_none());
}
