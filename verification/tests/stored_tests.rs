use storage_codec::stored::{ExactDecimal, StoredBigUint, StoredNumericError};

fn digits_of(text: &str) -> Vec<u8> {
    text.bytes().map(|b| b - b'0').collect()
}

#[test]
fn from_digits_strips_leading_zeros() {
    let n = StoredBigUint::from_digits(vec![0, 0, 4, 2]).unwrap();
    assert_eq!(n.digits, vec![4, 2]);
}

#[test]
fn from_digits_rejects_non_digits() {
    assert_eq!(StoredBigUint::from_digits(vec![1, 10, 3]), None);
}

#[test]
fn new_decimal_normalizes_negative_zero() {
    let d = ExactDecimal::new(true, vec![0, 0], 3).unwrap();
    assert!(!d.negative);
    assert_eq!(d.digits, Vec::<u8>::new());
    assert_eq!(d.scale, 3);
}

#[test]
fn new_decimal_rejects_non_digits() {
    assert_eq!(ExactDecimal::new(false, vec![11], 0), None);
}

#[test]
fn zero_round_trip() {
    let zero = StoredBigUint::from_digits(vec![]).unwrap();
    let d = zero.to_persisted();
    assert!(!d.negative);
    assert_eq!(d.scale, 0);
    assert_eq!(d.digits, Vec::<u8>::new());
    let back = StoredBigUint::from_persisted(Some(d)).unwrap();
    assert_eq!(back, zero);
}

#[test]
fn two_to_the_128_round_trip() {
    let n = StoredBigUint::from_digits(digits_of("340282366920938463463374607431768211456"))
        .unwrap();
    let d = n.to_persisted();
    let back = StoredBigUint::from_persisted(Some(d)).unwrap();
    assert_eq!(back, n);
    assert_eq!(back.digits, digits_of("340282366920938463463374607431768211456"));
}

#[test]
fn absent_value_is_refused() {
    assert_eq!(
        StoredBigUint::from_persisted(None),
        Err(StoredNumericError::MissingValue)
    );
}

#[test]
fn fractional_decimal_is_refused() {
    // 1.5: unscaled 15, one fractional digit
    let d = ExactDecimal::new(false, vec![1, 5], 1).unwrap();
    assert_eq!(
        StoredBigUint::from_persisted(Some(d)),
        Err(StoredNumericError::NonIntegral)
    );
}

#[test]
fn small_fraction_is_refused() {
    // 0.005: unscaled 5, three fractional digits
    let d = ExactDecimal::new(false, vec![5], 3).unwrap();
    assert_eq!(
        StoredBigUint::from_persisted(Some(d)),
        Err(StoredNumericError::NonIntegral)
    );
}

#[test]
fn negative_decimal_is_refused() {
    // -3
    let d = ExactDecimal::new(true, vec![3], 0).unwrap();
    assert_eq!(
        StoredBigUint::from_persisted(Some(d)),
        Err(StoredNumericError::NegativeValue)
    );
}

#[test]
fn negative_fraction_reports_non_integral() {
    // -2.7 has a fractional part; that error comes first
    let d = ExactDecimal::new(true, vec![2, 7], 1).unwrap();
    assert_eq!(
        StoredBigUint::from_persisted(Some(d)),
        Err(StoredNumericError::NonIntegral)
    );
}

#[test]
fn trailing_fractional_zeros_are_integral() {
    // 5.0: unscaled 50, one fractional digit
    let d = ExactDecimal::new(false, vec![5, 0], 1).unwrap();
    let n = StoredBigUint::from_persisted(Some(d)).unwrap();
    assert_eq!(n.digits, vec![5]);
}

#[test]
fn many_trailing_fractional_zeros_are_integral() {
    // 12.000: unscaled 12000, three fractional digits
    let d = ExactDecimal::new(false, vec![1, 2, 0, 0, 0], 3).unwrap();
    let n = StoredBigUint::from_persisted(Some(d)).unwrap();
    assert_eq!(n.digits, vec![1, 2]);
}

#[test]
fn zero_with_fractional_scale_is_integral() {
    // 0 written with a positive scale, e.g. 0.00
    let d = ExactDecimal::new(false, vec![], 2).unwrap();
    let n = StoredBigUint::from_persisted(Some(d)).unwrap();
    assert_eq!(n.digits, Vec::<u8>::new());
}

#[test]
fn negative_scale_multiplies_out() {
    // 7 * 10^3
    let d = ExactDecimal::new(false, vec![7], -3).unwrap();
    let n = StoredBigUint::from_persisted(Some(d)).unwrap();
    assert_eq!(n.digits, vec![7, 0, 0, 0]);
}
