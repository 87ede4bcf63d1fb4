use decimal75::{
    get_limbs_and_sign, match_decimal, scale_scalar, ConversionError, Curve25519Scalar, Decimal,
    DecimalUnknown, Precision, Scalar, Sign,
};

fn precision(value: u8) -> Precision {
    Precision::new(value).unwrap()
}

#[test]
fn precision_accepts_exactly_one_through_seventy_five() {
    assert!(Precision::new(0).is_err());
    assert!(Precision::new(1).is_ok());
    assert!(Precision::new(75).is_ok());
    assert!(Precision::new(76).is_err());
    assert!(Precision::new(255).is_err());
    assert_eq!(Precision::new(42).unwrap().value(), 42);
}

#[test]
fn a_seventy_six_digit_literal_is_too_precise() {
    let text = "9999999999999999999999999999999999999999999999999999999999999999999999999999";
    assert_eq!(text.len(), 76);
    let decimal = DecimalUnknown::new(text).unwrap();
    assert_eq!(
        get_limbs_and_sign(&decimal, 1),
        Err(ConversionError::PrecisionParseError)
    );
    assert_eq!(
        get_limbs_and_sign(&decimal, 30),
        Err(ConversionError::PrecisionParseError)
    );
}

#[test]
fn scale_decrease_reports_a_rounding_error() {
    let decimal = DecimalUnknown::new("361.0004").unwrap();
    assert_eq!(
        get_limbs_and_sign(&decimal, 1),
        Err(ConversionError::DecimalRoundingError)
    );
    assert_eq!(
        get_limbs_and_sign(&decimal, -3),
        Err(ConversionError::DecimalRoundingError)
    );
}

#[test]
fn matching_preserves_the_sign() {
    let negative = match_decimal::<Curve25519Scalar>(&DecimalUnknown::new("-123.45").unwrap(), 2)
        .unwrap();
    let positive = match_decimal::<Curve25519Scalar>(&DecimalUnknown::new("123.45").unwrap(), 2)
        .unwrap();
    assert_eq!(negative, positive.neg());
    assert_eq!(positive, Curve25519Scalar::from_i64(12345));
    assert_eq!(negative, Curve25519Scalar::from_i64(-12345));
}

#[test]
fn matching_widens_to_the_exact_field_element() {
    let matched = match_decimal::<Curve25519Scalar>(&DecimalUnknown::new("123.45").unwrap(), 3)
        .unwrap();
    assert_eq!(matched, Curve25519Scalar::from_i64(123450));
}

#[test]
fn malformed_literal_text_is_rejected() {
    assert!(DecimalUnknown::new("").is_none());
    assert!(DecimalUnknown::new("-").is_none());
    assert!(DecimalUnknown::new(".5").is_none());
    assert!(DecimalUnknown::new("5.").is_none());
    assert!(DecimalUnknown::new("1.2.3").is_none());
    assert!(DecimalUnknown::new("12a.4").is_none());
    assert!(DecimalUnknown::new("--1").is_none());
    assert!(DecimalUnknown::new("1e5").is_none());
    assert!(DecimalUnknown::new("-0.25").is_some());
    assert!(DecimalUnknown::new("0").is_some());
}

#[test]
fn trailing_fraction_zeros_shrink_scale_and_precision() {
    let decimal = DecimalUnknown::new(
        "99999999999999999999999999999999999999999999999999999999999999999999999999.00000",
    )
    .unwrap();
    assert_eq!(decimal.scale(), 1);
    assert_eq!(decimal.precision(), 75);
    let plain = DecimalUnknown::new("123.4500").unwrap();
    assert_eq!(plain.scale(), 2);
    assert_eq!(plain.precision(), 5);
    let integral = DecimalUnknown::new("12345").unwrap();
    assert_eq!(integral.scale(), 0);
    assert_eq!(integral.precision(), 5);
}

#[test]
fn rescaling_to_the_same_precision_and_scale_is_a_noop() {
    let d = Decimal::new(Curve25519Scalar::from_i64(100), precision(19), 4);
    let unchanged = d.with_precision_and_scale(precision(19), 4).unwrap();
    assert_eq!(unchanged, d);
}

#[test]
fn scaling_twice_equals_scaling_by_the_sum() {
    let x = Curve25519Scalar::from_i64(-7201);
    let once = scale_scalar(scale_scalar(x, 2).unwrap(), 3).unwrap();
    let at_once = scale_scalar(x, 5).unwrap();
    assert_eq!(once, at_once);
    assert_eq!(at_once, Curve25519Scalar::from_i64(-720100000));
}

#[test]
fn a_zero_literal_decodes_without_a_sign() {
    let (limbs, sign) = get_limbs_and_sign(&DecimalUnknown::new("0.00").unwrap(), 3).unwrap();
    assert_eq!(limbs, [0, 0, 0, 0]);
    assert_eq!(sign, Sign::NoSign);
    let (limbs, sign) = get_limbs_and_sign(&DecimalUnknown::new("-0.00").unwrap(), 3).unwrap();
    assert_eq!(limbs, [0, 0, 0, 0]);
    assert_eq!(sign, Sign::NoSign);
}

#[test]
fn field_constants_relate_as_in_the_curve_order() {
    let two = Curve25519Scalar::from_i64(2);
    let ms = Curve25519Scalar::max_signed();
    // 2 * ((order - 1) / 2) + 1 == order == 0 in the field
    assert_eq!(
        two.mul(&ms).add(&Curve25519Scalar::one()),
        Curve25519Scalar::zero()
    );
    assert_eq!(
        Curve25519Scalar::from_i128(-1).add(&Curve25519Scalar::one()),
        Curve25519Scalar::zero()
    );
    assert_eq!(
        Curve25519Scalar::from_i128(1 << 100),
        Curve25519Scalar::from_i64(1 << 50).mul(&Curve25519Scalar::from_i64(1 << 50))
    );
}

#[test]
fn equal_values_match_to_equal_scalars() {
    let a = DecimalUnknown::new("00.15").unwrap();
    let b = DecimalUnknown::new("0.15").unwrap();
    assert_eq!(a.precision(), 4);
    assert_eq!(b.precision(), 3);
    let va = match_decimal::<Curve25519Scalar>(&a, 5).unwrap();
    let vb = match_decimal::<Curve25519Scalar>(&b, 5).unwrap();
    assert_eq!(va, vb);
    assert_eq!(va, Curve25519Scalar::from_i64(15000));
}
