use decimal75::{
    get_limbs_and_sign, scale_scalar, ConversionError, ConversionResult, Curve25519Scalar,
    Decimal, DecimalUnknown, Precision, Scalar, Sign, MAX_SUPPORTED_PRECISION,
};

fn precision(value: u8) -> Precision {
    Precision::new(value).unwrap()
}

#[test]
fn we_cannot_scale_past_max_precision() {
    let decimal = DecimalUnknown::new(
        "12345678901234567890123456789012345678901234567890123456789012345678900.0",
    )
    .unwrap();
    assert_eq!(decimal.scale(), 1);
    let target_scale = 30;
    assert!(get_limbs_and_sign(&decimal, target_scale).is_err());
}

#[test]
fn we_can_match_exact_decimals_from_queries_to_db() {
    let decimal = DecimalUnknown::new("123.45").unwrap();
    let target_scale = 2;
    let (limbs, sign) = get_limbs_and_sign(&decimal, target_scale).unwrap();
    assert_eq!(limbs, [12345, 0, 0, 0]);
    assert_eq!(sign, Sign::Plus);
}

#[test]
fn we_can_match_decimals_by_scaling_up() {
    let decimal = DecimalUnknown::new("123.45").unwrap();
    let target_scale = 3;
    let (limbs, sign) = get_limbs_and_sign(&decimal, target_scale).unwrap();
    assert_eq!(limbs, [123450, 0, 0, 0]);
    assert_eq!(sign, Sign::Plus);
}

#[test]
fn we_can_match_integers_by_scaling_up() {
    let decimal = DecimalUnknown::new("12345").unwrap();
    let target_scale = 2;
    let (limbs, sign) = get_limbs_and_sign(&decimal, target_scale).unwrap();
    assert_eq!(limbs, [1234500, 0, 0, 0]);
    assert_eq!(sign, Sign::Plus);
}

#[test]
fn we_can_match_negative_decimals() {
    let decimal = DecimalUnknown::new("-123.45").unwrap();
    let target_scale = 2;
    let (limbs, sign) = get_limbs_and_sign(&decimal, target_scale).unwrap();
    assert_eq!(limbs, [12345, 0, 0, 0]);
    assert_eq!(sign, Sign::Minus);
}

#[test]
fn we_cannot_scale_down_to_match_decimals() {
    let decimal = DecimalUnknown::new("361.0004").unwrap();
    let target_scale = 1;
    // matching down would equate to rounding down which we dont support yet
    assert!(get_limbs_and_sign(&decimal, target_scale).is_err());
}

#[test]
fn we_can_match_decimals_at_extrema() {
    // a big decimal cannot scale up past the supported precision
    let decimal = DecimalUnknown::new(
        "1234567890123456789012345678901234567890123456789012345678901234567890.0",
    )
    .unwrap();
    let target_scale = 30;
    assert!(get_limbs_and_sign(&decimal, target_scale).is_err());

    // maximum decimal value we can support
    let decimal = DecimalUnknown::new(
        "99999999999999999999999999999999999999999999999999999999999999999999999999.0",
    )
    .unwrap();
    let target_scale = 1;
    assert!(get_limbs_and_sign(&decimal, target_scale).is_ok());

    // scaling larger than max will fail
    let decimal = DecimalUnknown::new(
        "99999999999999999999999999999999999999999999999999999999999999999999999999.0",
    )
    .unwrap();
    let target_scale = 2;
    assert!(get_limbs_and_sign(&decimal, target_scale).is_err());

    // smallest possible decimal value we can support (either signed/unsigned)
    let decimal = DecimalUnknown::new(
        "0.00000000000000000000000000000000000000000000000000000000000000000000000001",
    )
    .unwrap();
    // - 1 because of leading zero counting towards precision
    let target_scale = MAX_SUPPORTED_PRECISION as i8 - 1;
    assert!(get_limbs_and_sign(&decimal, target_scale).is_ok());

    // this scales up to boundary successfully
    let decimal = DecimalUnknown::new(
        "0.0000000000000000000000000000000000000000000000000000000000000000000000001",
    )
    .unwrap();
    let target_scale = MAX_SUPPORTED_PRECISION as i8 - 1;
    assert!(get_limbs_and_sign(&decimal, target_scale).is_ok());

    // this exceeds supported precision
    let decimal = DecimalUnknown::new(
        "0.000000000000000000000000000000000000000000000000000000000000000000000000001",
    )
    .unwrap();
    let target_scale = MAX_SUPPORTED_PRECISION as i8 - 1;
    assert!(get_limbs_and_sign(&decimal, target_scale).is_err());

    // this is ok because it can be scaled to 75 precision and trailing
    // zeros do not count towards precision
    let decimal = DecimalUnknown::new(
        "0.000000000000000000000000000000000000000000000000000000000000000000000000010",
    )
    .unwrap();
    let target_scale = MAX_SUPPORTED_PRECISION as i8 - 1;
    assert!(get_limbs_and_sign(&decimal, target_scale).is_ok());

    // this is ok because of trailing zeros
    let decimal = DecimalUnknown::new(
        "99999999999999999999999999999999999999999999999999999999999999999999999999.00000",
    )
    .unwrap();
    let target_scale = 1;
    assert!(get_limbs_and_sign(&decimal, target_scale).is_ok());

    // this exceeds max precision
    let decimal = DecimalUnknown::new(
        "999999999999999999999999999999999999999999999999999999999999999999999999999.1",
    )
    .unwrap();
    let target_scale = 2;
    assert!(get_limbs_and_sign(&decimal, target_scale).is_err());

    // this exceeds max precision
    let decimal = DecimalUnknown::new("1.0").unwrap();
    let target_scale = 75;
    assert!(get_limbs_and_sign(&decimal, target_scale).is_err());

    // but this is ok
    let decimal = DecimalUnknown::new("1.0").unwrap();
    let target_scale = 74;
    assert!(get_limbs_and_sign(&decimal, target_scale).is_ok());
}

#[test]
fn we_can_scale_scalars_up() {
    let s = Curve25519Scalar::from_i64(1);
    assert_eq!(scale_scalar(s, 0).unwrap(), s);
    assert_eq!(scale_scalar(s, 1).unwrap(), Curve25519Scalar::from_i64(10));
    assert_eq!(scale_scalar(s, 2).unwrap(), Curve25519Scalar::from_i64(100));
    assert_eq!(scale_scalar(s, 3).unwrap(), Curve25519Scalar::from_i64(1000));
    let s = Curve25519Scalar::from_i64(-1);
    assert_eq!(scale_scalar(s, 0).unwrap(), s);
    assert_eq!(scale_scalar(s, 1).unwrap(), Curve25519Scalar::from_i64(-10));
    assert_eq!(scale_scalar(s, 2).unwrap(), Curve25519Scalar::from_i64(-100));
    assert_eq!(scale_scalar(s, 3).unwrap(), Curve25519Scalar::from_i64(-1000));
}

#[test]
fn we_can_not_scale_scalars_down() {
    let s = Curve25519Scalar::from_i64(1);
    matches!(
        scale_scalar(s, -1),
        Err(ConversionError::DecimalRoundingError)
    );
}

#[test]
fn we_can_not_reduce_decimal_scale() {
    let s = Curve25519Scalar::from_i64(100);
    let d = Decimal::new(s, precision(19), 4);
    matches!(
        d.with_precision_and_scale(precision(18), 3),
        Err(ConversionError::DecimalRoundingError)
    );
}

#[test]
fn we_can_not_inadequately_increase_decimal_precision_by_scaling() {
    let s = Curve25519Scalar::from_i64(100);
    let d = Decimal::new(s, precision(19), 4);
    matches!(
        d.with_precision_and_scale(precision(21), 7),
        Err(ConversionError::DecimalRoundingError)
    );
}

#[test]
fn we_can_increase_decimal_precision_by_scaling() {
    let s = Curve25519Scalar::from_i64(-134);
    let d = Decimal::new(s, precision(19), 4);
    let expected = Decimal::new(Curve25519Scalar::from_i64(-13400000), precision(25), 9);
    let actual = d.with_precision_and_scale(precision(25), 9).unwrap();
    assert_eq!(expected, actual);
}

#[test]
fn we_can_scale_decimals_to_almost_limit() {
    let s = Curve25519Scalar::from_i64(-134);
    let d = Decimal::new(s, precision(3), 0);
    let ten_e10 = Curve25519Scalar::from_i64(10_000_000_000_i64);
    let expected = Decimal::new(
        Curve25519Scalar::from_i64(-13400)
            .mul(&ten_e10)
            .mul(&ten_e10)
            .mul(&ten_e10)
            .mul(&ten_e10)
            .mul(&ten_e10)
            .mul(&ten_e10)
            .mul(&ten_e10),
        precision(75),
        72,
    );
    println!("{:?}", expected);
    let actual = d.with_precision_and_scale(precision(75), 72).unwrap();
    assert_eq!(expected, actual);
}

#[test]
fn we_can_convert_i64_to_decimal() {
    let decimal: Decimal<Curve25519Scalar> =
        Decimal::from_i64(-91_i64, precision(21), 2_i8).unwrap();
    assert_eq!(decimal.value, Curve25519Scalar::from_i64(-9100));
}

#[test]
fn we_can_not_scale_i64_if_rounding_required() {
    let res_decimal: ConversionResult<Decimal<Curve25519Scalar>> =
        Decimal::from_i64(1_i64, precision(65), 57_i8);
    matches!(res_decimal, Err(ConversionError::DecimalRoundingError));
}

#[test]
fn we_can_convert_i128_to_decimal() {
    let decimal: Decimal<Curve25519Scalar> =
        Decimal::from_i128(12_i128, precision(43), 4_i8).unwrap();
    assert_eq!(decimal.value, Curve25519Scalar::from_i64(120000));
}

#[test]
fn we_can_not_scale_i128_if_rounding_required() {
    let res_decimal: ConversionResult<Decimal<Curve25519Scalar>> =
        Decimal::from_i128(1_i128, precision(43), 27_i8);
    matches!(res_decimal, Err(ConversionError::DecimalRoundingError));
}
