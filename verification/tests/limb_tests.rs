use decimal75::{decimal_string_to_scaled_limbs, Curve25519Scalar, DecimalUnknown, Scalar};

#[test]
fn we_can_convert_a_large_decimal_to_limbs() {
    let dec_mid = decimal_string_to_scaled_limbs(
        &DecimalUnknown::new(
            "11579208923731619542357098500868790785.3269984665640564039457584007913129639935",
        )
        .unwrap(),
        None,
    );
    let dec_trailing = decimal_string_to_scaled_limbs(
        &DecimalUnknown::new(
            "115792089237316195423570985008687907853269984665640564039457584007913129639935.0",
        )
        .unwrap(),
        None,
    );
    let dec_leading = decimal_string_to_scaled_limbs(
        &DecimalUnknown::new(
            "11579208923731619542357098500868790785.3269984665640564039457584007913129639935",
        )
        .unwrap(),
        None,
    );

    // max-width i256 is ok for limbs
    let expected: [u64; 4] = [
        0xFFFFFFFFFFFFFFFF,
        0xFFFFFFFFFFFFFFFF,
        0xFFFFFFFFFFFFFFFF,
        0xFFFFFFFFFFFFFFFF,
    ];

    assert_eq!(dec_mid.0, expected);
    assert_eq!(dec_trailing.0, expected);
    assert_eq!(dec_leading.0, expected);
}

#[test]
fn we_can_convert_a_small_decimal_to_limbs() {
    let dec = DecimalUnknown::new("123.456").unwrap();
    let integer_result = decimal_string_to_scaled_limbs(&dec, None);
    let expected: [u64; 4] = [123456, 0, 0, 0];
    assert!(integer_result.0 == expected);
}

#[test]
fn we_can_convert_decimals_correctly_at_curve25519scalar_boundaries() {
    // Test that we parse max signed correctly
    let integer_result = decimal_string_to_scaled_limbs(
        &DecimalUnknown::new(
            "3618502788666131106986593281521497120428558179689953803000975469142727125494",
        )
        .unwrap(),
        None,
    );

    assert_eq!(
        Curve25519Scalar::from_limbs(&integer_result.0),
        Curve25519Scalar::max_signed()
    );

    // Test that we parse min signed +1 properly
    let integer_result = decimal_string_to_scaled_limbs(
        &DecimalUnknown::new(
            "7237005577332262213973186563042994240857116359379907606001950938285454250989",
        )
        .unwrap(),
        None,
    );

    assert_eq!(
        Curve25519Scalar::from_limbs(&integer_result.0),
        Curve25519Scalar::zero()
    );

    // Test that we parse inverses correctly for -1 = p -1
    let integer_result = decimal_string_to_scaled_limbs(
        &DecimalUnknown::new(
            /* curve order Fr, min signed value */
            "7237005577332262213973186563042994240857116359379907606001950938285454250988",
        )
        .unwrap(),
        None,
    );
    assert_eq!(
        Curve25519Scalar::zero().sub(&Curve25519Scalar::one()),
        Curve25519Scalar::from_limbs(&integer_result.0)
    );

    // Test that Fr + 1 is correct
    let integer_result = decimal_string_to_scaled_limbs(
        &DecimalUnknown::new(
            /* curve order Fr */
            "7237005577332262213973186563042994240857116359379907606001950938285454250988",
        )
        .unwrap(),
        None,
    );

    // Test that curve order + 1 = 0
    assert_eq!(
        Curve25519Scalar::zero(),
        Curve25519Scalar::from_limbs(&integer_result.0).add(&Curve25519Scalar::one())
    );
}
