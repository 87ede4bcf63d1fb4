//! Precision-safe decimal normalization over a prime-field scalar.
//!
//! The crate provides a bounded [`Precision`] type, a [`Decimal`] value
//! (scalar value, precision, scale), the matching algorithm that reconciles a
//! decimal literal's own precision and scale with a requested target scale,
//! and the digit-string-to-limb conversion that feeds the field element.

pub mod bigint;
pub mod decimal;
pub mod limbs;
pub mod literal;
pub mod scalar;

pub use decimal::{
    decimal_string_to_scaled_limbs, get_limbs_and_sign, match_decimal, scale_scalar,
    ConversionError, ConversionResult, Decimal, Precision, Sign, MAX_SUPPORTED_PRECISION,
};
pub use literal::DecimalUnknown;
pub use scalar::{Curve25519Scalar, Scalar};
