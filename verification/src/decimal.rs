//! Precision-bounded decimals over a field scalar: the `Precision` type, the
//! literal-to-limb decoder, the scale-matching decision table, the scalar
//! scaler and the `Decimal` value type.

use crate::bigint::parse_digits_to_limbs;
use crate::limbs::{
    all_digits, digits_nat, le_u64_nat, lemma_digits_nat_append_zeros, lemma_digits_nat_bound,
    lemma_digits_nat_zero_iff, take_four_limbs, zero_digits,
};
use crate::literal::DecimalUnknown;
use crate::scalar::{int_residue, Scalar};
use vstd::arithmetic::div_mod::{
    lemma_fundamental_div_mod, lemma_fundamental_div_mod_converse_mod, lemma_mod_bound,
    lemma_mod_self_0, lemma_mul_mod_noop_left, lemma_small_mod,
};
use vstd::arithmetic::power::{
    lemma_pow0, lemma_pow_adds, lemma_pow_increases, lemma_pow_positive, pow,
};
use vstd::arithmetic::power2::{lemma2_to64, lemma_pow2_adds, lemma_pow2_strictly_increases, pow2};
use vstd::prelude::*;

verus! {

/// The largest precision the engine supports: no value may carry more
/// significant decimal digits than this.
pub const MAX_SUPPORTED_PRECISION: u8 = 75;

/// The result of every fallible conversion in this crate.
pub type ConversionResult<T> = Result<T, ConversionError>;

/// The two ways a conversion can be refused.
#[derive(Debug, Clone, Copy, PartialEq, Eq)]
pub enum ConversionError {
    /// A precision beyond the supported maximum, stated or reached by widening.
    PrecisionParseError,
    /// An operation that would have to discard digits.
    DecimalRoundingError,
}

/// The sign of a decoded magnitude.
#[derive(Debug, Clone, Copy, PartialEq, Eq)]
pub enum Sign {
    /// A negative nonzero value.
    Minus,
    /// A zero value.
    NoSign,
    /// A positive nonzero value.
    Plus,
}

/// How many zero digits the decoder appends: the wanted widening, clamped by
/// the room left in a 75-character text that counts the minus sign.
pub open spec fn spec_append_count(d: &DecimalUnknown, target: Option<i8>) -> int {
    let want = match target {
        Some(t) => if t > d.spec_scale() {
            t - d.spec_scale()
        } else {
            0
        },
        None => 0,
    };
    let len = d.spec_digits().len() + (if d.spec_negative() {
        1int
    } else {
        0int
    });
    let room = if len < 75 {
        75 - len
    } else {
        0
    };
    if want <= room {
        want
    } else {
        room
    }
}

/// The decoded magnitude: the digit text's value widened by the appended
/// zeros, kept to the low 256 bits.
pub open spec fn spec_decoded_nat(d: &DecimalUnknown, target: Option<i8>) -> nat {
    ((digits_nat(d.spec_digits()) * pow(10, spec_append_count(d, target) as nat)) % (pow2(
        256,
    ) as int)) as nat
}

/// The decoded sign: zero digit text gives no sign at all.
pub open spec fn spec_sign(d: &DecimalUnknown) -> Sign {
    if digits_nat(d.spec_digits()) == 0 {
        Sign::NoSign
    } else if d.spec_negative() {
        Sign::Minus
    } else {
        Sign::Plus
    }
}

/// The matching decision for a literal at `(p, s)` against target scale `t`,
/// evaluated in the table's order.
pub enum MatchStep {
    /// The stated precision already exceeds the maximum.
    TooPrecise,
    /// The literal's scale exceeds the target: digits would be discarded.
    RoundingNeeded,
    /// Widening is wanted and fits: decode at the target scale.
    Widen,
    /// Widening is wanted but would pass the maximum precision.
    WouldOverflow,
    /// The scale already matches or headroom suffices: decode as written.
    Direct,
}

/// The decision table of the scale matcher.
pub open spec fn spec_match_step(p: int, s: int, t: int) -> MatchStep {
    if p > 75 {
        MatchStep::TooPrecise
    } else if s > t {
        MatchStep::RoundingNeeded
    } else if s < t && p + (t - s) <= 75 {
        MatchStep::Widen
    } else if p + t > 75 && t > s {
        MatchStep::WouldOverflow
    } else {
        MatchStep::Direct
    }
}

/// Decode a literal's digit text into a four-limb magnitude and a sign,
/// appending zeros up to the optional target scale.
pub fn decimal_string_to_scaled_limbs(decimal: &DecimalUnknown, scale: Option<i8>) -> (r: (
    [u64; 4],
    Sign,
))
    ensures
        le_u64_nat(r.0@) == spec_decoded_nat(decimal, scale),
        r.1 == spec_sign(decimal),
{
    let digits = decimal.digit_bytes();
    let dscale = decimal.scale();
    let neg = decimal.is_negative();
    let want: usize = match scale {
        Some(t) => if t > dscale {
            (t - dscale) as usize
        } else {
            0
        },
        None => 0,
    };
    let len = digits.len() + (if neg {
        1
    } else {
        0
    });
    let room: usize = if len < 75 {
        75 - len
    } else {
        0
    };
    let append = if want <= room {
        want
    } else {
        room
    };
    proof {
        assert(append == spec_append_count(decimal, scale));
    }
    let mut padded = digits.clone();
    let mut k: usize = 0;
    while k < append
        invariant
            0 <= k <= append,
            padded@ =~= digits@ + zero_digits(k as nat),
        decreases append - k,
    {
        padded.push(48);
        proof {
            assert(padded@ =~= digits@ + zero_digits((k + 1) as nat));
        }
        k += 1;
    }
    proof {
        assert forall|j: int| 0 <= j < padded@.len() implies 48 <= #[trigger] padded@[j]
            <= 57 by {
            if j < digits@.len() {
                assert(padded@[j] == digits@[j]);
            } else {
                assert(padded@[j] == 48);
            }
        }
        lemma_digits_nat_append_zeros(digits@, append as nat);
    }
    let full = parse_digits_to_limbs(padded.as_slice());
    let limbs = take_four_limbs(&full);
    let mut all_zero = true;
    let mut zi: usize = 0;
    while zi < digits.len()
        invariant
            0 <= zi <= digits@.len(),
            all_zero == (forall|j: int| 0 <= j < zi ==> #[trigger] digits@[j] == 48),
        decreases digits@.len() - zi,
    {
        if digits[zi] != 48 {
            all_zero = false;
        }
        zi += 1;
    }
    proof {
        lemma_digits_nat_zero_iff(digits@);
    }
    let sign = if all_zero {
        Sign::NoSign
    } else if neg {
        Sign::Minus
    } else {
        Sign::Plus
    };
    (limbs, sign)
}

/// Apply the decision table: reject what cannot be matched, decode the rest.
pub fn get_limbs_and_sign(d: &DecimalUnknown, scale: i8) -> (r: Result<
    ([u64; 4], Sign),
    ConversionError,
>)
    ensures
        match spec_match_step(d.spec_precision(), d.spec_scale(), scale as int) {
            MatchStep::TooPrecise => r == Err::<([u64; 4], Sign), ConversionError>(
                ConversionError::PrecisionParseError,
            ),
            MatchStep::RoundingNeeded => r == Err::<([u64; 4], Sign), ConversionError>(
                ConversionError::DecimalRoundingError,
            ),
            MatchStep::Widen => r matches Ok(v) && le_u64_nat(v.0@) == spec_decoded_nat(
                d,
                Some(scale),
            ) && v.1 == spec_sign(d),
            MatchStep::WouldOverflow => r == Err::<([u64; 4], Sign), ConversionError>(
                ConversionError::PrecisionParseError,
            ),
            MatchStep::Direct => r matches Ok(v) && le_u64_nat(v.0@) == spec_decoded_nat(d, None)
                && v.1 == spec_sign(d),
        },
{
    let p = d.precision();
    let s = d.scale();
    if p > MAX_SUPPORTED_PRECISION {
        return Err(ConversionError::PrecisionParseError);
    }
    if s > scale {
        return Err(ConversionError::DecimalRoundingError);
    }
    if s < scale && p + (scale - s) as u8 <= MAX_SUPPORTED_PRECISION {
        Ok(decimal_string_to_scaled_limbs(d, Some(scale)))
    } else if p + scale as u8 > MAX_SUPPORTED_PRECISION && scale > s {
        Err(ConversionError::PrecisionParseError)
    } else {
        Ok(decimal_string_to_scaled_limbs(d, None))
    }
}

/// The field element that matching a literal at the target scale returns.
pub open spec fn spec_matched_residue<S: Scalar>(d: &DecimalUnknown, target: Option<i8>) -> nat {
    let raw = spec_decoded_nat(d, target) % S::modulus();
    if spec_sign(d) == Sign::Minus {
        ((S::modulus() - raw) % (S::modulus() as int)) as nat
    } else {
        raw
    }
}

/// Match a literal against a target scale and build the signed field element.
pub fn match_decimal<S: Scalar>(d: &DecimalUnknown, scale: i8) -> (r: Result<S, ConversionError>)
    ensures
        match spec_match_step(d.spec_precision(), d.spec_scale(), scale as int) {
            MatchStep::TooPrecise => r == Err::<S, ConversionError>(
                ConversionError::PrecisionParseError,
            ),
            MatchStep::RoundingNeeded => r == Err::<S, ConversionError>(
                ConversionError::DecimalRoundingError,
            ),
            MatchStep::Widen => r matches Ok(v) && v.residue() == spec_matched_residue::<S>(
                d,
                Some(scale),
            ),
            MatchStep::WouldOverflow => r == Err::<S, ConversionError>(
                ConversionError::PrecisionParseError,
            ),
            MatchStep::Direct => r matches Ok(v) && v.residue() == spec_matched_residue::<S>(
                d,
                None,
            ),
        },
{
    match get_limbs_and_sign(d, scale) {
        Ok((limbs, sign)) => {
            let scalar = S::from_limbs(&limbs);
            match sign {
                Sign::Minus => Ok(scalar.neg()),
                _ => Ok(scalar),
            }
        },
        Err(e) => Err(e),
    }
}

/// Multiply a scalar by `10^scale`; a negative scale is refused.
pub fn scale_scalar<S: Scalar>(s: S, scale: i8) -> (r: Result<S, ConversionError>)
    ensures
        scale < 0 ==> r == Err::<S, ConversionError>(ConversionError::DecimalRoundingError),
        scale >= 0 ==> (r matches Ok(v) && v.residue() == (s.residue() * pow(10, scale as nat))
            % (S::modulus() as int)),
{
    if scale < 0 {
        return Err(ConversionError::DecimalRoundingError);
    }
    let ten = S::from_i64(10);
    proof {
        S::lemma_modulus();
        crate::scalar::lemma_pow2_numerals();
        lemma_small_mod(10, S::modulus());
        S::lemma_residue(&s);
        lemma_pow0(10);
        lemma_small_mod(s.residue(), S::modulus());
    }
    let mut res = s;
    let mut k: i8 = 0;
    while k < scale
        invariant
            0 <= k <= scale,
            ten.residue() == 10,
            S::modulus() > pow2(128),
            res.residue() == (s.residue() * pow(10, k as nat)) % (S::modulus() as int),
        decreases scale - k,
    {
        let ghost prev = res.residue();
        res = res.mul(&ten);
        proof {
            reveal(pow);
            let m = S::modulus() as int;
            let x = s.residue() * pow(10, k as nat);
            lemma_mul_mod_noop_left(x, 10, m);
            assert(x * 10 == s.residue() * pow(10, (k + 1) as nat)) by (nonlinear_arith)
                requires
                    x == s.residue() * pow(10, k as nat),
                    pow(10, (k + 1) as nat) == 10 * pow(10, k as nat),
            ;
        }
        k += 1;
    }
    Ok(res)
}

/// A count of significant decimal digits, kept within `1..=75` at every
/// construction site.
#[derive(Debug, Clone, Copy, PartialEq, Eq, Hash)]
pub struct Precision(u8);

impl Precision {
    /// The bound every `Precision` value satisfies.
    #[verifier::type_invariant]
    closed spec fn in_range(self) -> bool {
        1 <= self.0 <= MAX_SUPPORTED_PRECISION
    }

    /// The number of significant digits this value stands for.
    pub closed spec fn spec_value(&self) -> int {
        self.0 as int
    }

    /// Accept a digit count in `1..=75`, refuse anything else.
    pub fn new(value: u8) -> (r: Result<Self, String>)
        ensures
            r is Ok <==> 1 <= value <= MAX_SUPPORTED_PRECISION,
            r matches Ok(p) ==> p.spec_value() == value,
    {
        if value > MAX_SUPPORTED_PRECISION || value == 0 {
            Err("Precision must be larger than zero and less than 76".to_owned())
        } else {
            Ok(Precision(value))
        }
    }

    /// The stored digit count.
    pub fn value(&self) -> (r: u8)
        ensures
            r as int == self.spec_value(),
            1 <= r <= MAX_SUPPORTED_PRECISION,
    {
        proof {
            use_type_invariant(self);
        }
        self.0
    }
}

/// A decimal value: a field scalar standing for `value * 10^-scale`, carrying
/// its declared precision and scale.
#[derive(Debug, Clone, PartialEq, Eq)]
pub struct Decimal<S: Scalar> {
    /// The raw value of the decimal as a scalar.
    pub value: S,
    /// The precision of the decimal.
    pub precision: Precision,
    /// The scale of the decimal.
    pub scale: i8,
}

impl<S: Scalar> Decimal<S> {
    /// Bundle a scalar with a precision and a scale.
    pub fn new(value: S, precision: Precision, scale: i8) -> (r: Self)
        ensures
            r.value == value,
            r.precision == precision,
            r.scale == scale,
    {
        Decimal { value, precision, scale }
    }

    /// Rescale to a new precision and scale. Shrinking the scale, or growing
    /// it past the precision headroom, is refused; otherwise the value is
    /// multiplied by ten once per added scale step.
    pub fn with_precision_and_scale(&self, new_precision: Precision, new_scale: i8) -> (r: Result<
        Decimal<S>,
        ConversionError,
    >)
        ensures
            ({
                let sf = new_scale - self.scale;
                if sf < 0 || new_precision.spec_value() < self.precision.spec_value() + sf {
                    r == Err::<Decimal<S>, ConversionError>(ConversionError::DecimalRoundingError)
                } else {
                    r matches Ok(d) && d.value.residue() == (self.value.residue() * pow(
                        10,
                        sf as nat,
                    )) % (S::modulus() as int) && d.precision == new_precision && d.scale
                        == new_scale
                }
            }),
    {
        proof {
            use_type_invariant(&self.precision);
            use_type_invariant(&new_precision);
        }
        let scale_factor = new_scale as i16 - self.scale as i16;
        if scale_factor < 0 || (new_precision.value() as i16) < self.precision.value() as i16
            + scale_factor {
            return Err(ConversionError::DecimalRoundingError);
        }
        match scale_scalar(self.value, scale_factor as i8) {
            Ok(scaled_value) => Ok(Decimal::new(scaled_value, new_precision, new_scale)),
            Err(e) => Err(e),
        }
    }

    /// A decimal holding `value * 10^scale`; the precision must leave room
    /// for a 64-bit integer widened by `scale`.
    pub fn from_i64(value: i64, precision: Precision, scale: i8) -> (r: Result<
        Self,
        ConversionError,
    >)
        ensures
            ({
                let p = precision.spec_value();
                if p < 19 || scale < 0 || p < 19 + scale {
                    r == Err::<Decimal<S>, ConversionError>(ConversionError::DecimalRoundingError)
                } else {
                    r matches Ok(d) && d.value.residue() == (int_residue(
                        value as int,
                        S::modulus(),
                    ) * pow(10, scale as nat)) % (S::modulus() as int) && d.precision == precision
                        && d.scale == scale
                }
            }),
    {
        let raw_precision = precision.value();
        if raw_precision < 19 {
            return Err(ConversionError::DecimalRoundingError);
        }
        if scale < 0 || (raw_precision as i16) < 19i16 + scale as i16 {
            return Err(ConversionError::DecimalRoundingError);
        }
        match scale_scalar(S::from_i64(value), scale) {
            Ok(scaled_value) => Ok(Decimal::new(scaled_value, precision, scale)),
            Err(e) => Err(e),
        }
    }

    /// A decimal holding `value * 10^scale`; the precision must leave room
    /// for a 128-bit integer widened by `scale`.
    pub fn from_i128(value: i128, precision: Precision, scale: i8) -> (r: Result<
        Self,
        ConversionError,
    >)
        ensures
            ({
                let p = precision.spec_value();
                if p < 39 || scale < 0 || p < 39 + scale {
                    r == Err::<Decimal<S>, ConversionError>(ConversionError::DecimalRoundingError)
                } else {
                    r matches Ok(d) && d.value.residue() == (int_residue(
                        value as int,
                        S::modulus(),
                    ) * pow(10, scale as nat)) % (S::modulus() as int) && d.precision == precision
                        && d.scale == scale
                }
            }),
    {
        let raw_precision = precision.value();
        if raw_precision < 39 {
            return Err(ConversionError::DecimalRoundingError);
        }
        if scale < 0 || (raw_precision as i16) < 39i16 + scale as i16 {
            return Err(ConversionError::DecimalRoundingError);
        }
        match scale_scalar(S::from_i128(value), scale) {
            Ok(scaled_value) => Ok(Decimal::new(scaled_value, precision, scale)),
            Err(e) => Err(e),
        }
    }
}

/// The signed integer a literal's digit text stands for.
pub open spec fn spec_signed_value(d: &DecimalUnknown) -> int {
    if d.spec_negative() {
        -(digits_nat(d.spec_digits()) as int)
    } else {
        digits_nat(d.spec_digits()) as int
    }
}

/// `10^(3k)` stays within `2^(10k)`.
proof fn lemma_pow10_le_pow2(k: nat)
    ensures
        pow(10, 3 * k) <= pow2(10 * k),
    decreases k,
{
    lemma2_to64();
    if k == 0 {
        lemma_pow0(10);
    } else {
        lemma_pow10_le_pow2((k - 1) as nat);
        lemma_pow_adds(10, 3 * (k - 1) as nat, 3);
        lemma_pow2_adds(10 * (k - 1) as nat, 10);
        assert(pow(10, 3) == 1000) by {
            reveal_with_fuel(pow, 4);
        }
        let p = pow(10, 3 * (k - 1) as nat);
        let q = pow2(10 * (k - 1) as nat) as int;
        lemma_pow_positive(10, 3 * (k - 1) as nat);
        assert(p * 1000 <= q * 1024) by (nonlinear_arith)
            requires
                0 < p <= q,
        ;
        assert(3 * k == 3 * (k - 1) as nat + 3);
        assert(10 * k == 10 * (k - 1) as nat + 10);
    }
}

/// Negation under the modulus: `(-x) % m` is `(m - x % m) % m`.
proof fn lemma_neg_mod(x: int, m: int)
    requires
        m > 0,
        x >= 0,
    ensures
        (-x) % m == (m - (x % m)) % m,
{
    let q = x / m;
    let r = x % m;
    lemma_fundamental_div_mod(x, m);
    lemma_mod_bound(x, m);
    if r == 0 {
        assert(-x == (-q) * m + 0) by (nonlinear_arith)
            requires
                x == m * q + r,
                r == 0,
        ;
        lemma_fundamental_div_mod_converse_mod(-x, m, -q, 0);
        lemma_mod_self_0(m);
    } else {
        assert(-x == (-q - 1) * m + (m - r)) by (nonlinear_arith)
            requires
                x == m * q + r,
        ;
        lemma_fundamental_div_mod_converse_mod(-x, m, -q - 1, m - r);
        lemma_small_mod((m - r) as nat, m as nat);
    }
}

/// Widening is exact: whenever the target scale is at least the literal's and
/// the widened precision stays within the maximum, the decision table accepts
/// the literal, and the matched field element is exactly the literal's signed
/// digit value times `10^(t - scale)`, reduced into the field. A negative
/// literal additionally needs its text, sign included, to fit the 75-character
/// widening buffer.
pub proof fn lemma_matching_widens_exactly<S: Scalar>(d: &DecimalUnknown, t: i8)
    requires
        d.consistent(),
        d.spec_scale() <= t,
        d.spec_precision() + (t - d.spec_scale()) <= 75,
        d.spec_negative() ==> d.spec_digits().len() + 1 + (t - d.spec_scale()) <= 75,
    ensures
        ({
            let step = spec_match_step(d.spec_precision(), d.spec_scale(), t as int);
            let target = if d.spec_scale() < t {
                Some(t)
            } else {
                None::<i8>
            };
            &&& (step == MatchStep::Widen || step == MatchStep::Direct)
            &&& spec_matched_residue::<S>(d, target) == int_residue(
                spec_signed_value(d) * pow(10, (t - d.spec_scale()) as nat),
                S::modulus(),
            )
        }),
{
    S::lemma_modulus();
    crate::scalar::lemma_pow2_numerals();
    let dv = digits_nat(d.spec_digits()) as int;
    let a = (t - d.spec_scale()) as nat;
    let target = if d.spec_scale() < t {
        Some(t)
    } else {
        None::<i8>
    };
    assert(spec_append_count(d, target) == a);
    let lnum = d.spec_digits().len();
    lemma_digits_nat_bound(d.spec_digits());
    lemma_pow_positive(10, a);
    lemma_pow_positive(10, lnum);
    lemma_pow_adds(10, lnum, a);
    assert(lnum + a <= 75);
    lemma_pow_increases(10, lnum + a, 75);
    assert(3 * 25nat == 75 && 10 * 25nat == 250) by (nonlinear_arith);
    lemma_pow10_le_pow2(25);
    lemma_pow2_strictly_increases(250, 256);
    assert(dv * pow(10, a) < pow(10, lnum) * pow(10, a)) by (nonlinear_arith)
        requires
            dv < pow(10, lnum),
            pow(10, a) > 0,
    ;
    assert(dv * pow(10, a) >= 0) by (nonlinear_arith)
        requires
            dv >= 0,
            pow(10, a) > 0,
    ;
    assert(dv * pow(10, a) < pow2(256));
    lemma_small_mod((dv * pow(10, a)) as nat, pow2(256));
    assert(spec_decoded_nat(d, target) == dv * pow(10, a));
    let m = S::modulus() as int;
    assert(m > 2);
    let x = dv * pow(10, a);
    lemma_mod_bound(x, m);
    if d.spec_negative() && dv != 0 {
        assert(spec_sign(d) == Sign::Minus);
        assert(spec_signed_value(d) * pow(10, a) == -x) by (nonlinear_arith)
            requires
                spec_signed_value(d) == -dv,
                x == dv * pow(10, a),
        ;
        lemma_neg_mod(x, m);
    } else if dv == 0 {
        assert(spec_sign(d) != Sign::Minus);
        assert(x == 0) by (nonlinear_arith)
            requires
                dv == 0,
                x == dv * pow(10, a),
        ;
        assert(spec_signed_value(d) == 0);
        lemma_small_mod(0, S::modulus());
    } else {
        assert(spec_sign(d) == Sign::Plus);
    }
}

/// A target scale below the literal's own is always refused as a rounding
/// request, for every literal whose stated precision is within the maximum.
pub proof fn lemma_matching_rejects_scale_decrease(d: &DecimalUnknown, t: i8)
    requires
        d.consistent(),
        d.spec_precision() <= 75,
        (t as int) < d.spec_scale(),
    ensures
        spec_match_step(d.spec_precision(), d.spec_scale(), t as int)
            == MatchStep::RoundingNeeded,
{
}

/// Rescaling a decimal to its own precision and scale is a no-op: any result
/// meeting the rescale contract for those arguments keeps the value, the
/// precision and the scale.
pub proof fn lemma_rescale_same_is_noop<S: Scalar>(
    d: Decimal<S>,
    r: Result<Decimal<S>, ConversionError>,
)
    requires
        ({
            let sf = d.scale - d.scale;
            if sf < 0 || d.precision.spec_value() < d.precision.spec_value() + sf {
                r == Err::<Decimal<S>, ConversionError>(ConversionError::DecimalRoundingError)
            } else {
                r matches Ok(o) && o.value.residue() == (d.value.residue() * pow(10, sf as nat))
                    % (S::modulus() as int) && o.precision == d.precision && o.scale == d.scale
            }
        }),
    ensures
        r matches Ok(o) && o.value.residue() == d.value.residue() && o.precision == d.precision
            && o.scale == d.scale,
{
    S::lemma_modulus();
    S::lemma_residue(&d.value);
    lemma_pow0(10);
    lemma_small_mod(d.value.residue(), S::modulus());
}

/// Scaling by `a` and then by `b` lands on the same residue as scaling once
/// by `a + b`, for all nonnegative `a` and `b`.
pub proof fn lemma_scale_scalar_composes<S: Scalar>(x: S, y: S, a: nat, b: nat)
    requires
        y.residue() == (x.residue() * pow(10, a)) % (S::modulus() as int),
    ensures
        (y.residue() * pow(10, b)) % (S::modulus() as int) == (x.residue() * pow(10, a + b)) % (
        S::modulus() as int),
{
    S::lemma_modulus();
    crate::scalar::lemma_pow2_numerals();
    let m = S::modulus() as int;
    let xr = x.residue() as int;
    lemma_mul_mod_noop_left(xr * pow(10, a), pow(10, b), m);
    lemma_pow_adds(10, a, b);
    assert((xr * pow(10, a)) * pow(10, b) == xr * (pow(10, a) * pow(10, b))) by (nonlinear_arith);
}

/// Matching a negative literal yields the field negation of matching the same
/// digits without the sign, whenever both sides append the same zeros.
pub proof fn lemma_matching_preserves_sign<S: Scalar>(
    dn: &DecimalUnknown,
    dp: &DecimalUnknown,
    target: Option<i8>,
)
    requires
        dn.consistent(),
        dp.consistent(),
        dn.spec_negative(),
        !dp.spec_negative(),
        dn.spec_digits() == dp.spec_digits(),
        dn.spec_scale() == dp.spec_scale(),
        spec_append_count(dn, target) == spec_append_count(dp, target),
    ensures
        spec_matched_residue::<S>(dn, target) == ((S::modulus() - spec_matched_residue::<S>(
            dp,
            target,
        )) % (S::modulus() as int)) as nat,
{
    S::lemma_modulus();
    crate::scalar::lemma_pow2_numerals();
    let m = S::modulus() as int;
    assert(spec_decoded_nat(dn, target) == spec_decoded_nat(dp, target));
    let raw = spec_decoded_nat(dp, target) % S::modulus();
    lemma_mod_bound(spec_decoded_nat(dp, target) as int, m);
    if digits_nat(dp.spec_digits()) == 0 {
        assert(spec_sign(dn) == Sign::NoSign && spec_sign(dp) == Sign::NoSign);
        let k = spec_append_count(dp, target) as nat;
        assert(digits_nat(dp.spec_digits()) * pow(10, k) == 0) by (nonlinear_arith)
            requires
                digits_nat(dp.spec_digits()) == 0,
        ;
        lemma_small_mod(0, pow2(256));
        assert(spec_decoded_nat(dp, target) == 0);
        lemma_small_mod(0, S::modulus());
        assert(raw == 0);
        lemma_mod_self_0(m);
    } else {
        assert(spec_sign(dn) == Sign::Minus && spec_sign(dp) == Sign::Plus);
    }
}

/// Matching is value-determined: two literals standing for the same
/// mathematical value at different precisions and scales, with the same sign
/// and both safely widenable to the target scale, match to the same field
/// element.
pub proof fn lemma_matching_agrees_on_equal_values<S: Scalar>(
    d1: &DecimalUnknown,
    d2: &DecimalUnknown,
    t: i8,
)
    requires
        d1.consistent(),
        d2.consistent(),
        d1.spec_negative() == d2.spec_negative(),
        digits_nat(d1.spec_digits()) * pow(10, d2.spec_scale() as nat) == digits_nat(
            d2.spec_digits(),
        ) * pow(10, d1.spec_scale() as nat),
        d1.spec_scale() <= t,
        d1.spec_precision() + (t - d1.spec_scale()) <= 75,
        d1.spec_negative() ==> d1.spec_digits().len() + 1 + (t - d1.spec_scale()) <= 75,
        d2.spec_scale() <= t,
        d2.spec_precision() + (t - d2.spec_scale()) <= 75,
        d2.spec_negative() ==> d2.spec_digits().len() + 1 + (t - d2.spec_scale()) <= 75,
    ensures
        spec_matched_residue::<S>(
            d1,
            if d1.spec_scale() < t {
                Some(t)
            } else {
                None
            },
        ) == spec_matched_residue::<S>(
            d2,
            if d2.spec_scale() < t {
                Some(t)
            } else {
                None
            },
        ),
{
    lemma_matching_widens_exactly::<S>(d1, t);
    lemma_matching_widens_exactly::<S>(d2, t);
    let dv1 = digits_nat(d1.spec_digits()) as int;
    let dv2 = digits_nat(d2.spec_digits()) as int;
    let s1 = d1.spec_scale() as nat;
    let s2 = d2.spec_scale() as nat;
    let a1 = (t - d1.spec_scale()) as nat;
    let a2 = (t - d2.spec_scale()) as nat;
    let p_s1 = pow(10, s1);
    let p_s2 = pow(10, s2);
    let p_a1 = pow(10, a1);
    let p_a2 = pow(10, a2);
    let p_t = pow(10, t as nat);
    lemma_pow_adds(10, a1, s1);
    lemma_pow_adds(10, a2, s2);
    assert(a1 + s1 == t as nat && a2 + s2 == t as nat);
    lemma_pow_positive(10, s1);
    lemma_pow_positive(10, s2);
    assert((dv1 * p_a1) * (p_s1 * p_s2) == (dv2 * p_a2) * (p_s1 * p_s2)) by (nonlinear_arith)
        requires
            dv1 * p_s2 == dv2 * p_s1,
            p_t == p_a1 * p_s1,
            p_t == p_a2 * p_s2,
    ;
    assert(dv1 * p_a1 == dv2 * p_a2) by (nonlinear_arith)
        requires
            (dv1 * p_a1) * (p_s1 * p_s2) == (dv2 * p_a2) * (p_s1 * p_s2),
            p_s1 > 0,
            p_s2 > 0,
    ;
    if d1.spec_negative() {
        assert(spec_signed_value(d1) == -dv1 && spec_signed_value(d2) == -dv2);
        assert((-dv1) * p_a1 == (-dv2) * p_a2) by (nonlinear_arith)
            requires
                dv1 * p_a1 == dv2 * p_a2,
        ;
    } else {
        assert(spec_signed_value(d1) == dv1 && spec_signed_value(d2) == dv2);
    }
}

} // verus!



