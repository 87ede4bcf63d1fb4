//! Arbitrary-precision steps done through `num_bigint`, behind trusted
//! wrappers with exact arithmetic contracts.

use crate::limbs::{
    all_digits, digits_nat, le_u64_nat, le_u8_nat, lemma_le_u64_nat_bound, limbs_to_le_bytes,
    take_four_limbs,
};
use vstd::arithmetic::div_mod::{lemma_mod_bound, lemma_small_mod};
use vstd::arithmetic::power2::pow2;
use vstd::prelude::*;

verus! {

/// Relies on `num_bigint::BigUint::parse_bytes` with radix 10, which reads an
/// ASCII decimal digit string as the number it writes, and on
/// `BigUint::to_u64_digits`, which returns the value's little-endian 64-bit
/// words.
#[verifier::external_body]
pub(crate) fn parse_digits_to_limbs(digits: &[u8]) -> (r: Vec<u64>)
    requires
        digits@.len() > 0,
        all_digits(digits@),
    ensures
        le_u64_nat(r@) == digits_nat(digits@),
{
    num_bigint::BigUint::parse_bytes(digits, 10).unwrap().to_u64_digits()
}

/// Relies on `num_bigint::BigUint::from_bytes_le`, which reads a little-endian
/// byte string, on `*`, which multiplies exactly, and on
/// `BigUint::to_u64_digits`.
#[verifier::external_body]
pub(crate) fn big_mul_le_bytes(a: &[u8], b: &[u8]) -> (r: Vec<u64>)
    ensures
        le_u64_nat(r@) == le_u8_nat(a@) * le_u8_nat(b@),
{
    (num_bigint::BigUint::from_bytes_le(a) * num_bigint::BigUint::from_bytes_le(b)).to_u64_digits()
}

/// Relies on `num_bigint::BigUint::from_bytes_le`, on `%`, which takes the
/// exact nonnegative remainder, and on `BigUint::to_u64_digits`.
#[verifier::external_body]
pub(crate) fn big_rem_le_bytes(a: &[u8], m: &[u8]) -> (r: Vec<u64>)
    requires
        le_u8_nat(m@) > 0,
    ensures
        le_u64_nat(r@) == le_u8_nat(a@) % le_u8_nat(m@),
{
    (num_bigint::BigUint::from_bytes_le(a) % num_bigint::BigUint::from_bytes_le(m)).to_u64_digits()
}

/// `(a * b) % m` over four-limb little-endian values, for `m > 0`.
pub fn mul_mod_limbs(a: &[u64; 4], b: &[u64; 4], m: &[u64; 4]) -> (r: [u64; 4])
    requires
        le_u64_nat(m@) > 0,
    ensures
        le_u64_nat(r@) == (le_u64_nat(a@) * le_u64_nat(b@)) % le_u64_nat(m@),
        le_u64_nat(r@) < le_u64_nat(m@),
{
    let ab = big_mul_le_bytes(
        limbs_to_le_bytes(a.as_slice()).as_slice(),
        limbs_to_le_bytes(b.as_slice()).as_slice(),
    );
    let mb = limbs_to_le_bytes(m.as_slice());
    let rem = big_rem_le_bytes(limbs_to_le_bytes(ab.as_slice()).as_slice(), mb.as_slice());
    proof {
        lemma_mod_bound(
            (le_u64_nat(a@) * le_u64_nat(b@)) as int,
            le_u64_nat(m@) as int,
        );
        lemma_le_u64_nat_bound(m@);
        assert(64 * m@.len() == 256);
        lemma_small_mod(le_u64_nat(rem@), pow2(256));
    }
    take_four_limbs(&rem)
}

} // verus!
