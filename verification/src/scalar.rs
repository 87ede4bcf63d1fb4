//! The prime-field scalar abstraction and its curve25519 instantiation.

use crate::bigint::mul_mod_limbs;
use crate::limbs::{le_u64_nat, limb_base};
use vstd::arithmetic::div_mod::{
    lemma_fundamental_div_mod_converse_mod, lemma_mod_bound, lemma_mod_sub_multiples_vanish,
    lemma_small_mod,
};
use vstd::arithmetic::power2::{lemma2_to64, lemma_pow2_adds, pow2};
use vstd::prelude::*;

verus! {

/// The remainder of an integer modulo a positive modulus, as a natural number.
pub open spec fn int_residue(v: int, m: nat) -> nat {
    (v % (m as int)) as nat
}

/// A prime-field element: ring arithmetic over a fixed prime modulus,
/// construction from machine integers and from a four-limb magnitude, and the
/// constants zero, one and the largest value read as nonnegative under the
/// signed interpretation of the field.
pub trait Scalar: Sized + Copy {
    /// The modulus of the field.
    spec fn modulus() -> nat;

    /// The canonical residue this element stands for.
    spec fn residue(&self) -> nat;

    /// The modulus is nontrivial and large enough to hold any `i128` magnitude.
    proof fn lemma_modulus()
        ensures
            Self::modulus() > pow2(128),
    ;

    /// Every element's residue lies below the modulus.
    proof fn lemma_residue(&self)
        ensures
            self.residue() < Self::modulus(),
    ;

    /// The additive identity.
    fn zero() -> (r: Self)
        ensures
            r.residue() == 0,
    ;

    /// The multiplicative identity.
    fn one() -> (r: Self)
        ensures
            r.residue() == 1,
    ;

    /// The greatest residue that the signed reading takes as nonnegative,
    /// `(modulus - 1) / 2`.
    fn max_signed() -> (r: Self)
        ensures
            r.residue() == (Self::modulus() - 1) / 2,
    ;

    /// Field addition.
    fn add(&self, rhs: &Self) -> (r: Self)
        ensures
            r.residue() == (self.residue() + rhs.residue()) % Self::modulus(),
    ;

    /// Field subtraction.
    fn sub(&self, rhs: &Self) -> (r: Self)
        ensures
            r.residue() == (self.residue() + Self::modulus() - rhs.residue()) % (
            Self::modulus() as int),
    ;

    /// Field multiplication.
    fn mul(&self, rhs: &Self) -> (r: Self)
        ensures
            r.residue() == (self.residue() * rhs.residue()) % Self::modulus(),
    ;

    /// Additive inverse.
    fn neg(&self) -> (r: Self)
        ensures
            r.residue() == (Self::modulus() - self.residue()) % (Self::modulus() as int),
    ;

    /// The element standing for a signed 64-bit integer.
    fn from_i64(v: i64) -> (r: Self)
        ensures
            r.residue() == int_residue(v as int, Self::modulus()),
    ;

    /// The element standing for a signed 128-bit integer.
    fn from_i128(v: i128) -> (r: Self)
        ensures
            r.residue() == int_residue(v as int, Self::modulus()),
    ;

    /// The element standing for an unsigned four-limb magnitude, reduced.
    fn from_limbs(l: &[u64; 4]) -> (r: Self)
        ensures
            r.residue() == le_u64_nat(l@) % Self::modulus(),
    ;
}

/// The four limbs of the curve25519 group order, least significant first.
pub open spec fn group_order_limbs() -> Seq<u64> {
    seq![0x5812631a5cf5d3edu64, 0x14def9dea2f79cd6u64, 0u64, 0x1000000000000000u64]
}

/// The order of the curve25519 scalar field:
/// `2^252 + 27742317777372353535851937790883648493`.
pub open spec fn group_order() -> nat {
    le_u64_nat(group_order_limbs())
}

/// The four limbs of `(group_order() - 1) / 2`, least significant first.
pub open spec fn max_signed_limbs() -> Seq<u64> {
    seq![0x2c09318d2e7ae9f6u64, 0x0a6f7cef517bce6bu64, 0u64, 0x0800000000000000u64]
}

/// The powers of two at the limb boundaries, as numerals.
pub proof fn lemma_pow2_numerals()
    ensures
        pow2(64) == 0x1_0000_0000_0000_0000,
        pow2(128) == 0x1_0000_0000_0000_0000_0000_0000_0000_0000,
        pow2(192) == 0x1_0000_0000_0000_0000_0000_0000_0000_0000_0000_0000_0000_0000,
        pow2(
            256,
        ) == 0x1_0000_0000_0000_0000_0000_0000_0000_0000_0000_0000_0000_0000_0000_0000_0000_0000,
{
    lemma2_to64();
    lemma_pow2_adds(64, 64);
    lemma_pow2_adds(128, 64);
    lemma_pow2_adds(192, 64);
}

/// The value of an explicit four-limb sequence, as a positional sum.
pub proof fn lemma_le_u64_nat_four(a: u64, b: u64, c: u64, d: u64)
    ensures
        le_u64_nat(seq![a, b, c, d]) == a + 0x1_0000_0000_0000_0000 * b
            + 0x1_0000_0000_0000_0000_0000_0000_0000_0000 * c
            + 0x1_0000_0000_0000_0000_0000_0000_0000_0000_0000_0000_0000_0000 * d,
{
    reveal_with_fuel(le_u64_nat, 6);
    let s = seq![a, b, c, d];
    let s1 = s.subrange(1, 4);
    let s2 = s1.subrange(1, 3);
    let s3 = s2.subrange(1, 2);
    let s4 = s3.subrange(1, 1);
    assert(s4 =~= Seq::<u64>::empty());
    assert(le_u64_nat(s3) == d + limb_base() * le_u64_nat(s4));
    assert(le_u64_nat(s2) == c + limb_base() * le_u64_nat(s3));
    assert(le_u64_nat(s1) == b + limb_base() * le_u64_nat(s2));
    assert(le_u64_nat(s) == a + limb_base() * le_u64_nat(s1));
}

/// Positional form of any four-limb sequence.
pub proof fn lemma_le_u64_nat_four_view(s: Seq<u64>)
    requires
        s.len() == 4,
    ensures
        le_u64_nat(s) == s[0] + 0x1_0000_0000_0000_0000 * s[1]
            + 0x1_0000_0000_0000_0000_0000_0000_0000_0000 * s[2]
            + 0x1_0000_0000_0000_0000_0000_0000_0000_0000_0000_0000_0000_0000 * s[3],
{
    assert(s =~= seq![s[0], s[1], s[2], s[3]]);
    lemma_le_u64_nat_four(s[0], s[1], s[2], s[3]);
}

/// Ground facts about the group order that the field operations need.
pub proof fn lemma_group_order_facts()
    ensures
        group_order() > pow2(128),
        2 * group_order() < pow2(256),
        2 * le_u64_nat(max_signed_limbs()) + 1 == group_order(),
        le_u64_nat(max_signed_limbs()) == (group_order() - 1) / 2,
{
    lemma_pow2_numerals();
    lemma_le_u64_nat_four(0x5812631a5cf5d3edu64, 0x14def9dea2f79cd6u64, 0u64, 0x1000000000000000u64);
    lemma_le_u64_nat_four(0x2c09318d2e7ae9f6u64, 0x0a6f7cef517bce6bu64, 0u64, 0x0800000000000000u64);
}

/// Four-limb addition; the caller keeps the sum below `2^256`.
fn add4(a: &[u64; 4], b: &[u64; 4]) -> (r: [u64; 4])
    requires
        le_u64_nat(a@) + le_u64_nat(b@) < pow2(256),
    ensures
        le_u64_nat(r@) == le_u64_nat(a@) + le_u64_nat(b@),
{
    let base: u128 = 0x1_0000_0000_0000_0000;
    let s0: u128 = a[0] as u128 + b[0] as u128;
    let l0 = (s0 % base) as u64;
    let c0 = (s0 / base) as u64;
    let s1: u128 = a[1] as u128 + b[1] as u128 + c0 as u128;
    let l1 = (s1 % base) as u64;
    let c1 = (s1 / base) as u64;
    let s2: u128 = a[2] as u128 + b[2] as u128 + c1 as u128;
    let l2 = (s2 % base) as u64;
    let c2 = (s2 / base) as u64;
    let s3: u128 = a[3] as u128 + b[3] as u128 + c2 as u128;
    let l3 = (s3 % base) as u64;
    let c3 = (s3 / base) as u64;
    let r = [l0, l1, l2, l3];
    proof {
        lemma_pow2_numerals();
        lemma_le_u64_nat_four_view(a@);
        lemma_le_u64_nat_four_view(b@);
        lemma_le_u64_nat_four_view(r@);
        assert(r@[0] == l0 && r@[1] == l1 && r@[2] == l2 && r@[3] == l3);
        assert(s0 == l0 + base * c0 && s1 == l1 + base * c1 && s2 == l2 + base * c2 && s3 == l3
            + base * c3);
        assert(le_u64_nat(a@) + le_u64_nat(b@) == le_u64_nat(r@)
            + 0x1_0000_0000_0000_0000_0000_0000_0000_0000_0000_0000_0000_0000_0000_0000_0000_0000
            * c3);
        assert(c3 == 0);
    }
    r
}

/// Four-limb subtraction of a smaller value.
fn sub4(a: &[u64; 4], b: &[u64; 4]) -> (r: [u64; 4])
    requires
        le_u64_nat(b@) <= le_u64_nat(a@),
    ensures
        le_u64_nat(r@) == le_u64_nat(a@) - le_u64_nat(b@),
{
    let base: u128 = 0x1_0000_0000_0000_0000;
    let d0: u128 = base + a[0] as u128 - b[0] as u128;
    let l0 = (d0 % base) as u64;
    let w0: u128 = 1 - d0 / base;
    let d1: u128 = base + a[1] as u128 - b[1] as u128 - w0;
    let l1 = (d1 % base) as u64;
    let w1: u128 = 1 - d1 / base;
    let d2: u128 = base + a[2] as u128 - b[2] as u128 - w1;
    let l2 = (d2 % base) as u64;
    let w2: u128 = 1 - d2 / base;
    let d3: u128 = base + a[3] as u128 - b[3] as u128 - w2;
    let l3 = (d3 % base) as u64;
    let w3: u128 = 1 - d3 / base;
    let r = [l0, l1, l2, l3];
    proof {
        lemma_pow2_numerals();
        lemma_le_u64_nat_four_view(a@);
        lemma_le_u64_nat_four_view(b@);
        lemma_le_u64_nat_four_view(r@);
        assert(r@[0] == l0 && r@[1] == l1 && r@[2] == l2 && r@[3] == l3);
        assert(d0 == l0 + base * (d0 / base) && d1 == l1 + base * (d1 / base) && d2 == l2 + base
            * (d2 / base) && d3 == l3 + base * (d3 / base));
        assert(le_u64_nat(a@) - le_u64_nat(b@) == le_u64_nat(r@)
            - 0x1_0000_0000_0000_0000_0000_0000_0000_0000_0000_0000_0000_0000_0000_0000_0000_0000
            * w3);
        assert(w3 == 0);
    }
    r
}

/// Whether the first four-limb value is at least the second.
fn geq4(a: &[u64; 4], b: &[u64; 4]) -> (r: bool)
    ensures
        r == (le_u64_nat(a@) >= le_u64_nat(b@)),
{
    proof {
        lemma_le_u64_nat_four_view(a@);
        lemma_le_u64_nat_four_view(b@);
    }
    if a[3] != b[3] {
        a[3] > b[3]
    } else if a[2] != b[2] {
        a[2] > b[2]
    } else if a[1] != b[1] {
        a[1] > b[1]
    } else {
        a[0] >= b[0]
    }
}

/// The curve25519 group-order limbs, as an executable value.
fn order_limbs() -> (r: [u64; 4])
    ensures
        r@ == group_order_limbs(),
{
    let r = [0x5812631a5cf5d3edu64, 0x14def9dea2f79cd6u64, 0u64, 0x1000000000000000u64];
    proof {
        assert(r@ =~= group_order_limbs());
    }
    r
}

/// An element of the curve25519 scalar field, held as a canonical four-limb
/// little-endian magnitude below the group order.
#[derive(Clone, Copy, PartialEq, Eq, Debug, Hash)]
pub struct Curve25519Scalar {
    limbs: [u64; 4],
}

impl Curve25519Scalar {
    /// The stored magnitude is always the canonical residue.
    #[verifier::type_invariant]
    pub closed spec fn canonical(self) -> bool {
        le_u64_nat(self.limbs@) < group_order()
    }
}

impl Scalar for Curve25519Scalar {
    open spec fn modulus() -> nat {
        group_order()
    }

    closed spec fn residue(&self) -> nat {
        le_u64_nat(self.limbs@) % group_order()
    }

    proof fn lemma_modulus() {
        lemma_group_order_facts();
    }

    proof fn lemma_residue(&self) {
        lemma_group_order_facts();
        lemma_mod_bound(le_u64_nat(self.limbs@) as int, group_order() as int);
    }

    fn zero() -> (r: Self) {
        let limbs = [0u64, 0u64, 0u64, 0u64];
        proof {
            lemma_group_order_facts();
            lemma_le_u64_nat_four_view(limbs@);
            lemma_small_mod(0, group_order());
        }
        Curve25519Scalar { limbs }
    }

    fn one() -> (r: Self) {
        let limbs = [1u64, 0u64, 0u64, 0u64];
        proof {
            lemma_group_order_facts();
            lemma_le_u64_nat_four_view(limbs@);
            lemma_small_mod(1, group_order());
        }
        Curve25519Scalar { limbs }
    }

    fn max_signed() -> (r: Self) {
        let limbs = [0x2c09318d2e7ae9f6u64, 0x0a6f7cef517bce6bu64, 0u64, 0x0800000000000000u64];
        proof {
            lemma_group_order_facts();
            assert(limbs@ =~= max_signed_limbs());
            lemma_small_mod(le_u64_nat(max_signed_limbs()), group_order());
        }
        Curve25519Scalar { limbs }
    }

    fn add(&self, rhs: &Self) -> (r: Self) {
        proof {
            use_type_invariant(self);
            use_type_invariant(rhs);
            lemma_group_order_facts();
        }
        let sum = add4(&self.limbs, &rhs.limbs);
        let ord = order_limbs();
        let limbs = if geq4(&sum, &ord) {
            sub4(&sum, &ord)
        } else {
            sum
        };
        proof {
            let x = (le_u64_nat(self.limbs@) + le_u64_nat(rhs.limbs@)) as int;
            let m = group_order() as int;
            if le_u64_nat(sum@) >= group_order() {
                lemma_mod_sub_multiples_vanish(x, m);
                lemma_small_mod((x - m) as nat, group_order());
            } else {
                lemma_small_mod(x as nat, group_order());
            }
            lemma_small_mod(le_u64_nat(self.limbs@), group_order());
            lemma_small_mod(le_u64_nat(rhs.limbs@), group_order());
            lemma_small_mod(le_u64_nat(limbs@), group_order());
        }
        Curve25519Scalar { limbs }
    }

    fn sub(&self, rhs: &Self) -> (r: Self) {
        proof {
            use_type_invariant(self);
            use_type_invariant(rhs);
            lemma_group_order_facts();
        }
        let ord = order_limbs();
        let limbs = if geq4(&self.limbs, &rhs.limbs) {
            sub4(&self.limbs, &rhs.limbs)
        } else {
            let lifted = add4(&self.limbs, &ord);
            sub4(&lifted, &rhs.limbs)
        };
        proof {
            let a = le_u64_nat(self.limbs@) as int;
            let b = le_u64_nat(rhs.limbs@) as int;
            let m = group_order() as int;
            if a >= b {
                lemma_mod_sub_multiples_vanish(a + m - b, m);
                lemma_small_mod((a - b) as nat, group_order());
            } else {
                lemma_small_mod((a + m - b) as nat, group_order());
            }
            lemma_small_mod(le_u64_nat(self.limbs@), group_order());
            lemma_small_mod(le_u64_nat(rhs.limbs@), group_order());
            lemma_small_mod(le_u64_nat(limbs@), group_order());
        }
        Curve25519Scalar { limbs }
    }

    fn mul(&self, rhs: &Self) -> (r: Self) {
        proof {
            use_type_invariant(self);
            use_type_invariant(rhs);
            lemma_group_order_facts();
        }
        let ord = order_limbs();
        let limbs = mul_mod_limbs(&self.limbs, &rhs.limbs, &ord);
        proof {
            lemma_small_mod(le_u64_nat(self.limbs@), group_order());
            lemma_small_mod(le_u64_nat(rhs.limbs@), group_order());
            lemma_small_mod(le_u64_nat(limbs@), group_order());
        }
        Curve25519Scalar { limbs }
    }

    fn neg(&self) -> (r: Self) {
        let z = Self::zero();
        z.sub(self)
    }

    fn from_i64(v: i64) -> (r: Self) {
        proof {
            lemma_group_order_facts();
            lemma_pow2_numerals();
        }
        if v >= 0 {
            let limbs = [v as u64, 0u64, 0u64, 0u64];
            proof {
                lemma_le_u64_nat_four_view(limbs@);
                lemma_small_mod(v as nat, group_order());
            }
            Curve25519Scalar { limbs }
        } else {
            let mag = (-(v as i128)) as u64;
            let limbs = [mag, 0u64, 0u64, 0u64];
            proof {
                lemma_le_u64_nat_four_view(limbs@);
                lemma_small_mod(mag as nat, group_order());
            }
            let pos = Curve25519Scalar { limbs };
            let r = pos.neg();
            proof {
                let m = group_order() as int;
                lemma_small_mod((m - mag) as nat, group_order());
                lemma_fundamental_div_mod_converse_mod(v as int, m, -1, v + m);
            }
            r
        }
    }

    fn from_i128(v: i128) -> (r: Self) {
        proof {
            lemma_group_order_facts();
            lemma_pow2_numerals();
        }
        let base: u128 = 0x1_0000_0000_0000_0000;
        if v >= 0 {
            let u = v as u128;
            let limbs = [(u % base) as u64, (u / base) as u64, 0u64, 0u64];
            proof {
                lemma_le_u64_nat_four_view(limbs@);
                lemma_small_mod(u as nat, group_order());
            }
            Curve25519Scalar { limbs }
        } else {
            let u: u128 = if v == i128::MIN {
                1u128 << 127
            } else {
                (-v) as u128
            };
            proof {
                assert(1u128 << 127 == 0x8000_0000_0000_0000_0000_0000_0000_0000) by (bit_vector);
            }
            let limbs = [(u % base) as u64, (u / base) as u64, 0u64, 0u64];
            proof {
                lemma_le_u64_nat_four_view(limbs@);
                lemma_small_mod(u as nat, group_order());
            }
            let pos = Curve25519Scalar { limbs };
            let r = pos.neg();
            proof {
                let m = group_order() as int;
                lemma_small_mod((m - u) as nat, group_order());
                lemma_fundamental_div_mod_converse_mod(v as int, m, -1, v + m);
            }
            r
        }
    }

    fn from_limbs(l: &[u64; 4]) -> (r: Self) {
        proof {
            lemma_group_order_facts();
        }
        let ord = order_limbs();
        let one = [1u64, 0u64, 0u64, 0u64];
        let limbs = mul_mod_limbs(l, &one, &ord);
        proof {
            lemma_le_u64_nat_four_view(one@);
            assert(le_u64_nat(one@) == 1);
            assert(le_u64_nat(l@) * le_u64_nat(one@) == le_u64_nat(l@)) by (nonlinear_arith)
                requires
                    le_u64_nat(one@) == 1,
            ;
            lemma_small_mod(le_u64_nat(limbs@), group_order());
        }
        Curve25519Scalar { limbs }
    }
}

} // verus!

