//! Little-endian positional values: 64-bit limb sequences, byte strings and
//! ASCII decimal digit strings, with the conversions the decimal engine needs.

use vstd::arithmetic::div_mod::{lemma_mod_multiples_vanish, lemma_small_mod};
use vstd::arithmetic::power::{lemma_pow_adds, lemma_pow_positive, pow};
use vstd::arithmetic::power2::{lemma2_to64, lemma_pow2_adds, pow2};
use vstd::bytes::{spec_u64_to_le_bytes, u64_to_le_bytes};
use vstd::prelude::*;

verus! {

/// The radix of one 64-bit limb.
pub open spec fn limb_base() -> nat {
    0x1_0000_0000_0000_0000
}

/// Value of a little-endian sequence of 64-bit limbs.
pub open spec fn le_u64_nat(s: Seq<u64>) -> nat
    decreases s.len(),
{
    if s.len() == 0 {
        0
    } else {
        (s[0] + limb_base() * le_u64_nat(s.subrange(1, s.len() as int))) as nat
    }
}

/// Value of a little-endian byte string.
pub open spec fn le_u8_nat(s: Seq<u8>) -> nat
    decreases s.len(),
{
    if s.len() == 0 {
        0
    } else {
        (s[0] + 256 * le_u8_nat(s.subrange(1, s.len() as int))) as nat
    }
}

/// Value of a big-endian ASCII decimal digit string.
pub open spec fn digits_nat(s: Seq<u8>) -> nat
    decreases s.len(),
{
    if s.len() == 0 {
        0
    } else {
        (10 * digits_nat(s.drop_last()) + (s.last() - 48)) as nat
    }
}

/// Whether every byte of the sequence is an ASCII decimal digit.
pub open spec fn all_digits(s: Seq<u8>) -> bool {
    forall|i: int| 0 <= i < s.len() ==> 48 <= #[trigger] s[i] <= 57
}

/// A run of `k` ASCII zero digits.
pub open spec fn zero_digits(k: nat) -> Seq<u8> {
    Seq::new(k, |i: int| 48u8)
}

pub proof fn lemma_le_u64_nat_bound(s: Seq<u64>)
    ensures
        le_u64_nat(s) < pow2(64 * s.len()),
    decreases s.len(),
{
    lemma2_to64();
    if s.len() == 0 {
    } else {
        let rest = s.subrange(1, s.len() as int);
        lemma_le_u64_nat_bound(rest);
        let r = le_u64_nat(rest);
        let bnd = pow2(64 * rest.len());
        assert(s[0] + pow2(64) * r < pow2(64) * bnd) by (nonlinear_arith)
            requires
                s[0] < pow2(64),
                r < bnd,
                pow2(64) > 0,
        ;
        lemma_pow2_adds(64, 64 * rest.len());
    }
}

pub proof fn lemma_le_u64_nat_split(s: Seq<u64>, k: int)
    requires
        0 <= k <= s.len(),
    ensures
        le_u64_nat(s) == le_u64_nat(s.take(k)) + pow2(64 * k as nat) * le_u64_nat(s.skip(k)),
    decreases k,
{
    lemma2_to64();
    if k == 0 {
        assert(s.skip(0) =~= s);
        assert(s.take(0) =~= Seq::<u64>::empty());
        assert(pow2(64 * k as nat) == 1);
    } else {
        let rest = s.subrange(1, s.len() as int);
        lemma_le_u64_nat_split(rest, k - 1);
        assert(s.take(k).subrange(1, k) =~= rest.take(k - 1));
        assert(s.skip(k) =~= rest.skip(k - 1));
        let x = le_u64_nat(rest.take(k - 1)) as int;
        let y = le_u64_nat(rest.skip(k - 1)) as int;
        let p = pow2(64 * (k - 1) as nat) as int;
        let b = limb_base() as int;
        assert(b == pow2(64));
        assert(le_u64_nat(rest) == x + p * y);
        assert(le_u64_nat(s) == s[0] + b * (x + p * y));
        assert(le_u64_nat(s.take(k)) == s[0] + b * x);
        assert(b * (x + p * y) == b * x + (b * p) * y) by (nonlinear_arith);
        lemma_pow2_adds(64, 64 * (k - 1) as nat);
        assert(64 + 64 * (k - 1) as nat == 64 * k as nat);
        assert(b * p == pow2(64 * k as nat));
        assert(le_u64_nat(s.skip(k)) == y);
        assert((b * p) * y == pow2(64 * k as nat) * le_u64_nat(s.skip(k)));
        assert(le_u64_nat(s) == le_u64_nat(s.take(k)) + pow2(64 * k as nat) * le_u64_nat(s.skip(k)));
    }
}

pub proof fn lemma_le_u8_nat_split(s: Seq<u8>, k: int)
    requires
        0 <= k <= s.len(),
    ensures
        le_u8_nat(s) == le_u8_nat(s.take(k)) + pow2(8 * k as nat) * le_u8_nat(s.skip(k)),
    decreases k,
{
    lemma2_to64();
    if k == 0 {
        assert(s.skip(0) =~= s);
        assert(s.take(0) =~= Seq::<u8>::empty());
        assert(pow2(8 * k as nat) == 1);
    } else {
        let rest = s.subrange(1, s.len() as int);
        lemma_le_u8_nat_split(rest, k - 1);
        assert(s.take(k).subrange(1, k) =~= rest.take(k - 1));
        assert(s.skip(k) =~= rest.skip(k - 1));
        let x = le_u8_nat(rest.take(k - 1)) as int;
        let y = le_u8_nat(rest.skip(k - 1)) as int;
        let p = pow2(8 * (k - 1) as nat) as int;
        let b = 256int;
        assert(b == pow2(8));
        assert(le_u8_nat(rest) == x + p * y);
        assert(le_u8_nat(s) == s[0] + b * (x + p * y));
        assert(le_u8_nat(s.take(k)) == s[0] + b * x);
        assert(b * (x + p * y) == b * x + (b * p) * y) by (nonlinear_arith);
        lemma_pow2_adds(8, 8 * (k - 1) as nat);
        assert(8 + 8 * (k - 1) as nat == 8 * k as nat);
        assert(b * p == pow2(8 * k as nat));
        assert(le_u8_nat(s.skip(k)) == y);
        assert((b * p) * y == pow2(8 * k as nat) * le_u8_nat(s.skip(k)));
        assert(le_u8_nat(s) == le_u8_nat(s.take(k)) + pow2(8 * k as nat) * le_u8_nat(s.skip(k)));
    }
}

pub proof fn lemma_le_u8_nat_concat(a: Seq<u8>, b: Seq<u8>)
    ensures
        le_u8_nat(a + b) == le_u8_nat(a) + pow2(8 * a.len()) * le_u8_nat(b),
{
    lemma_le_u8_nat_split(a + b, a.len() as int);
    assert((a + b).take(a.len() as int) =~= a);
    assert((a + b).skip(a.len() as int) =~= b);
}

pub proof fn lemma_le_u64_nat_singleton(x: u64)
    ensures
        le_u64_nat(seq![x]) == x,
{
    reveal_with_fuel(le_u64_nat, 2);
    assert(seq![x].subrange(1, 1) =~= Seq::<u64>::empty());
}

pub proof fn lemma_le_u64_nat_zeros(s: Seq<u64>)
    requires
        forall|i: int| 0 <= i < s.len() ==> #[trigger] s[i] == 0,
    ensures
        le_u64_nat(s) == 0,
    decreases s.len(),
{
    if s.len() > 0 {
        lemma_le_u64_nat_zeros(s.subrange(1, s.len() as int));
    }
}

/// The little-endian bytes of one 64-bit word carry exactly its value.
pub proof fn lemma_le_u8_nat_of_u64(x: u64)
    ensures
        le_u8_nat(spec_u64_to_le_bytes(x)) == x,
{
    reveal_with_fuel(le_u8_nat, 10);
    vstd::bytes::spec_u64_to_le_bytes_to_open(x);
    let s = spec_u64_to_le_bytes(x);
    let s1 = s.subrange(1, 8);
    let s2 = s1.subrange(1, 7);
    let s3 = s2.subrange(1, 6);
    let s4 = s3.subrange(1, 5);
    let s5 = s4.subrange(1, 4);
    let s6 = s5.subrange(1, 3);
    let s7 = s6.subrange(1, 2);
    let s8 = s7.subrange(1, 1);
    assert(s8 =~= Seq::<u8>::empty());
    assert(le_u8_nat(s) == s[0] + 256 * le_u8_nat(s1));
    assert(le_u8_nat(s1) == s1[0] + 256 * le_u8_nat(s2));
    assert(le_u8_nat(s2) == s2[0] + 256 * le_u8_nat(s3));
    assert(le_u8_nat(s3) == s3[0] + 256 * le_u8_nat(s4));
    assert(le_u8_nat(s4) == s4[0] + 256 * le_u8_nat(s5));
    assert(le_u8_nat(s5) == s5[0] + 256 * le_u8_nat(s6));
    assert(le_u8_nat(s6) == s6[0] + 256 * le_u8_nat(s7));
    assert(le_u8_nat(s7) == s7[0] + 256 * le_u8_nat(s8));
    assert(le_u8_nat(s8) == 0);
    assert((x & 0xff) < 256 && ((x >> 8) & 0xff) < 256 && ((x >> 16) & 0xff) < 256 && ((x >> 24)
        & 0xff) < 256 && ((x >> 32) & 0xff) < 256 && ((x >> 40) & 0xff) < 256 && ((x >> 48) & 0xff)
        < 256 && ((x >> 56) & 0xff) < 256) by (bit_vector);
    assert(s[0] == x & 0xff);
    assert(s1[0] == (x >> 8) & 0xff);
    assert(s2[0] == (x >> 16) & 0xff);
    assert(s3[0] == (x >> 24) & 0xff);
    assert(s4[0] == (x >> 32) & 0xff);
    assert(s5[0] == (x >> 40) & 0xff);
    assert(s6[0] == (x >> 48) & 0xff);
    assert(s7[0] == (x >> 56) & 0xff);
    assert(x == (x & 0xff) + 0x100 * (((x >> 8) & 0xff) + 0x100 * (((x >> 16) & 0xff) + 0x100 * ((
    (x >> 24) & 0xff) + 0x100 * (((x >> 32) & 0xff) + 0x100 * (((x >> 40) & 0xff) + 0x100 * (((x
        >> 48) & 0xff) + 0x100 * ((x >> 56) & 0xff)))))))) by (bit_vector);
}

/// Appending `k` zero digits multiplies a digit string's value by `10^k`.
pub proof fn lemma_digits_nat_append_zeros(s: Seq<u8>, k: nat)
    ensures
        digits_nat(s + zero_digits(k)) == digits_nat(s) * pow(10, k),
    decreases k,
{
    reveal(pow);
    if k == 0 {
        assert(s + zero_digits(0) =~= s);
        assert(digits_nat(s) * pow(10, 0) == digits_nat(s));
    } else {
        lemma_digits_nat_append_zeros(s, (k - 1) as nat);
        let t = s + zero_digits((k - 1) as nat);
        assert(s + zero_digits(k) =~= t.push(48));
        assert(t.push(48).drop_last() =~= t);
        assert(t.push(48).last() == 48);
        assert(digits_nat(t.push(48)) == 10 * digits_nat(t));
        let d = digits_nat(s) as int;
        let p = pow(10, (k - 1) as nat);
        lemma_pow_positive(10, (k - 1) as nat);
        assert(10 * (d * p) == d * (10 * p)) by (nonlinear_arith);
        assert(pow(10, k) == 10 * p);
    }
}

/// A digit string is worth zero exactly when every digit is the zero digit.
pub proof fn lemma_digits_nat_zero_iff(s: Seq<u8>)
    requires
        all_digits(s),
    ensures
        digits_nat(s) == 0 <==> (forall|i: int| 0 <= i < s.len() ==> #[trigger] s[i] == 48),
    decreases s.len(),
{
    if s.len() > 0 {
        assert(all_digits(s.drop_last()));
        lemma_digits_nat_zero_iff(s.drop_last());
        if digits_nat(s) == 0 {
            assert(forall|i: int|
                0 <= i < s.len() ==> #[trigger] s[i] == 48) by {
                assert(forall|i: int|
                    0 <= i < s.len() - 1 ==> #[trigger] s[i] == s.drop_last()[i]);
            }
        }
    }
}

/// A digit string of length `n` is worth less than `10^n`.
pub proof fn lemma_digits_nat_bound(s: Seq<u8>)
    requires
        all_digits(s),
    ensures
        digits_nat(s) < pow(10, s.len()),
    decreases s.len(),
{
    reveal(pow);
    if s.len() == 0 {
        assert(pow(10, 0) == 1);
    } else {
        assert(all_digits(s.drop_last()));
        lemma_digits_nat_bound(s.drop_last());
        let p = pow(10, (s.len() - 1) as nat);
        lemma_pow_positive(10, (s.len() - 1) as nat);
        assert(pow(10, s.len()) == 10 * p);
        assert(10 * digits_nat(s.drop_last()) <= 10 * (p - 1)) by (nonlinear_arith)
            requires
                digits_nat(s.drop_last()) <= p - 1,
        ;
    }
}

/// Keep the low four limbs, padding with zeros: the value modulo `2^256`.
pub fn take_four_limbs(v: &Vec<u64>) -> (r: [u64; 4])
    ensures
        le_u64_nat(r@) == le_u64_nat(v@) % pow2(256),
{
    let l0 = if v.len() > 0 { v[0] } else { 0 };
    let l1 = if v.len() > 1 { v[1] } else { 0 };
    let l2 = if v.len() > 2 { v[2] } else { 0 };
    let l3 = if v.len() > 3 { v[3] } else { 0 };
    let r = [l0, l1, l2, l3];
    proof {
        lemma_le_u64_nat_bound(r@);
        assert(64 * r@.len() == 256);
        if v@.len() >= 4 {
            lemma_le_u64_nat_split(v@, 4);
            assert(v@.take(4) =~= r@);
            lemma_mod_multiples_vanish(
                le_u64_nat(v@.skip(4)) as int,
                le_u64_nat(r@) as int,
                pow2(256) as int,
            );
            lemma_small_mod(le_u64_nat(r@), pow2(256));
        } else {
            let n = v@.len() as int;
            lemma_le_u64_nat_split(r@, n);
            assert(r@.take(n) =~= v@);
            lemma_le_u64_nat_zeros(r@.skip(n));
            lemma_small_mod(le_u64_nat(r@), pow2(256));
        }
    }
    r
}

/// Serialize limbs to the equivalent little-endian byte string.
pub fn limbs_to_le_bytes(l: &[u64]) -> (r: Vec<u8>)
    ensures
        le_u8_nat(r@) == le_u64_nat(l@),
{
    let mut out: Vec<u8> = Vec::new();
    let mut i: usize = 0;
    while i < l.len()
        invariant
            i <= l@.len(),
            out@.len() == 8 * i,
            le_u8_nat(out@) == le_u64_nat(l@.take(i as int)),
        decreases l@.len() - i,
    {
        let x = l[i];
        let mut b = u64_to_le_bytes(x);
        let ghost prev = out@;
        out.append(&mut b);
        proof {
            lemma_le_u8_nat_concat(prev, spec_u64_to_le_bytes(x));
            lemma_le_u8_nat_of_u64(x);
            lemma_le_u64_nat_split(l@.take(i + 1), i as int);
            assert(l@.take(i + 1).take(i as int) =~= l@.take(i as int));
            let tail = l@.take(i + 1).skip(i as int);
            assert(tail =~= seq![x]);
            lemma_le_u64_nat_singleton(x);
            assert(8 * (8 * i as nat) == 64 * i as nat);
        }
        i += 1;
    }
    proof {
        assert(l@.take(l@.len() as int) =~= l@);
    }
    out
}

} // verus!
