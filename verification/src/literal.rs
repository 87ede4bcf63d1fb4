//! The raw decimal literal: sign, digit text, implied precision and scale,
//! as an external SQL parser hands them over.

use crate::limbs::all_digits;
use vstd::prelude::*;
use vstd::string::StringSliceAdditionalSpecFns;

verus! {

/// Whether a byte is an ASCII decimal digit.
pub open spec fn is_digit(b: u8) -> bool {
    48 <= b <= 57
}

/// Whether the literal text starts with an ASCII minus sign.
pub open spec fn lit_negative(s: Seq<u8>) -> bool {
    s.len() > 0 && s[0] == 45
}

/// The literal text with any leading minus sign removed.
pub open spec fn lit_body(s: Seq<u8>) -> Seq<u8> {
    if lit_negative(s) {
        s.skip(1)
    } else {
        s
    }
}

/// The index of the first ASCII point in the sequence, or its length.
pub open spec fn dot_pos(s: Seq<u8>) -> int
    decreases s.len(),
{
    if s.len() == 0 {
        0
    } else if s[0] == 46 {
        0
    } else {
        1 + dot_pos(s.skip(1))
    }
}

/// The digits before the point.
pub open spec fn int_digits(s: Seq<u8>) -> Seq<u8> {
    lit_body(s).take(dot_pos(lit_body(s)))
}

/// The digits after the point, empty when there is no point.
pub open spec fn frac_digits(s: Seq<u8>) -> Seq<u8> {
    let b = lit_body(s);
    if dot_pos(b) == b.len() {
        Seq::empty()
    } else {
        b.skip(dot_pos(b) + 1)
    }
}

/// The sequence with its trailing ASCII zero digits removed.
pub open spec fn trim_zeros(s: Seq<u8>) -> Seq<u8>
    decreases s.len(),
{
    if s.len() > 0 && s.last() == 48 {
        trim_zeros(s.drop_last())
    } else {
        s
    }
}

/// Whether the text reads `(-)?digits(.digits)?`.
pub open spec fn valid_literal(s: Seq<u8>) -> bool {
    let b = lit_body(s);
    let p = dot_pos(b);
    &&& b.len() > 0
    &&& p > 0
    &&& forall|i: int| 0 <= i < p ==> is_digit(#[trigger] b[i])
    &&& (p < b.len() ==> p + 1 < b.len())
    &&& forall|i: int| p < i < b.len() ==> is_digit(#[trigger] b[i])
}

/// Whether the literal carries a decimal point.
pub open spec fn lit_has_point(s: Seq<u8>) -> bool {
    dot_pos(lit_body(s)) < lit_body(s).len()
}

/// The stored digit text: integer digits, then the fraction with its
/// trailing zeros removed.
pub open spec fn lit_digits(s: Seq<u8>) -> Seq<u8> {
    int_digits(s) + trim_zeros(frac_digits(s))
}

/// The implied scale: the trimmed fraction's length, but at least one
/// whenever the literal carries a point.
pub open spec fn lit_scale(s: Seq<u8>) -> int {
    if !lit_has_point(s) {
        0
    } else if trim_zeros(frac_digits(s)).len() == 0 {
        1
    } else {
        trim_zeros(frac_digits(s)).len() as int
    }
}

/// The implied precision: integer digits plus the implied scale.
pub open spec fn lit_precision(s: Seq<u8>) -> int {
    int_digits(s).len() + lit_scale(s)
}

/// Where the first point sits: no point before it, and a point at it if it
/// lies inside the sequence.
pub proof fn lemma_dot_pos_charac(s: Seq<u8>)
    ensures
        0 <= dot_pos(s) <= s.len(),
        dot_pos(s) < s.len() ==> s[dot_pos(s)] == 46,
        forall|j: int| 0 <= j < dot_pos(s) ==> #[trigger] s[j] != 46,
    decreases s.len(),
{
    if s.len() == 0 {
    } else if s[0] == 46 {
    } else {
        let t = s.skip(1);
        lemma_dot_pos_charac(t);
        assert(dot_pos(s) == 1 + dot_pos(t));
        assert forall|j: int| 0 <= j < dot_pos(s) implies #[trigger] s[j] != 46 by {
            if j >= 1 {
                assert(s[j] == t[j - 1]);
            }
        }
        if dot_pos(s) < s.len() {
            assert(s[dot_pos(s)] == t[dot_pos(t)]);
        }
    }
}

/// An index with those properties is the first point's index.
pub proof fn lemma_dot_pos_converse(s: Seq<u8>, p: int)
    requires
        0 <= p <= s.len(),
        p < s.len() ==> s[p] == 46,
        forall|j: int| 0 <= j < p ==> #[trigger] s[j] != 46,
    ensures
        dot_pos(s) == p,
    decreases s.len(),
{
    if s.len() == 0 {
    } else if s[0] == 46 {
        assert(p == 0);
    } else {
        assert(p >= 1);
        let t = s.skip(1);
        assert(forall|j: int| 0 <= j < p - 1 ==> #[trigger] t[j] != 46);
        lemma_dot_pos_converse(t, p - 1);
    }
}

/// The trimmed sequence is the prefix that ends at the last nonzero digit.
pub proof fn lemma_trim_zeros_charac(s: Seq<u8>)
    ensures
        trim_zeros(s).len() <= s.len(),
        trim_zeros(s) == s.take(trim_zeros(s).len() as int),
        trim_zeros(s).len() > 0 ==> s[trim_zeros(s).len() - 1] != 48,
        forall|j: int| trim_zeros(s).len() <= j < s.len() ==> #[trigger] s[j] == 48,
    decreases s.len(),
{
    if s.len() > 0 && s.last() == 48 {
        let t = s.drop_last();
        lemma_trim_zeros_charac(t);
        assert(t == s.take(s.len() - 1));
        let m = trim_zeros(s).len() as int;
        assert(trim_zeros(s) == trim_zeros(t));
        assert(t.take(m) =~= s.take(m));
        if m > 0 {
            assert(s[m - 1] == t[m - 1]);
        }
        assert forall|j: int| m <= j < s.len() implies #[trigger] s[j] == 48 by {
            if j < s.len() - 1 {
                assert(s[j] == t[j]);
            } else {
                assert(s[j] == s.last());
            }
        }
    } else {
        assert(s.take(s.len() as int) =~= s);
    }
}

/// A prefix bounded by a run of zero digits is the trimmed sequence.
pub proof fn lemma_trim_zeros_converse(s: Seq<u8>, m: int)
    requires
        0 <= m <= s.len(),
        m > 0 ==> s[m - 1] != 48,
        forall|j: int| m <= j < s.len() ==> #[trigger] s[j] == 48,
    ensures
        trim_zeros(s) == s.take(m),
    decreases s.len(),
{
    if s.len() > 0 && s.last() == 48 {
        assert(m < s.len());
        let t = s.drop_last();
        assert(t == s.take(s.len() - 1));
        lemma_trim_zeros_converse(t, m);
        assert(t.take(m) =~= s.take(m));
    } else {
        if s.len() > 0 {
            assert(m == s.len());
        }
        assert(s.take(s.len() as int) =~= s);
    }
}

/// The index of the first point at or after `start`, or the length.
fn scan_dot(bytes: &[u8], start: usize) -> (p: usize)
    requires
        start <= bytes@.len(),
    ensures
        start <= p <= bytes@.len(),
        forall|j: int| start <= j < p ==> #[trigger] bytes@[j] != 46,
        p < bytes@.len() ==> bytes@[p as int] == 46,
{
    let n = bytes.len();
    let mut p = start;
    while p < n && bytes[p] != 46
        invariant
            start <= p <= n == bytes@.len(),
            forall|j: int| start <= j < p ==> #[trigger] bytes@[j] != 46,
        decreases n - p,
    {
        p += 1;
    }
    p
}

/// Whether every byte in `[from, to)` is a decimal digit.
fn digits_in_range(bytes: &[u8], from: usize, to: usize) -> (ok: bool)
    requires
        from <= to <= bytes@.len(),
    ensures
        ok == forall|j: int| from <= j < to ==> is_digit(#[trigger] bytes@[j]),
{
    let mut i = from;
    while i < to
        invariant
            from <= i <= to <= bytes@.len(),
            forall|j: int| from <= j < i ==> is_digit(#[trigger] bytes@[j]),
        decreases to - i,
    {
        let b = bytes[i];
        if b < 48 || b > 57 {
            return false;
        }
        i += 1;
    }
    true
}

/// The end of the text once trailing zero digits are dropped, down to `from`.
fn trim_end_zeros(bytes: &[u8], from: usize) -> (fe: usize)
    requires
        from <= bytes@.len(),
    ensures
        from <= fe <= bytes@.len(),
        forall|k: int| fe <= k < bytes@.len() ==> #[trigger] bytes@[k] == 48,
        fe > from ==> bytes@[fe - 1] != 48,
{
    let n = bytes.len();
    let mut fe = n;
    while fe > from && bytes[fe - 1] == 48
        invariant
            from <= fe <= n == bytes@.len(),
            forall|k: int| fe <= k < n ==> #[trigger] bytes@[k] == 48,
        decreases fe,
    {
        fe -= 1;
    }
    fe
}

/// Append the bytes of `[from, to)` to `out`.
fn push_range(bytes: &[u8], from: usize, to: usize, out: &mut Vec<u8>)
    requires
        from <= to <= bytes@.len(),
    ensures
        final(out)@ == old(out)@ + bytes@.subrange(from as int, to as int),
{
    let mut i = from;
    while i < to
        invariant
            from <= i <= to <= bytes@.len(),
            out@ =~= old(out)@ + bytes@.subrange(from as int, i as int),
        decreases to - i,
    {
        out.push(bytes[i]);
        proof {
            assert(out@ =~= old(out)@ + bytes@.subrange(from as int, i + 1));
        }
        i += 1;
    }
    proof {
        assert(out@ =~= old(out)@ + bytes@.subrange(from as int, to as int));
    }
}

/// A raw decimal literal: sign, stored digit text, implied precision and
/// implied scale, exactly as the matching algorithm consumes them.
pub struct DecimalUnknown {
    negative: bool,
    digits: Vec<u8>,
    precision: u8,
    scale: i8,
}

impl DecimalUnknown {
    /// The stored fields stay consistent: at least one digit, digits only,
    /// a nonnegative scale, and a precision covering digits and scale.
    #[verifier::type_invariant]
    closed spec fn wf(self) -> bool {
        &&& self.digits@.len() >= 1
        &&& all_digits(self.digits@)
        &&& self.scale >= 0
        &&& self.digits@.len() <= self.precision
        &&& self.scale < self.precision
    }

    /// Whether the literal is negative.
    pub closed spec fn spec_negative(&self) -> bool {
        self.negative
    }

    /// The stored digit text.
    pub closed spec fn spec_digits(&self) -> Seq<u8> {
        self.digits@
    }

    /// The implied precision.
    pub closed spec fn spec_precision(&self) -> int {
        self.precision as int
    }

    /// The implied scale.
    pub closed spec fn spec_scale(&self) -> int {
        self.scale as int
    }

    /// What holds of every literal value by construction; executable code
    /// recovers it from the type invariant.
    pub open spec fn consistent(&self) -> bool {
        &&& self.spec_digits().len() >= 1
        &&& all_digits(self.spec_digits())
        &&& 0 <= self.spec_scale() <= 127
        &&& self.spec_digits().len() <= self.spec_precision()
        &&& self.spec_scale() < self.spec_precision()
        &&& self.spec_precision() <= 255
    }


    /// Read a literal matching `(-)?digits(.digits)?` whose implied scale
    /// fits `i8` and implied precision fits `u8`; reject anything else.
    #[verifier::rlimit(30)]
    pub fn new(s: &str) -> (r: Option<DecimalUnknown>)
        ensures
            match r {
                Some(d) => {
                    &&& valid_literal(s.spec_bytes())
                    &&& lit_scale(s.spec_bytes()) <= 127
                    &&& lit_precision(s.spec_bytes()) <= 255
                    &&& d.spec_negative() == lit_negative(s.spec_bytes())
                    &&& d.spec_digits() == lit_digits(s.spec_bytes())
                    &&& d.spec_scale() == lit_scale(s.spec_bytes())
                    &&& d.spec_precision() == lit_precision(s.spec_bytes())
                },
                None => !(valid_literal(s.spec_bytes()) && lit_scale(s.spec_bytes()) <= 127
                    && lit_precision(s.spec_bytes()) <= 255),
            },
    {
        let bytes = s.as_bytes();
        let n = bytes.len();
        let ghost bs = s.spec_bytes();
        let neg = n > 0 && bytes[0] == 45;
        let start: usize = if neg {
            1
        } else {
            0
        };
        if n == start {
            return None;
        }
        let ghost body = lit_body(bs);
        proof {
            assert(body =~= bs.skip(start as int));
            assert(forall|j: int| 0 <= j < body.len() ==> #[trigger] body[j] == bs[start + j]);
        }
        let p = scan_dot(bytes, start);
        proof {
            lemma_dot_pos_converse(body, p - start);
        }
        if p == start {
            return None;
        }
        if !digits_in_range(bytes, start, p) {
            proof {
                if valid_literal(bs) {
                    assert forall|j: int| start <= j < p implies is_digit(
                        #[trigger] bytes@[j],
                    ) by {
                        assert(body[j - start] == bs[j]);
                        assert(is_digit(body[j - start]));
                    }
                }
            }
            return None;
        }
        let has_point = p < n;
        if has_point && p + 1 == n {
            return None;
        }
        if has_point && !digits_in_range(bytes, p + 1, n) {
            proof {
                if valid_literal(bs) {
                    assert forall|j: int| p + 1 <= j < n implies is_digit(
                        #[trigger] bytes@[j],
                    ) by {
                        assert(body[j - start] == bs[j]);
                        assert(is_digit(body[j - start]));
                    }
                }
            }
            return None;
        }
        proof {
            assert(valid_literal(bs)) by {
                assert(forall|k: int|
                    0 <= k < p - start ==> is_digit(#[trigger] body[k]) && body[k] == bs[start
                        + k]);
                assert(forall|k: int|
                    p - start < k < body.len() ==> is_digit(#[trigger] body[k]) && body[k]
                        == bs[start + k]);
            }
        }
        let fe: usize = if has_point {
            trim_end_zeros(bytes, p + 1)
        } else {
            n
        };
        let ghost frac = frac_digits(bs);
        let ghost m = if has_point {
            fe - (p + 1) as int
        } else {
            0
        };
        proof {
            if has_point {
                assert(frac =~= bs.subrange(p + 1, n as int));
                assert(forall|k: int| 0 <= k < frac.len() ==> #[trigger] frac[k] == bs[p + 1 + k]);
                lemma_trim_zeros_converse(frac, m);
                assert(trim_zeros(frac) == frac.take(m));
            } else {
                assert(frac =~= Seq::<u8>::empty());
            }
            assert(trim_zeros(frac).len() == m);
        }
        let frac_len: usize = if has_point {
            fe - (p + 1)
        } else {
            0
        };
        let scale_val: usize = if !has_point {
            0
        } else if frac_len == 0 {
            1
        } else {
            frac_len
        };
        proof {
            assert(scale_val == lit_scale(bs));
        }
        if scale_val > 127 {
            return None;
        }
        let int_len = p - start;
        proof {
            assert(int_digits(bs) =~= bs.subrange(start as int, p as int));
            assert(int_digits(bs).len() == int_len);
        }
        if int_len > 255 - scale_val {
            return None;
        }
        let prec = int_len + scale_val;
        let mut digits: Vec<u8> = Vec::new();
        push_range(bytes, start, p, &mut digits);
        if has_point {
            push_range(bytes, p + 1, fe, &mut digits);
        }
        proof {
            if has_point {
                assert(trim_zeros(frac) =~= bs.subrange(p + 1, fe as int));
                assert(digits@ =~= bs.subrange(start as int, p as int) + bs.subrange(
                    p + 1,
                    fe as int,
                ));
            } else {
                assert(trim_zeros(frac) =~= Seq::<u8>::empty());
                assert(digits@ =~= bs.subrange(start as int, p as int));
            }
            assert(digits@ =~= lit_digits(bs));
            assert(all_digits(digits@)) by {
                assert(forall|k: int|
                    0 <= k < digits@.len() ==> #[trigger] digits@[k] == lit_digits(bs)[k]);
                assert(forall|k: int|
                    0 <= k < lit_digits(bs).len() ==> is_digit(#[trigger] lit_digits(bs)[k]));
            }
        }
        Some(
            DecimalUnknown {
                negative: neg,
                digits,
                precision: prec as u8,
                scale: scale_val as i8,
            },
        )
    }

    /// The implied precision of the literal.
    pub fn precision(&self) -> (r: u8)
        ensures
            r as int == self.spec_precision(),
            self.consistent(),
    {
        proof {
            use_type_invariant(self);
        }
        self.precision
    }

    /// The implied scale of the literal.
    pub fn scale(&self) -> (r: i8)
        ensures
            r as int == self.spec_scale(),
            self.consistent(),
    {
        proof {
            use_type_invariant(self);
        }
        self.scale
    }

    /// Whether the literal is negative.
    pub fn is_negative(&self) -> (r: bool)
        ensures
            r == self.spec_negative(),
            self.consistent(),
    {
        proof {
            use_type_invariant(self);
        }
        self.negative
    }

    /// The stored digit text.
    pub(crate) fn digit_bytes(&self) -> (r: &Vec<u8>)
        ensures
            r@ == self.spec_digits(),
            self.consistent(),
    {
        proof {
            use_type_invariant(self);
        }
        &self.digits
    }
}

} // verus!

