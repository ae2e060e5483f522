//! The exact-decimal adapter for persisted non-negative big integers: a value
//! travels to the numeric column as an exact decimal with no fractional part
//! and is reconstructed losslessly on read; fractional and negative decimals
//! are refused.

use vstd::prelude::*;
use vstd::arithmetic::div_mod::{
    lemma_fundamental_div_mod, lemma_fundamental_div_mod_converse, lemma_small_mod,
};

verus! {

/// Ten to the given power.
pub open spec fn pow10(n: nat) -> nat
    decreases n,
{
    if n == 0 {
        1
    } else {
        10 * pow10((n - 1) as nat)
    }
}

/// Whether every entry of a digit sequence is below ten.
pub open spec fn digit_seq_valid(s: Seq<u8>) -> bool {
    forall|i: int| 0 <= i < s.len() ==> (#[trigger] s[i]) < 10
}

/// Canonical big-endian decimal digits: each below ten, with no leading zero;
/// the number zero is the empty sequence.
pub open spec fn canonical_digits(s: Seq<u8>) -> bool {
    digit_seq_valid(s) && (s.len() == 0 || s[0] != 0)
}

/// The number a big-endian decimal digit sequence denotes.
pub open spec fn digits_value(s: Seq<u8>) -> nat
    decreases s.len(),
{
    if s.len() == 0 {
        0
    } else {
        10 * digits_value(s.drop_last()) + (s.last() as nat)
    }
}

pub proof fn lemma_pow10_pos(n: nat)
    ensures
        pow10(n) >= 1,
    decreases n,
{
    if n > 0 {
        lemma_pow10_pos((n - 1) as nat);
    }
}

pub proof fn lemma_pow10_mono(a: nat, b: nat)
    requires
        a <= b,
    ensures
        pow10(a) <= pow10(b),
    decreases b,
{
    if a < b {
        lemma_pow10_mono(a, (b - 1) as nat);
        lemma_pow10_pos((b - 1) as nat);
    }
}

pub proof fn lemma_digits_value_upper(s: Seq<u8>)
    requires
        digit_seq_valid(s),
    ensures
        digits_value(s) < pow10(s.len()),
    decreases s.len(),
{
    if s.len() > 0 {
        assert(digit_seq_valid(s.drop_last()));
        lemma_digits_value_upper(s.drop_last());
        assert(s.last() < 10);
    }
}

pub proof fn lemma_digits_value_zero(s: Seq<u8>)
    requires
        digit_seq_valid(s),
    ensures
        (digits_value(s) == 0) <==> (forall|i: int| 0 <= i < s.len() ==> (#[trigger] s[i]) == 0),
    decreases s.len(),
{
    if s.len() > 0 {
        assert(digit_seq_valid(s.drop_last()));
        lemma_digits_value_zero(s.drop_last());
        if digits_value(s) == 0 {
            assert forall|i: int| 0 <= i < s.len() implies (#[trigger] s[i]) == 0 by {
                if i < s.len() - 1 {
                    assert(s.drop_last()[i] == 0);
                } else {
                    assert(s.last() == 0);
                }
            }
        } else {
            if forall|i: int| 0 <= i < s.len() ==> (#[trigger] s[i]) == 0 {
                assert forall|i: int| 0 <= i < s.drop_last().len() implies (
                #[trigger] s.drop_last()[i]) == 0 by {
                    assert(s[i] == 0);
                }
                assert(s.last() == 0);
                assert(false);
            }
        }
    }
}

pub proof fn lemma_digits_value_concat(a: Seq<u8>, b: Seq<u8>)
    ensures
        digits_value(a + b) == digits_value(a) * pow10(b.len()) + digits_value(b),
    decreases b.len(),
{
    if b.len() == 0 {
        assert(a + b =~= a);
        assert(digits_value(a) * 1 == digits_value(a));
    } else {
        lemma_digits_value_concat(a, b.drop_last());
        assert((a + b).drop_last() =~= a + b.drop_last());
        assert((a + b).last() == b.last());
        let x = digits_value(a);
        let p = pow10((b.len() - 1) as nat);
        assert(pow10(b.len()) == 10 * p);
        assert(10 * (x * p) == x * (10 * p)) by (nonlinear_arith);
    }
}

/// Splitting a digit sequence before its last `k` digits splits its value
/// into quotient and remainder by ten to the `k`.
pub proof fn lemma_digits_split(s: Seq<u8>, k: nat)
    requires
        digit_seq_valid(s),
        k <= s.len(),
    ensures
        digits_value(s) % pow10(k) == digits_value(s.skip(s.len() - k)),
        digits_value(s) / pow10(k) == digits_value(s.take(s.len() - k)),
{
    let a = s.take(s.len() - k);
    let b = s.skip(s.len() - k);
    assert(s =~= a + b);
    lemma_digits_value_concat(a, b);
    assert(digit_seq_valid(b)) by {
        assert forall|i: int| 0 <= i < b.len() implies (#[trigger] b[i]) < 10 by {
            assert(b[i] == s[s.len() - k + i]);
        }
    }
    lemma_digits_value_upper(b);
    lemma_pow10_pos(k);
    lemma_fundamental_div_mod_converse(
        digits_value(s) as int,
        pow10(k) as int,
        digits_value(a) as int,
        digits_value(b) as int,
    );
}

/// Two canonical digit sequences denoting the same number are the same
/// sequence.
pub proof fn lemma_canonical_value_injective(a: Seq<u8>, b: Seq<u8>)
    requires
        canonical_digits(a),
        canonical_digits(b),
        digits_value(a) == digits_value(b),
    ensures
        a == b,
    decreases a.len(),
{
    if a.len() == 0 && b.len() == 0 {
        assert(a =~= b);
    } else if a.len() == 0 {
        lemma_digits_value_zero(b);
        assert(b[0] != 0);
        assert(false);
    } else if b.len() == 0 {
        lemma_digits_value_zero(a);
        assert(a[0] != 0);
        assert(false);
    } else {
        lemma_fundamental_div_mod_converse(
            digits_value(a) as int,
            10,
            digits_value(a.drop_last()) as int,
            a.last() as int,
        );
        lemma_fundamental_div_mod_converse(
            digits_value(b) as int,
            10,
            digits_value(b.drop_last()) as int,
            b.last() as int,
        );
        assert(a.last() == b.last());
        assert(digits_value(a.drop_last()) == digits_value(b.drop_last()));
        assert(digit_seq_valid(a.drop_last()));
        assert(digit_seq_valid(b.drop_last()));
        if a.len() > 1 {
            assert(a.drop_last()[0] == a[0]);
        }
        if b.len() > 1 {
            assert(b.drop_last()[0] == b[0]);
        }
        lemma_canonical_value_injective(a.drop_last(), b.drop_last());
        assert(a.len() == b.len());
        assert forall|i: int| 0 <= i < a.len() implies a[i] == b[i] by {
            if i < a.len() - 1 {
                assert(a.drop_last()[i] == a[i]);
                assert(b.drop_last()[i] == b[i]);
            }
        }
        assert(a =~= b);
    }
}

/// If the first `k` digits are zero, dropping them keeps the value.
pub proof fn lemma_leading_zeros(s: Seq<u8>, k: int)
    requires
        0 <= k <= s.len(),
        forall|i: int| 0 <= i < k ==> (#[trigger] s[i]) == 0,
    ensures
        digits_value(s.skip(k)) == digits_value(s),
{
    let a = s.take(k);
    let b = s.skip(k);
    assert(s =~= a + b);
    lemma_digits_value_concat(a, b);
    assert(digit_seq_valid(a)) by {
        assert forall|i: int| 0 <= i < a.len() implies (#[trigger] a[i]) < 10 by {
            assert(a[i] == s[i]);
        }
    }
    lemma_digits_value_zero(a);
    assert forall|i: int| 0 <= i < a.len() implies (#[trigger] a[i]) == 0 by {
        assert(a[i] == s[i]);
    }
    assert(digits_value(a) == 0);
}

/// Why reading a persisted numeric value back was refused.
#[derive(Debug, Clone, Copy, PartialEq, Eq, Structural)]
pub enum StoredNumericError {
    /// The column carried no value at all.
    MissingValue,
    /// The decimal has a non-zero fractional part.
    NonIntegral,
    /// The decimal is integral but negative.
    NegativeValue,
}

/// An exact decimal number: a sign, an unscaled magnitude held as canonical
/// big-endian decimal digits, and a scale. The number denoted is
/// `sign * magnitude * 10^(-scale)`; no precision is ever lost.
#[derive(Debug, Clone, PartialEq, Eq)]
pub struct ExactDecimal {
    /// Whether the number is negative; never set on a zero magnitude.
    pub negative: bool,
    /// Big-endian decimal digits of the unscaled magnitude; canonical.
    pub digits: Vec<u8>,
    /// The count of fractional digits; a negative count denotes trailing
    /// integer zeros.
    pub scale: i64,
}

impl ExactDecimal {
    /// Well-formedness: canonical digits, and no negative zero.
    pub open spec fn wf(&self) -> bool {
        canonical_digits(self.digits@) && (self.negative ==> self.digits@.len() > 0)
    }

    /// The signed unscaled magnitude.
    pub open spec fn unscaled(&self) -> int {
        if self.negative {
            -(digits_value(self.digits@) as int)
        } else {
            digits_value(self.digits@) as int
        }
    }

    /// Whether the number denoted is an integer; a fractional part made of
    /// zeros counts as integral.
    pub open spec fn is_integral(&self) -> bool {
        self.scale <= 0 || digits_value(self.digits@) % pow10(self.scale as nat) == 0
    }

    /// The integer the number denotes, meaningful when it is integral.
    pub open spec fn integral_value(&self) -> int
        recommends
            self.is_integral(),
    {
        if self.scale <= 0 {
            self.unscaled() * (pow10((-(self.scale as int)) as nat) as int)
        } else {
            self.unscaled() / (pow10(self.scale as nat) as int)
        }
    }

    /// Builds an exact decimal from a sign, big-endian magnitude digits and a
    /// scale. Any digit sequence with entries below ten is accepted and
    /// canonicalized (leading zeros stripped, a zero magnitude loses its
    /// sign); a sequence with an entry of ten or more is refused.
    pub fn new(negative: bool, digits: Vec<u8>, scale: i64) -> (r: Option<ExactDecimal>)
        ensures
            match r {
                Some(d) => {
                    &&& d.wf()
                    &&& digit_seq_valid(digits@)
                    &&& d.scale == scale
                    &&& digits_value(d.digits@) == digits_value(digits@)
                    &&& (d.negative <==> (negative && digits_value(digits@) != 0))
                },
                None => !digit_seq_valid(digits@),
            },
    {
        match StoredBigUint::from_digits(digits) {
            None => None,
            Some(n) => {
                let neg = negative && n.digits.len() > 0;
                proof {
                    lemma_digits_value_zero(n.digits@);
                    if n.digits@.len() > 0 {
                        assert(n.digits@[0] != 0);
                    }
                }
                Some(ExactDecimal { negative: neg, digits: n.digits, scale })
            },
        }
    }

    /// Decides whether the number denoted is an integer.
    pub fn check_integral(&self) -> (r: bool)
        requires
            self.wf(),
        ensures
            r == self.is_integral(),
    {
        if self.scale <= 0 {
            return true;
        }
        let len = self.digits.len();
        if len == 0 {
            proof {
                lemma_pow10_pos(self.scale as nat);
                lemma_small_mod(0, pow10(self.scale as nat));
            }
            return true;
        }
        if self.scale as u64 >= len as u64 {
            proof {
                let dv = digits_value(self.digits@);
                lemma_digits_value_upper(self.digits@);
                lemma_digits_value_zero(self.digits@);
                assert(self.digits@[0] != 0);
                lemma_pow10_mono(len as nat, self.scale as nat);
                lemma_small_mod(dv, pow10(self.scale as nat));
            }
            return false;
        }
        let k = self.scale as usize;
        let mut i: usize = len - k;
        while i < len
            invariant
                0 < k < len,
                k as int == self.scale as int,
                len == self.digits@.len(),
                len - k <= i <= len,
                digit_seq_valid(self.digits@),
                forall|j: int| len - k <= j < i ==> (#[trigger] self.digits@[j]) == 0,
            decreases len - i,
        {
            if self.digits[i] != 0 {
                proof {
                    let i0 = i - (len - k);
                    let tail = self.digits@.skip((len - k) as int);
                    assert forall|j: int| 0 <= j < tail.len() implies (#[trigger] tail[j])
                        < 10 by {
                        assert(tail[j] == self.digits@[len - k + j]);
                    }
                    assert(tail[i0 as int] == self.digits@[i as int]);
                    assert(tail[i0 as int] != 0);
                    lemma_digits_value_zero(tail);
                    assert(digits_value(tail) != 0);
                    lemma_digits_split(self.digits@, k as nat);
                }
                return false;
            }
            i += 1;
        }
        proof {
            let tail = self.digits@.skip((len - k) as int);
            assert forall|j: int| 0 <= j < tail.len() implies (#[trigger] tail[j]) < 10 by {
                assert(tail[j] == self.digits@[len - k + j]);
            }
            assert forall|j: int| 0 <= j < tail.len() implies (#[trigger] tail[j]) == 0 by {
                assert(tail[j] == self.digits@[len - k + j]);
                assert(self.digits@[len - k + j] == 0);
            }
            lemma_digits_value_zero(tail);
            lemma_digits_split(self.digits@, k as nat);
        }
        true
    }
}

/// A non-negative arbitrary-precision integer as this layer stores it: the
/// value is held as canonical big-endian decimal digits.
#[derive(Debug, Clone, PartialEq, Eq)]
pub struct StoredBigUint {
    /// Big-endian decimal digits of the value; canonical (no leading zero,
    /// zero is the empty sequence).
    pub digits: Vec<u8>,
}

impl StoredBigUint {
    /// Well-formedness: the digits are canonical.
    pub open spec fn wf(&self) -> bool {
        canonical_digits(self.digits@)
    }

    /// The non-negative integer this value denotes.
    pub open spec fn value(&self) -> nat {
        digits_value(self.digits@)
    }

    /// Builds a stored value from big-endian decimal digits. Any digit
    /// sequence with entries below ten is accepted, leading zeros stripped; a
    /// sequence with an entry of ten or more is refused.
    pub fn from_digits(digits: Vec<u8>) -> (r: Option<StoredBigUint>)
        ensures
            match r {
                Some(n) => {
                    &&& n.wf()
                    &&& digit_seq_valid(digits@)
                    &&& n.value() == digits_value(digits@)
                },
                None => !digit_seq_valid(digits@),
            },
    {
        let n = digits.len();
        let mut i: usize = 0;
        while i < n
            invariant
                0 <= i <= n,
                n == digits@.len(),
                forall|j: int| 0 <= j < i ==> (#[trigger] digits@[j]) < 10,
            decreases n - i,
        {
            if digits[i] >= 10 {
                return None;
            }
            i += 1;
        }
        let mut k: usize = 0;
        while k < n && digits[k] == 0
            invariant
                0 <= k <= n,
                n == digits@.len(),
                digit_seq_valid(digits@),
                forall|j: int| 0 <= j < k ==> (#[trigger] digits@[j]) == 0,
            decreases n - k,
        {
            k += 1;
        }
        let mut out: Vec<u8> = Vec::new();
        let mut j: usize = k;
        while j < n
            invariant
                k <= j <= n,
                n == digits@.len(),
                digit_seq_valid(digits@),
                out@ =~= digits@.subrange(k as int, j as int),
            decreases n - j,
        {
            out.push(digits[j]);
            j += 1;
        }
        proof {
            assert(out@ =~= digits@.skip(k as int));
            lemma_leading_zeros(digits@, k as int);
        }
        Some(StoredBigUint { digits: out })
    }

    /// Encodes the value for the persisted numeric column: an exact decimal
    /// with the same digits, no sign, and no fractional part. Always
    /// succeeds.
    pub fn to_persisted(&self) -> (d: ExactDecimal)
        requires
            self.wf(),
        ensures
            d.wf(),
            !d.negative,
            d.scale == 0,
            d.digits@ == self.digits@,
            d.is_integral(),
            d.integral_value() == self.value() as int,
    {
        let d = ExactDecimal { negative: false, digits: clone_digits(&self.digits), scale: 0 };
        proof {
            assert(pow10(0) == 1);
            assert(d.integral_value() == d.unscaled() * 1);
            assert(d.unscaled() * 1 == d.unscaled());
        }
        d
    }

    /// Reads a stored value back from the persisted column. An absent value,
    /// a decimal with a non-zero fractional part, and a negative decimal are
    /// each refused with their own error; every other exact decimal yields
    /// the unique non-negative integer it denotes.
    pub fn from_persisted(raw: Option<ExactDecimal>) -> (r: Result<
        StoredBigUint,
        StoredNumericError,
    >)
        requires
            raw matches Some(d) ==> d.wf() && (d.scale < 0 ==> d.digits@.len() + (-(
            d.scale as int)) <= usize::MAX),
        ensures
            match r {
                Ok(n) => raw matches Some(d) && d.is_integral() && d.integral_value() >= 0
                    && n.wf() && n.value() as int == d.integral_value(),
                Err(e) => match e {
                    StoredNumericError::MissingValue => raw is None,
                    StoredNumericError::NonIntegral => raw matches Some(d) && !d.is_integral(),
                    StoredNumericError::NegativeValue => raw matches Some(d) && d.is_integral()
                        && d.integral_value() < 0,
                },
            },
    {
        match raw {
            None => Err(StoredNumericError::MissingValue),
            Some(d) => {
                if !d.check_integral() {
                    Err(StoredNumericError::NonIntegral)
                } else if d.negative {
                    proof {
                        lemma_negative_integral_value(&d);
                    }
                    Err(StoredNumericError::NegativeValue)
                } else {
                    proof {
                        assert(d.unscaled() >= 0);
                        lemma_nonnegative_integral_value(&d);
                    }
                    let out = integral_digits(d);
                    Ok(StoredBigUint { digits: out })
                }
            },
        }
    }
}

/// An integral, negative exact decimal denotes a negative integer.
proof fn lemma_negative_integral_value(d: &ExactDecimal)
    requires
        d.wf(),
        d.is_integral(),
        d.negative,
    ensures
        d.integral_value() < 0,
{
    let dv = digits_value(d.digits@);
    lemma_digits_value_zero(d.digits@);
    assert(d.digits@[0] != 0);
    assert(dv > 0);
    if d.scale <= 0 {
        let p = pow10((-(d.scale as int)) as nat) as int;
        lemma_pow10_pos((-(d.scale as int)) as nat);
        assert(d.unscaled() * p < 0) by (nonlinear_arith)
            requires
                d.unscaled() < 0,
                p >= 1,
        ;
    } else {
        let p = pow10(d.scale as nat) as int;
        lemma_pow10_pos(d.scale as nat);
        lemma_fundamental_div_mod(dv as int, p);
        assert(dv as int == p * ((dv as int) / p));
        let q = (dv as int) / p;
        assert(q > 0) by (nonlinear_arith)
            requires
                dv as int == p * q,
                dv > 0,
                p >= 1,
        ;
        assert((-q) * p + 0 == -(dv as int)) by (nonlinear_arith)
            requires
                dv as int == p * q,
        ;
        lemma_fundamental_div_mod_converse(-(dv as int), p, -q, 0);
        assert(d.integral_value() == -q);
    }
}

/// An integral, non-negative exact decimal denotes a non-negative integer.
proof fn lemma_nonnegative_integral_value(d: &ExactDecimal)
    requires
        d.wf(),
        d.is_integral(),
        !d.negative,
    ensures
        d.integral_value() >= 0,
{
    let dv = digits_value(d.digits@);
    if d.scale <= 0 {
        let p = pow10((-(d.scale as int)) as nat) as int;
        lemma_pow10_pos((-(d.scale as int)) as nat);
        assert(d.unscaled() * p >= 0) by (nonlinear_arith)
            requires
                d.unscaled() >= 0,
                p >= 1,
        ;
    } else {
        let p = pow10(d.scale as nat) as int;
        lemma_pow10_pos(d.scale as nat);
        lemma_fundamental_div_mod(dv as int, p);
        let q = (dv as int) / p;
        assert(q >= 0) by (nonlinear_arith)
            requires
                dv as int == p * q + (dv as int) % p,
                0 <= (dv as int) % p,
                dv >= 0,
                p >= 1,
        ;
    }
}

/// Copies a digit vector.
fn clone_digits(v: &Vec<u8>) -> (r: Vec<u8>)
    ensures
        r@ == v@,
{
    let mut r: Vec<u8> = Vec::new();
    let mut i: usize = 0;
    while i < v.len()
        invariant
            0 <= i <= v@.len(),
            r@ =~= v@.subrange(0, i as int),
        decreases v@.len() - i,
    {
        r.push(v[i]);
        i += 1;
    }
    proof {
        assert(r@ =~= v@);
    }
    r
}

/// The canonical digits of the integer an integral, non-negative exact
/// decimal denotes.
fn integral_digits(d: ExactDecimal) -> (out: Vec<u8>)
    requires
        d.wf(),
        d.is_integral(),
        !d.negative,
        d.scale < 0 ==> d.digits@.len() + (-(d.scale as int)) <= usize::MAX,
    ensures
        canonical_digits(out@),
        digits_value(out@) as int == d.integral_value(),
{
    let ExactDecimal { negative: _, digits, scale } = d;
    let ghost d0 = digits@;
    let len = digits.len();
    if len == 0 {
        proof {
            if scale <= 0 {
                assert(d.unscaled() == 0);
                assert(0 * (pow10((-(scale as int)) as nat) as int) == 0) by (nonlinear_arith);
            } else {
                let p = pow10(scale as nat) as int;
                lemma_pow10_pos(scale as nat);
                lemma_fundamental_div_mod_converse(0, p, 0, 0);
            }
        }
        return digits;
    }
    if scale > 0 {
        proof {
            if scale as int >= len as int {
                lemma_digits_value_upper(d0);
                lemma_digits_value_zero(d0);
                assert(d0[0] != 0);
                lemma_pow10_mono(len as nat, scale as nat);
                lemma_small_mod(digits_value(d0), pow10(scale as nat));
                assert(false);
            }
        }
        let k = scale as usize;
        let newlen = len - k;
        let mut out = digits;
        out.truncate(newlen);
        proof {
            assert(out@ =~= d0.take(newlen as int));
            lemma_digits_split(d0, k as nat);
            assert(out@[0] == d0[0]);
            assert forall|i: int| 0 <= i < out@.len() implies (#[trigger] out@[i]) < 10 by {
                assert(out@[i] == d0[i]);
            }
        }
        return out;
    }
    let mut out = digits;
    let mut m = scale;
    while m < 0
        invariant
            scale <= m <= 0,
            d0.len() >= 1,
            d0.len() + (-(scale as int)) <= usize::MAX,
            out@.len() == d0.len() + (m as int - scale as int),
            canonical_digits(d0),
            canonical_digits(out@),
            out@[0] == d0[0],
            digits_value(out@) == digits_value(d0) * pow10((m as int - scale as int) as nat),
        decreases -(m as int),
    {
        let ghost before = out@;
        out.push(0);
        m = m + 1;
        proof {
            assert(out@.drop_last() =~= before);
            assert(out@.last() == 0);
            assert(digits_value(out@) == 10 * digits_value(before));
            let c = (m as int - 1 - scale as int) as nat;
            assert(pow10((c + 1) as nat) == 10 * pow10(c));
            let x = digits_value(d0);
            assert(10 * (x * pow10(c)) == x * (10 * pow10(c))) by (nonlinear_arith);
        }
    }
    proof {
        assert(m == 0);
        assert(digits_value(out@) == digits_value(d0) * pow10((-(scale as int)) as nat));
        assert(d.unscaled() == digits_value(d0) as int);
    }
    out
}

/// Law: persisting a stored value and reading it back is lossless. The
/// persisted form of a well-formed stored value is integral and non-negative,
/// it denotes exactly the original value, and any well-formed stored value
/// carrying the value read back has exactly the original's digits.
pub proof fn lemma_persist_round_trip(n: StoredBigUint, d: ExactDecimal, m: StoredBigUint)
    requires
        n.wf(),
        m.wf(),
        !d.negative,
        d.scale == 0,
        d.digits@ == n.digits@,
        m.value() as int == d.integral_value(),
    ensures
        d.is_integral(),
        d.integral_value() == n.value() as int,
        m.digits@ == n.digits@,
{
    assert(d.integral_value() == d.unscaled() * (pow10(0) as int));
    assert(d.unscaled() * 1 == d.unscaled());
    lemma_canonical_value_injective(m.digits@, n.digits@);
}

} // verus!
