//! Arbitrary-precision signed decimal integers.
//!
//! A value is a sign and a canonical magnitude (see [`crate::digits`]):
//! the digit vector is nonempty, most-significant digit first, carries no
//! leading zero except for zero itself, and zero is always positive. Every
//! operation states its result against the mathematical integer the value
//! denotes, via [`BigInt::as_int`].

use vstd::prelude::*;
use vstd::string::{StrSliceExecFns, StringExecFns};

use crate::digits::{
    all_digits, canon, cmp, lemma_canon_unique, lemma_canon_val_zero_iff, lemma_canon_zero,
    lemma_val_lower, lemma_val_rev_of_reverse, lemma_val_reverse, reverse_digits, slice_add,
    slice_mul, slice_sub, trim_leading_zeros, val, val_rev, Cmp,
};

verus! {

/// The ten decimal digit characters.
pub open spec fn is_digit_char(c: char) -> bool {
    c == '0' || c == '1' || c == '2' || c == '3' || c == '4' || c == '5' || c == '6' || c == '7'
        || c == '8' || c == '9'
}

/// Numeric value of a decimal digit character.
pub open spec fn digit_of_char(c: char) -> u8 {
    if c == '0' {
        0
    } else if c == '1' {
        1
    } else if c == '2' {
        2
    } else if c == '3' {
        3
    } else if c == '4' {
        4
    } else if c == '5' {
        5
    } else if c == '6' {
        6
    } else if c == '7' {
        7
    } else if c == '8' {
        8
    } else {
        9
    }
}

/// Character for a decimal digit value.
pub open spec fn char_of_digit(d: u8) -> char {
    if d == 0 {
        '0'
    } else if d == 1 {
        '1'
    } else if d == 2 {
        '2'
    } else if d == 3 {
        '3'
    } else if d == 4 {
        '4'
    } else if d == 5 {
        '5'
    } else if d == 6 {
        '6'
    } else if d == 7 {
        '7'
    } else if d == 8 {
        '8'
    } else {
        '9'
    }
}

/// The characters a parser scans for digits: everything after an optional
/// leading sign.
pub open spec fn literal_body(s: Seq<char>) -> Seq<char> {
    if s.len() > 0 && (s[0] == '+' || s[0] == '-') {
        s.skip(1)
    } else {
        s
    }
}

/// Whether the literal carries an explicit minus sign.
pub open spec fn marked_negative(s: Seq<char>) -> bool {
    s.len() > 0 && s[0] == '-'
}

/// The digit values of a character sequence, with non-digit characters
/// silently skipped.
pub open spec fn digit_values(t: Seq<char>) -> Seq<u8> {
    t.filter(|c: char| is_digit_char(c)).map_values(|c: char| digit_of_char(c))
}

/// Leading zeros removed.
pub open spec fn strip_zeros(s: Seq<u8>) -> Seq<u8>
    decreases s.len(),
{
    if s.len() > 0 && s[0] == 0 {
        strip_zeros(s.skip(1))
    } else {
        s
    }
}

/// The canonical digit sequence that parsing a literal collects.
pub open spec fn parsed_digits(s: Seq<char>) -> Seq<u8> {
    let t = strip_zeros(digit_values(literal_body(s)));
    if t.len() == 0 {
        seq![0u8]
    } else {
        t
    }
}

/// The sign that parsing a literal resolves: negative only for an explicit
/// minus sign on a nonzero value.
pub open spec fn parsed_sign(s: Seq<char>) -> Sign {
    if marked_negative(s) && parsed_digits(s) != seq![0u8] {
        Sign::Negative
    } else {
        Sign::Positive
    }
}

/// The canonical decimal string of a sign and digit sequence: a minus
/// prefix for negative values, then the digits in order.
pub open spec fn serialized(sign: Sign, ds: Seq<u8>) -> Seq<char> {
    if sign == Sign::Negative {
        seq!['-'] + ds.map_values(|d: u8| char_of_digit(d))
    } else {
        ds.map_values(|d: u8| char_of_digit(d))
    }
}

proof fn lemma_digit_values_push(t: Seq<char>, c: char)
    ensures
        digit_values(t.push(c)) == if is_digit_char(c) {
            digit_values(t).push(digit_of_char(c))
        } else {
            digit_values(t)
        },
{
    reveal(Seq::filter);
    let pred = |x: char| is_digit_char(x);
    let f = |x: char| digit_of_char(x);
    assert(t.push(c).drop_last() =~= t);
    assert(t.push(c).last() == c);
    assert(t.push(c).filter(pred) == if pred(c) {
        t.filter(pred).push(c)
    } else {
        t.filter(pred)
    });
    if is_digit_char(c) {
        assert(t.filter(pred).push(c).map_values(f) =~= t.filter(pred).map_values(f).push(f(c)));
    }
}

proof fn lemma_strip_zeros_push(s: Seq<u8>, d: u8)
    ensures
        strip_zeros(s.push(d)) == if strip_zeros(s).len() == 0 {
            if d == 0 {
                Seq::<u8>::empty()
            } else {
                seq![d]
            }
        } else {
            strip_zeros(s).push(d)
        },
    decreases s.len(),
{
    if s.len() == 0 {
        assert(s.push(d) =~= seq![d]);
        if d == 0 {
            assert(seq![d].skip(1) =~= Seq::<u8>::empty());
            assert(strip_zeros(seq![d]) == strip_zeros(Seq::<u8>::empty()));
        }
    } else if s[0] == 0 {
        assert(s.push(d).skip(1) =~= s.skip(1).push(d));
        lemma_strip_zeros_push(s.skip(1), d);
        assert(strip_zeros(s.push(d)) == strip_zeros(s.skip(1).push(d)));
        assert(strip_zeros(s) == strip_zeros(s.skip(1)));
    } else {
        assert(s.push(d)[0] == s[0]);
        assert(strip_zeros(s.push(d)) == s.push(d));
        assert(strip_zeros(s) == s);
    }
}

proof fn lemma_strip_zeros_head(s: Seq<u8>)
    ensures
        strip_zeros(s).len() > 0 ==> strip_zeros(s)[0] != 0,
    decreases s.len(),
{
    if s.len() > 0 && s[0] == 0 {
        lemma_strip_zeros_head(s.skip(1));
    }
}

/// Integer division truncated toward zero: the magnitudes divide, and the
/// quotient is negative exactly when the operand signs differ.
pub open spec fn div_trunc(a: int, b: int) -> int {
    let m = (if a >= 0 {
        a
    } else {
        -a
    }) / (if b >= 0 {
        b
    } else {
        -b
    });
    if (a < 0) != (b < 0) {
        -m
    } else {
        m
    }
}

/// The one-character string for a decimal digit value.
fn digit_str(d: u8) -> (r: &'static str)
    requires
        d <= 9,
    ensures
        r@ =~= seq![char_of_digit(d)],
{
    proof {
        reveal_strlit("0");
        reveal_strlit("1");
        reveal_strlit("2");
        reveal_strlit("3");
        reveal_strlit("4");
        reveal_strlit("5");
        reveal_strlit("6");
        reveal_strlit("7");
        reveal_strlit("8");
        reveal_strlit("9");
    }
    if d == 0 {
        "0"
    } else if d == 1 {
        "1"
    } else if d == 2 {
        "2"
    } else if d == 3 {
        "3"
    } else if d == 4 {
        "4"
    } else if d == 5 {
        "5"
    } else if d == 6 {
        "6"
    } else if d == 7 {
        "7"
    } else if d == 8 {
        "8"
    } else {
        "9"
    }
}

/// Sign of a value; canonical zero is always `Positive`.
#[derive(Clone, Copy, PartialEq, Eq, Structural, Debug)]
pub enum Sign {
    Positive,
    Negative,
}

/// The failure kinds of the engine.
#[derive(Clone, Copy, PartialEq, Eq, Structural, Debug)]
pub enum Error {
    /// Raised when the divisor's magnitude is canonical zero.
    DivisionByZero,
}

/// A signed arbitrary-precision decimal integer.
#[derive(Debug, PartialEq, Eq)]
pub struct BigInt {
    /// Sign of the value; `Positive` for canonical zero.
    pub sign: Sign,
    /// Decimal digits, most-significant first, each in `0..=9`.
    pub digits: Vec<u8>,
}

impl BigInt {
    /// The representation invariant: a canonical magnitude, and no
    /// negative zero.
    pub open spec fn wf(self) -> bool {
        &&& canon(self.digits@)
        &&& (val(self.digits@) == 0 ==> self.sign == Sign::Positive)
    }

    /// The mathematical integer this value denotes.
    pub open spec fn as_int(self) -> int {
        if self.sign == Sign::Positive {
            val(self.digits@) as int
        } else {
            -(val(self.digits@) as int)
        }
    }

    /// Whether the value is canonical zero.
    pub fn is_zero(&self) -> (r: bool)
        requires
            self.wf(),
        ensures
            r == (self.as_int() == 0),
    {
        proof {
            lemma_canon_val_zero_iff(self.digits@);
            if self.digits@ =~= seq![0u8] {
                assert(self.digits@.len() == 1 && self.digits@[0] == 0);
            }
            if self.digits@.len() == 1 && self.digits@[0] == 0 {
                assert(self.digits@ =~= seq![0u8]);
            }
        }
        self.digits.len() == 1 && self.digits[0] == 0
    }

    /// The canonical zero value.
    pub fn zero() -> (r: BigInt)
        ensures
            r.wf(),
            r.as_int() == 0,
    {
        let mut digits: Vec<u8> = Vec::new();
        digits.push(0);
        proof {
            assert(digits@ =~= seq![0u8]);
            assert(seq![0u8].drop_last() =~= Seq::<u8>::empty());
            assert(val(Seq::<u8>::empty()) == 0);
            assert(val(seq![0u8]) == 0);
        }
        BigInt { sign: Sign::Positive, digits }
    }

    /// Unary negation: flips the sign and keeps the digits; canonical zero
    /// stays positive.
    pub fn neg(&self) -> (r: BigInt)
        requires
            self.wf(),
        ensures
            r.wf(),
            r.as_int() == -self.as_int(),
            r.digits@ == self.digits@,
    {
        let digits = trim_leading_zeros(&self.digits);
        proof {
            lemma_canon_unique(digits@, self.digits@);
        }
        if self.is_zero() {
            BigInt { sign: Sign::Positive, digits }
        } else {
            let sign = match self.sign {
                Sign::Positive => Sign::Negative,
                Sign::Negative => Sign::Positive,
            };
            BigInt { sign, digits }
        }
    }

    /// Signed addition. Matching signs add the magnitudes and keep the
    /// shared sign; differing signs subtract the smaller magnitude from the
    /// larger and take the sign of the larger operand, with equal
    /// magnitudes collapsing to canonical zero.
    pub fn add(&self, rhs: &BigInt) -> (r: BigInt)
        requires
            self.wf(),
            rhs.wf(),
        ensures
            r.wf(),
            r.as_int() == self.as_int() + rhs.as_int(),
    {
        let ghost va = val(self.digits@) as int;
        let ghost vb = val(rhs.digits@) as int;
        if self.sign == rhs.sign {
            let a = reverse_digits(&self.digits);
            let b = reverse_digits(&rhs.digits);
            proof {
                lemma_val_rev_of_reverse(self.digits@);
                lemma_val_rev_of_reverse(rhs.digits@);
            }
            let s = slice_add(&a, &b);
            let v = reverse_digits(&s);
            proof {
                lemma_val_reverse(s@);
                assert(all_digits(v@));
                assert(val(v@) == va + vb);
            }
            let digits = trim_leading_zeros(&v);
            proof {
                if val(digits@) == 0 {
                    lemma_canon_zero(self.digits@);
                }
            }
            BigInt { sign: self.sign, digits }
        } else {
            let c = cmp(&self.digits, &rhs.digits);
            proof {
                if self.digits@.len() != rhs.digits@.len() {
                    assert(self.digits@.len() >= 1 && rhs.digits@.len() >= 1);
                }
            }
            match c {
                Cmp::Equal => {
                    BigInt::zero()
                },
                Cmp::Greater => {
                    let a = reverse_digits(&self.digits);
                    let b = reverse_digits(&rhs.digits);
                    proof {
                        lemma_val_rev_of_reverse(self.digits@);
                        lemma_val_rev_of_reverse(rhs.digits@);
                        crate::digits::lemma_canon_len_le(rhs.digits@, self.digits@);
                    }
                    let d = slice_sub(&a, &b);
                    let v = reverse_digits(&d);
                    proof {
                        lemma_val_reverse(d@);
                        assert(all_digits(v@));
                        assert(val(v@) == va - vb);
                    }
                    let digits = trim_leading_zeros(&v);
                    BigInt { sign: self.sign, digits }
                },
                Cmp::Less => {
                    let a = reverse_digits(&rhs.digits);
                    let b = reverse_digits(&self.digits);
                    proof {
                        lemma_val_rev_of_reverse(rhs.digits@);
                        lemma_val_rev_of_reverse(self.digits@);
                        crate::digits::lemma_canon_len_le(self.digits@, rhs.digits@);
                    }
                    let d = slice_sub(&a, &b);
                    let v = reverse_digits(&d);
                    proof {
                        lemma_val_reverse(d@);
                        assert(all_digits(v@));
                        assert(val(v@) == vb - va);
                    }
                    let digits = trim_leading_zeros(&v);
                    BigInt { sign: rhs.sign, digits }
                },
            }
        }
    }

    /// Signed multiplication: schoolbook magnitude product, negative sign
    /// exactly when the operand signs differ, and canonical zero forced
    /// positive.
    pub fn mul(&self, rhs: &BigInt) -> (r: BigInt)
        requires
            self.wf(),
            rhs.wf(),
        ensures
            r.wf(),
            r.as_int() == self.as_int() * rhs.as_int(),
    {
        let ghost va = val(self.digits@) as int;
        let ghost vb = val(rhs.digits@) as int;
        let a = reverse_digits(&self.digits);
        let b = reverse_digits(&rhs.digits);
        proof {
            lemma_val_rev_of_reverse(self.digits@);
            lemma_val_rev_of_reverse(rhs.digits@);
        }
        let p = slice_mul(&a, &b);
        let v = reverse_digits(&p);
        proof {
            lemma_val_reverse(p@);
            assert(all_digits(v@));
            assert(val(v@) == va * vb);
        }
        let digits = trim_leading_zeros(&v);
        let zero = digits.len() == 1 && digits[0] == 0;
        proof {
            lemma_canon_val_zero_iff(digits@);
            if digits@ =~= seq![0u8] {
                assert(digits@.len() == 1 && digits@[0] == 0);
            }
            if digits@.len() == 1 && digits@[0] == 0 {
                assert(digits@ =~= seq![0u8]);
            }
        }
        let sign = if zero {
            Sign::Positive
        } else if self.sign != rhs.sign {
            Sign::Negative
        } else {
            Sign::Positive
        };
        proof {
            let ai = self.as_int();
            let bi = rhs.as_int();
            assert(va * vb == 0 ==> ai * bi == 0) by (nonlinear_arith)
                requires
                    ai == va || ai == -va,
                    bi == vb || bi == -vb,
            ;
            assert(ai * bi == if (ai < 0) != (bi < 0) {
                -(va * vb)
            } else {
                va * vb
            }) by (nonlinear_arith)
                requires
                    va >= 0,
                    vb >= 0,
                    ai == if self.sign == Sign::Positive {
                        va
                    } else {
                        -va
                    },
                    bi == if rhs.sign == Sign::Positive {
                        vb
                    } else {
                        -vb
                    },
            ;
        }
        BigInt { sign, digits }
    }

    /// Truncating signed division; the quotient rounds toward zero. The
    /// divisor's magnitude must not be zero: `checked_div` is the total
    /// variant.
    pub fn div(&self, rhs: &BigInt) -> (r: BigInt)
        requires
            self.wf(),
            rhs.wf(),
            rhs.as_int() != 0,
        ensures
            r.wf(),
            r.as_int() == div_trunc(self.as_int(), rhs.as_int()),
    {
        let ghost va = val(self.digits@) as int;
        let ghost vb = val(rhs.digits@) as int;
        proof {
            lemma_canon_val_zero_iff(rhs.digits@);
        }
        let c = cmp(&self.digits, &rhs.digits);
        if c == Cmp::Less {
            proof {
                vstd::arithmetic::div_mod::lemma_basic_div(va, vb);
            }
            BigInt::zero()
        } else {
            let q = crate::digits::slice_div(&self.digits, &rhs.digits);
            let zero = q.len() == 1 && q[0] == 0;
            proof {
                lemma_canon_val_zero_iff(q@);
                if q@ =~= seq![0u8] {
                    assert(q@.len() == 1 && q@[0] == 0);
                }
                if q@.len() == 1 && q@[0] == 0 {
                    assert(q@ =~= seq![0u8]);
                }
                vstd::arithmetic::div_mod::lemma_div_is_ordered(vb, va, vb);
                vstd::arithmetic::div_mod::lemma_div_multiples_vanish(1, vb);
                assert(vb * 1 == vb) by (nonlinear_arith);
                assert(va / vb >= 1);
            }
            let sign = if zero {
                Sign::Positive
            } else if self.sign != rhs.sign {
                Sign::Negative
            } else {
                Sign::Positive
            };
            BigInt { sign, digits: q }
        }
    }

    /// Total division: fails with [`Error::DivisionByZero`] exactly when the
    /// divisor is zero, and otherwise returns the truncating quotient.
    pub fn checked_div(&self, rhs: &BigInt) -> (r: Result<BigInt, Error>)
        requires
            self.wf(),
            rhs.wf(),
        ensures
            (rhs.as_int() == 0) <==> (r is Err),
            r is Err ==> r == Err::<BigInt, Error>(Error::DivisionByZero),
            r matches Ok(q) ==> q.wf() && q.as_int() == div_trunc(self.as_int(), rhs.as_int()),
    {
        if rhs.is_zero() {
            Err(Error::DivisionByZero)
        } else {
            Ok(self.div(rhs))
        }
    }

    /// Parses a signed decimal literal. An optional leading `+` or `-`
    /// sets the sign; the remaining characters are scanned left to right,
    /// leading zeros are dropped, every other decimal digit is collected,
    /// and any non-digit character is silently skipped. A literal with no
    /// digits parses as canonical zero, and `-` on a zero value is ignored.
    pub fn from_str(s: &str) -> (r: BigInt)
        ensures
            r.wf(),
            r.digits@ == parsed_digits(s@),
            r.sign == parsed_sign(s@),
    {
        let n = s.unicode_len();
        let mut start: usize = 0;
        let mut negative = false;
        if n > 0 {
            let c0 = s.get_char(0);
            if c0 == '+' {
                start = 1;
            } else if c0 == '-' {
                start = 1;
                negative = true;
            }
        }
        proof {
            if start == 0 {
                assert(s@.skip(0) =~= s@);
            }
            assert(literal_body(s@) == s@.skip(start as int));
            assert(negative == marked_negative(s@));
            assert(s@.skip(start as int).take(0) =~= Seq::<char>::empty());
            reveal(Seq::filter);
            assert(Seq::<char>::empty().filter(|c: char| is_digit_char(c)) =~= Seq::<
                char,
            >::empty());
            assert(digit_values(Seq::<char>::empty()) =~= Seq::<u8>::empty());
        }
        let mut ds: Vec<u8> = Vec::new();
        let mut i: usize = start;
        while i < n
            invariant
                n == s@.len(),
                start <= 1,
                start <= i <= n,
                literal_body(s@) == s@.skip(start as int),
                negative == marked_negative(s@),
                all_digits(ds@),
                ds@ == strip_zeros(digit_values(s@.skip(start as int).take(i - start))),
                ds@.len() == 0 || ds@[0] != 0,
            decreases n - i,
        {
            let c = s.get_char(i);
            let ghost body = s@.skip(start as int);
            let ghost pre = body.take(i - start);
            proof {
                assert(body[i - start] == s@[i as int]);
                assert(body.take(i - start + 1) =~= pre.push(s@[i as int]));
                lemma_digit_values_push(pre, s@[i as int]);
                lemma_strip_zeros_push(digit_values(pre), digit_of_char(s@[i as int]));
            }
            let d: u8;
            let isd: bool;
            if c == '0' {
                d = 0;
                isd = true;
            } else if c == '1' {
                d = 1;
                isd = true;
            } else if c == '2' {
                d = 2;
                isd = true;
            } else if c == '3' {
                d = 3;
                isd = true;
            } else if c == '4' {
                d = 4;
                isd = true;
            } else if c == '5' {
                d = 5;
                isd = true;
            } else if c == '6' {
                d = 6;
                isd = true;
            } else if c == '7' {
                d = 7;
                isd = true;
            } else if c == '8' {
                d = 8;
                isd = true;
            } else if c == '9' {
                d = 9;
                isd = true;
            } else {
                d = 0;
                isd = false;
            }
            if isd {
                if ds.len() > 0 || d != 0 {
                    ds.push(d);
                }
            }
            i = i + 1;
        }
        proof {
            assert(s@.skip(start as int).take(n - start) =~= s@.skip(start as int));
        }
        let empty = ds.len() == 0;
        if empty {
            ds.push(0);
            proof {
                assert(ds@ =~= seq![0u8]);
            }
        }
        let sign = if negative && !empty {
            Sign::Negative
        } else {
            Sign::Positive
        };
        proof {
            if !empty {
                assert(ds@[0] != 0);
                assert(ds@ != seq![0u8]);
                lemma_val_lower(ds@);
                crate::digits::lemma_pow10_pos((ds@.len() - 1) as nat);
            } else {
                assert(parsed_digits(s@) == seq![0u8]);
                assert(seq![0u8].drop_last() =~= Seq::<u8>::empty());
                assert(val(Seq::<u8>::empty()) == 0);
            }
        }
        BigInt { sign, digits: ds }
    }

    /// Serializes to the canonical decimal string: a `-` prefix exactly for
    /// negative values, then the digits in order, nothing else.
    pub fn into_str(&self) -> (r: String)
        requires
            self.wf(),
        ensures
            r@ == serialized(self.sign, self.digits@),
    {
        let mut out = String::new();
        let negative = self.sign == Sign::Negative;
        if negative {
            proof {
                reveal_strlit("-");
            }
            out.append("-");
        }
        let ghost prefix: Seq<char> = if self.sign == Sign::Negative {
            seq!['-']
        } else {
            Seq::<char>::empty()
        };
        proof {
            assert(out@ =~= prefix);
            assert(self.digits@.take(0) =~= Seq::<u8>::empty());
            assert(out@ =~= prefix + self.digits@.take(0).map_values(|d: u8| char_of_digit(d)));
        }
        let n = self.digits.len();
        let mut i: usize = 0;
        while i < n
            invariant
                n == self.digits@.len(),
                i <= n,
                all_digits(self.digits@),
                prefix == if self.sign == Sign::Negative {
                    seq!['-']
                } else {
                    Seq::<char>::empty()
                },
                out@ == prefix + self.digits@.take(i as int).map_values(|d: u8| char_of_digit(d)),
            decreases n - i,
        {
            let d = self.digits[i];
            let cs = digit_str(d);
            out.append(cs);
            proof {
                assert(self.digits@.take(i + 1) =~= self.digits@.take(i as int).push(d));
                assert(self.digits@.take(i + 1).map_values(|x: u8| char_of_digit(x)) =~= self
                    .digits@.take(i as int).map_values(|x: u8| char_of_digit(x)).push(
                    char_of_digit(d),
                ));
                assert(out@ =~= prefix + self.digits@.take(i + 1).map_values(
                    |x: u8| char_of_digit(x),
                ));
            }
            i = i + 1;
        }
        proof {
            assert(self.digits@.take(n as int) =~= self.digits@);
        }
        out
    }

    /// Signed subtraction, defined as `self + (-rhs)`.
    pub fn sub(&self, rhs: &BigInt) -> (r: BigInt)
        requires
            self.wf(),
            rhs.wf(),
        ensures
            r.wf(),
            r.as_int() == self.as_int() - rhs.as_int(),
    {
        let n = rhs.neg();
        self.add(&n)
    }
}

/// A canonical decimal literal: `0`, a digit run with no leading zero, or
/// a minus sign followed by a digit run with no leading zero.
pub open spec fn canonical_literal(s: Seq<char>) -> bool {
    ||| (s.len() >= 1 && (forall|i: int| 0 <= i < s.len() ==> is_digit_char(s[i])) && s[0] != '0')
    ||| s =~= seq!['0']
    ||| (s.len() >= 2 && s[0] == '-' && (forall|i: int|
        1 <= i < s.len() ==> is_digit_char(s[i])) && s[1] != '0')
}

proof fn lemma_filter_all(t: Seq<char>)
    requires
        forall|i: int| 0 <= i < t.len() ==> is_digit_char(t[i]),
    ensures
        t.filter(|c: char| is_digit_char(c)) == t,
    decreases t.len(),
{
    reveal(Seq::filter);
    if t.len() > 0 {
        lemma_filter_all(t.drop_last());
        assert(t.drop_last().push(t.last()) =~= t);
    }
}

proof fn lemma_map_roundtrip(t: Seq<char>)
    requires
        forall|i: int| 0 <= i < t.len() ==> is_digit_char(t[i]),
    ensures
        t.map_values(|c: char| digit_of_char(c)).map_values(|d: u8| char_of_digit(d)) =~= t,
{
}

/// Round trip (serialization after parsing): every canonical decimal
/// literal parses to a value that serializes back to the same string.
pub proof fn lemma_round_trip(s: Seq<char>)
    requires
        canonical_literal(s),
    ensures
        serialized(parsed_sign(s), parsed_digits(s)) == s,
{
    reveal(Seq::filter);
    if s =~= seq!['0'] {
        assert(literal_body(s) == s);
        lemma_filter_all(s);
        let dv = digit_values(s);
        assert(dv =~= seq![0u8]);
        assert(strip_zeros(dv) == strip_zeros(dv.skip(1)));
        assert(dv.skip(1) =~= Seq::<u8>::empty());
        assert(parsed_digits(s) == seq![0u8]);
        assert(parsed_sign(s) == Sign::Positive);
        assert(serialized(Sign::Positive, seq![0u8]) =~= s);
    } else if s.len() >= 1 && (forall|i: int| 0 <= i < s.len() ==> is_digit_char(s[i])) && s[0]
        != '0' {
        assert(is_digit_char(s[0]));
        assert(literal_body(s) == s);
        lemma_filter_all(s);
        let dv = digit_values(s);
        assert(dv == s.map_values(|c: char| digit_of_char(c)));
        assert(dv[0] == digit_of_char(s[0]));
        assert(dv[0] != 0);
        assert(strip_zeros(dv) == dv);
        assert(dv.len() == s.len() >= 1);
        assert(parsed_digits(s) == dv);
        assert(!marked_negative(s));
        assert(parsed_sign(s) == Sign::Positive);
        lemma_map_roundtrip(s);
        assert(serialized(Sign::Positive, dv) == s);
    } else {
        let t = s.skip(1);
        assert(s.len() >= 2 && s[0] == '-');
        assert(forall|i: int| 0 <= i < t.len() ==> is_digit_char(t[i]));
        assert(literal_body(s) == t);
        lemma_filter_all(t);
        let dv = digit_values(t);
        assert(dv == t.map_values(|c: char| digit_of_char(c)));
        assert(t[0] == s[1]);
        assert(dv[0] == digit_of_char(t[0]));
        assert(dv[0] != 0);
        assert(strip_zeros(dv) == dv);
        assert(dv.len() == t.len() >= 1);
        assert(parsed_digits(s) == dv);
        assert(dv != seq![0u8]);
        assert(marked_negative(s));
        assert(parsed_sign(s) == Sign::Negative);
        lemma_map_roundtrip(t);
        assert(serialized(Sign::Negative, dv) =~= seq!['-'] + t);
        assert(seq!['-'] + t =~= s);
    }
}

/// The canonical representation is unique: well-formed values that denote
/// the same integer have the same sign and the same digits.
pub proof fn lemma_canonical_representation_unique(a: BigInt, b: BigInt)
    requires
        a.wf(),
        b.wf(),
        a.as_int() == b.as_int(),
    ensures
        a.sign == b.sign,
        a.digits@ == b.digits@,
{
    if a.as_int() == 0 {
        assert(val(a.digits@) == 0);
        assert(val(b.digits@) == 0);
        lemma_canon_zero(a.digits@);
        lemma_canon_zero(b.digits@);
        assert(a.digits@ =~= b.digits@);
    } else {
        assert(a.sign == b.sign);
        assert(val(a.digits@) == val(b.digits@));
        lemma_canon_unique(a.digits@, b.digits@);
    }
}

/// Commutativity of addition: any well-formed results of `a + b` and
/// `b + a` coincide.
pub proof fn lemma_add_commutes(a: BigInt, b: BigInt, ab: BigInt, ba: BigInt)
    requires
        a.wf(),
        b.wf(),
        ab.wf(),
        ba.wf(),
        ab.as_int() == a.as_int() + b.as_int(),
        ba.as_int() == b.as_int() + a.as_int(),
    ensures
        ab.sign == ba.sign,
        ab.digits@ == ba.digits@,
{
    lemma_canonical_representation_unique(ab, ba);
}

/// Commutativity of multiplication: any well-formed results of `a * b` and
/// `b * a` coincide.
pub proof fn lemma_mul_commutes(a: BigInt, b: BigInt, ab: BigInt, ba: BigInt)
    requires
        a.wf(),
        b.wf(),
        ab.wf(),
        ba.wf(),
        ab.as_int() == a.as_int() * b.as_int(),
        ba.as_int() == b.as_int() * a.as_int(),
    ensures
        ab.sign == ba.sign,
        ab.digits@ == ba.digits@,
{
    assert(a.as_int() * b.as_int() == b.as_int() * a.as_int()) by (nonlinear_arith);
    lemma_canonical_representation_unique(ab, ba);
}

/// Additive inverse: adding a value to its negation yields canonical zero,
/// positive with the single digit 0.
pub proof fn lemma_additive_inverse(a: BigInt, na: BigInt, z: BigInt)
    requires
        a.wf(),
        na.wf(),
        na.as_int() == -a.as_int(),
        z.wf(),
        z.as_int() == a.as_int() + na.as_int(),
    ensures
        z.sign == Sign::Positive,
        z.digits@ == seq![0u8],
{
    assert(z.as_int() == 0);
    assert(val(z.digits@) == 0);
    lemma_canon_zero(z.digits@);
}

/// Self-subtraction: subtracting a value from itself yields canonical
/// zero, positive with the single digit 0.
pub proof fn lemma_self_subtraction(a: BigInt, z: BigInt)
    requires
        a.wf(),
        z.wf(),
        z.as_int() == a.as_int() - a.as_int(),
    ensures
        z.sign == Sign::Positive,
        z.digits@ == seq![0u8],
{
    assert(z.as_int() == 0);
    assert(val(z.digits@) == 0);
    lemma_canon_zero(z.digits@);
}

/// Multiplicative identity: any well-formed result of `a * 1` is `a`
/// itself.
pub proof fn lemma_mul_identity(a: BigInt, one: BigInt, p: BigInt)
    requires
        a.wf(),
        one.wf(),
        one.as_int() == 1,
        p.wf(),
        p.as_int() == a.as_int() * one.as_int(),
    ensures
        p.sign == a.sign,
        p.digits@ == a.digits@,
{
    assert(a.as_int() * 1 == a.as_int()) by (nonlinear_arith);
    lemma_canonical_representation_unique(p, a);
}

/// Multiplicative annihilator: any well-formed result of `a * 0` is
/// canonical zero.
pub proof fn lemma_mul_annihilator(a: BigInt, zero: BigInt, p: BigInt)
    requires
        a.wf(),
        zero.wf(),
        zero.as_int() == 0,
        p.wf(),
        p.as_int() == a.as_int() * zero.as_int(),
    ensures
        p.sign == Sign::Positive,
        p.digits@ == seq![0u8],
{
    assert(a.as_int() * 0 == 0) by (nonlinear_arith);
    assert(val(p.digits@) == 0);
    lemma_canon_zero(p.digits@);
}

/// Division by zero fails for every dividend: `checked_div` answers
/// `Err(DivisionByZero)` exactly when the divisor denotes zero, and a
/// well-formed divisor denotes zero exactly when its magnitude is the
/// canonical zero `[0]` — whatever sign its literal carried, since parsing
/// and every operation force zero positive.
pub proof fn lemma_division_by_zero(rhs: BigInt)
    requires
        rhs.wf(),
    ensures
        (rhs.as_int() == 0) <==> rhs.digits@ == seq![0u8],
{
    lemma_canon_val_zero_iff(rhs.digits@);
    if rhs.digits@ == seq![0u8] {
        assert(rhs.digits@ =~= seq![0u8]);
    }
}

/// Division-multiplication consistency: for nonzero `b`, truncating
/// division takes any well-formed result of `a * b` back to `a`.
pub proof fn lemma_division_consistency(a: BigInt, b: BigInt, p: BigInt, q: BigInt)
    requires
        a.wf(),
        b.wf(),
        p.wf(),
        q.wf(),
        b.as_int() != 0,
        p.as_int() == a.as_int() * b.as_int(),
        q.as_int() == div_trunc(p.as_int(), b.as_int()),
    ensures
        q.sign == a.sign,
        q.digits@ == a.digits@,
{
    let ai = a.as_int();
    let bi = b.as_int();
    let pi = ai * bi;
    let absa = if ai >= 0 {
        ai
    } else {
        -ai
    };
    let absb = if bi >= 0 {
        bi
    } else {
        -bi
    };
    let absp = if pi >= 0 {
        pi
    } else {
        -pi
    };
    assert(absp == absa * absb) by (nonlinear_arith)
        requires
            pi == ai * bi,
            absa == if ai >= 0 {
                ai
            } else {
                -ai
            },
            absb == if bi >= 0 {
                bi
            } else {
                -bi
            },
            absp == if pi >= 0 {
                pi
            } else {
                -pi
            },
    ;
    vstd::arithmetic::div_mod::lemma_div_by_multiple(absa, absb);
    assert(absa * absb == absp);
    assert(absp / absb == absa);
    if ai == 0 {
        assert(pi == 0) by (nonlinear_arith)
            requires
                pi == ai * bi,
                ai == 0,
        ;
        assert(div_trunc(pi, bi) == 0);
    } else {
        assert((pi < 0) <==> ((ai < 0) != (bi < 0))) by (nonlinear_arith)
            requires
                pi == ai * bi,
                ai != 0,
                bi != 0,
        ;
        assert(div_trunc(pi, bi) == ai);
    }
    lemma_canonical_representation_unique(q, a);
}

} // verus!
