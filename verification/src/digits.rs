//! Decimal magnitudes as sequences of digits in the range 0..=9.
//!
//! A magnitude is a `Vec<u8>` of single decimal digits. Most functions here
//! state their contracts over `val` (digits read most-significant first) or
//! `val_rev` (least-significant first); the arithmetic primitives work
//! least-significant first, exactly as column arithmetic does.

use vstd::prelude::*;
use vstd::arithmetic::div_mod::{
    lemma_div_is_ordered, lemma_div_multiples_vanish, lemma_div_nonincreasing,
    lemma_multiply_divide_lt,
};

verus! {

/// Outcome of comparing two magnitudes.
#[derive(Clone, Copy, PartialEq, Eq, Structural, Debug)]
pub enum Cmp {
    Less,
    Equal,
    Greater,
}

/// Every element is a single decimal digit.
pub open spec fn all_digits(s: Seq<u8>) -> bool {
    forall|i: int| 0 <= i < s.len() ==> s[i] <= 9
}

/// 10 to the n-th power.
pub open spec fn pow10(n: nat) -> nat
    decreases n,
{
    if n == 0 {
        1
    } else {
        10 * pow10((n - 1) as nat)
    }
}

/// Value of a digit sequence read most-significant digit first.
pub open spec fn val(s: Seq<u8>) -> nat
    decreases s.len(),
{
    if s.len() == 0 {
        0
    } else {
        (val(s.drop_last()) * 10 + s.last()) as nat
    }
}

/// Value of a digit sequence read least-significant digit first.
pub open spec fn val_rev(s: Seq<u8>) -> nat
    decreases s.len(),
{
    if s.len() == 0 {
        0
    } else {
        (s.first() + 10 * val_rev(s.drop_first())) as nat
    }
}

/// A canonical magnitude: nonempty, digits only, and no leading zero except
/// for the single digit 0 itself.
pub open spec fn canon(s: Seq<u8>) -> bool {
    &&& all_digits(s)
    &&& s.len() >= 1
    &&& (s.len() == 1 || s[0] != 0)
}

/// No leading zero, read least-significant digit first: empty, the single
/// digit 0, or a nonzero most-significant digit.
pub open spec fn canon_rev(s: Seq<u8>) -> bool {
    s.len() == 0 || s.last() != 0 || s == seq![0u8]
}

pub proof fn lemma_pow10_pos(n: nat)
    ensures
        pow10(n) >= 1,
    decreases n,
{
    if n > 0 {
        lemma_pow10_pos((n - 1) as nat);
    }
}

proof fn lemma_pow10_add(a: nat, b: nat)
    ensures
        pow10(a + b) == pow10(a) * pow10(b),
    decreases a,
{
    if a == 0 {
        assert(pow10(0) == 1);
        assert(pow10(a + b) == pow10(b));
    } else {
        lemma_pow10_add((a - 1) as nat, b);
        assert(pow10(a + b) == 10 * pow10((a + b - 1) as nat));
        assert(10 * (pow10((a - 1) as nat) * pow10(b)) == (10 * pow10((a - 1) as nat)) * pow10(b))
            by (nonlinear_arith);
    }
}

/// Appending a digit on the least-significant end of an LSB-first sequence.
proof fn lemma_val_rev_push(s: Seq<u8>, d: u8)
    ensures
        val_rev(s.push(d)) == val_rev(s) + d * pow10(s.len()),
    decreases s.len(),
{
    if s.len() == 0 {
        assert(s.push(d) =~= seq![d]);
        assert(seq![d].drop_first() =~= Seq::<u8>::empty());
        assert(val_rev(Seq::<u8>::empty()) == 0);
        assert(val_rev(seq![d]) == d);
        assert(pow10(0) == 1);
    } else {
        assert(s.push(d).drop_first() =~= s.drop_first().push(d));
        lemma_val_rev_push(s.drop_first(), d);
        assert(s.push(d).first() == s.first());
        assert(val_rev(s.push(d)) == s.first() + 10 * (val_rev(s.drop_first()) + d * pow10(
            (s.len() - 1) as nat,
        )));
        assert(10 * (d * pow10((s.len() - 1) as nat)) == d * (10 * pow10((s.len() - 1) as nat)))
            by (nonlinear_arith);
        assert(pow10(s.len()) == 10 * pow10((s.len() - 1) as nat));
    }
}

proof fn lemma_val_rev_take_step(s: Seq<u8>, i: int)
    requires
        0 <= i < s.len(),
    ensures
        val_rev(s.take(i + 1)) == val_rev(s.take(i)) + s[i] * pow10(i as nat),
{
    assert(s.take(i + 1) =~= s.take(i).push(s[i]));
    lemma_val_rev_push(s.take(i), s[i]);
}

proof fn lemma_val_rev_upper(s: Seq<u8>)
    requires
        all_digits(s),
    ensures
        val_rev(s) < pow10(s.len()),
    decreases s.len(),
{
    if s.len() == 0 {
    } else {
        lemma_val_rev_upper(s.drop_first());
        assert(s.first() <= 9);
        assert(val_rev(s.drop_first()) + 1 <= pow10((s.len() - 1) as nat));
        assert(10 * (val_rev(s.drop_first()) + 1) <= 10 * pow10((s.len() - 1) as nat))
            by (nonlinear_arith)
            requires
                val_rev(s.drop_first()) + 1 <= pow10((s.len() - 1) as nat),
        ;
    }
}

proof fn lemma_val_rev_lower(s: Seq<u8>)
    requires
        s.len() >= 1,
        s.last() != 0,
    ensures
        val_rev(s) >= pow10((s.len() - 1) as nat),
{
    let p = pow10((s.len() - 1) as nat);
    lemma_val_rev_push(s.drop_last(), s.last());
    assert(s.drop_last().push(s.last()) =~= s);
    lemma_pow10_pos((s.len() - 1) as nat);
    assert(s.last() * p >= 1 * p) by (nonlinear_arith)
        requires
            s.last() >= 1,
            p >= 0,
    ;
}

/// MSB-first value split at a cut point.
proof fn lemma_val_split(s: Seq<u8>, i: int)
    requires
        0 <= i <= s.len(),
    ensures
        val(s) == val(s.take(i)) * pow10((s.len() - i) as nat) + val(s.skip(i)),
    decreases s.len() - i,
{
    if i == s.len() {
        assert(s.take(i) =~= s);
        assert(s.skip(i) =~= Seq::<u8>::empty());
        assert(val(s) == val(s.take(i)) * 1);
    } else {
        lemma_val_split(s.drop_last(), i);
        assert(s.drop_last().take(i) =~= s.take(i));
        assert(s.skip(i).drop_last() =~= s.drop_last().skip(i));
        assert(s.skip(i).len() > 0);
        assert(s.skip(i).last() == s.last());
        let n = (s.len() - i - 1) as nat;
        assert(val(s) == val(s.drop_last()) * 10 + s.last());
        assert(val(s.drop_last()) == val(s.take(i)) * pow10(n) + val(s.drop_last().skip(i)));
        assert(val(s.skip(i)) == val(s.drop_last().skip(i)) * 10 + s.last());
        assert((val(s.take(i)) * pow10(n) + val(s.drop_last().skip(i))) * 10 == val(s.take(i)) * (10
            * pow10(n)) + val(s.drop_last().skip(i)) * 10) by (nonlinear_arith);
    }
}

pub proof fn lemma_val_upper(s: Seq<u8>)
    requires
        all_digits(s),
    ensures
        val(s) < pow10(s.len()),
    decreases s.len(),
{
    if s.len() == 0 {
    } else {
        lemma_val_upper(s.drop_last());
        assert(s.last() <= 9);
        assert(val(s.drop_last()) + 1 <= pow10((s.len() - 1) as nat));
        assert((val(s.drop_last()) + 1) * 10 <= pow10((s.len() - 1) as nat) * 10)
            by (nonlinear_arith)
            requires
                val(s.drop_last()) + 1 <= pow10((s.len() - 1) as nat),
        ;
    }
}

pub proof fn lemma_val_lower(s: Seq<u8>)
    requires
        s.len() >= 1,
        s[0] >= 1,
    ensures
        val(s) >= pow10((s.len() - 1) as nat),
    decreases s.len(),
{
    if s.len() == 1 {
        assert(val(s) == val(s.drop_last()) * 10 + s.last());
    } else {
        lemma_val_lower(s.drop_last());
        let n = (s.len() - 2) as nat;
        assert(val(s.drop_last()) * 10 >= pow10(n) * 10) by (nonlinear_arith)
            requires
                val(s.drop_last()) >= pow10(n),
        ;
    }
}

/// The two value readings agree once one of the sequences is reversed.
pub proof fn lemma_val_reverse(s: Seq<u8>)
    ensures
        val(s.reverse()) == val_rev(s),
    decreases s.len(),
{
    if s.len() == 0 {
        assert(s.reverse() =~= Seq::<u8>::empty());
    } else {
        lemma_val_reverse(s.drop_first());
        assert(s.reverse().drop_last() =~= s.drop_first().reverse());
        assert(s.reverse().last() == s.first());
        assert(val(s.reverse()) == val_rev(s.drop_first()) * 10 + s.first());
    }
}

/// Dropping a leading zero does not change the value.
proof fn lemma_val_skip_zero(s: Seq<u8>)
    requires
        s.len() >= 1,
        s[0] == 0,
    ensures
        val(s) == val(s.skip(1)),
{
    lemma_val_split(s, 1);
    assert(s.take(1) =~= seq![s[0]]);
    assert(seq![s[0]].drop_last() =~= Seq::<u8>::empty());
    assert(val(Seq::<u8>::empty()) == 0);
    assert(val(seq![s[0]]) == 0);
    assert(val(s.take(1)) == 0);
    assert(val(s.take(1)) * pow10((s.len() - 1) as nat) == 0) by (nonlinear_arith)
        requires
            val(s.take(1)) == 0,
    ;
}

/// Reverses a digit vector, so that code can move between the
/// most-significant-first and least-significant-first readings.
pub fn reverse_digits(v: &Vec<u8>) -> (r: Vec<u8>)
    ensures
        r@ == v@.reverse(),
{
    let n = v.len();
    let mut r: Vec<u8> = Vec::new();
    let mut i: usize = 0;
    while i < n
        invariant
            n == v@.len(),
            i <= n,
            r@.len() == i,
            forall|j: int| 0 <= j < i ==> r@[j] == v@[n - 1 - j],
        decreases n - i,
    {
        r.push(v[n - 1 - i]);
        i = i + 1;
    }
    assert(r@ =~= v@.reverse());
    r
}

/// Strips leading zeros from an MSB-first magnitude; an all-zero or empty
/// input collapses to the canonical zero `[0]`.
pub fn trim_leading_zeros(v: &Vec<u8>) -> (r: Vec<u8>)
    requires
        all_digits(v@),
    ensures
        canon(r@),
        val(r@) == val(v@),
{
    let n = v.len();
    let mut i: usize = 0;
    proof {
        assert(v@.skip(0) =~= v@);
    }
    while i < n && v[i] == 0
        invariant
            n == v@.len(),
            i <= n,
            all_digits(v@),
            val(v@.skip(i as int)) == val(v@),
            forall|j: int| 0 <= j < i ==> v@[j] == 0,
        decreases n - i,
    {
        proof {
            lemma_val_skip_zero(v@.skip(i as int));
            assert(v@.skip(i as int).skip(1) =~= v@.skip(i + 1));
        }
        i = i + 1;
    }
    if i == n {
        let mut r: Vec<u8> = Vec::new();
        r.push(0);
        proof {
            assert(v@.skip(n as int) =~= Seq::<u8>::empty());
            assert(r@ =~= seq![0u8]);
            assert(val(seq![0u8]) == val(Seq::<u8>::empty().push(0u8)));
            assert(Seq::<u8>::empty().push(0u8).drop_last() =~= Seq::<u8>::empty());
        }
        r
    } else {
        let mut r: Vec<u8> = Vec::new();
        let mut j: usize = i;
        while j < n
            invariant
                n == v@.len(),
                i <= j <= n,
                r@ =~= v@.subrange(i as int, j as int),
            decreases n - j,
        {
            r.push(v[j]);
            j = j + 1;
        }
        proof {
            assert(r@ =~= v@.skip(i as int));
        }
        r
    }
}

/// The first `i` elements, or all of them when `i` runs past the end.
pub open spec fn take_upto(s: Seq<u8>, i: int) -> Seq<u8> {
    if i <= s.len() {
        s.take(i)
    } else {
        s
    }
}

pub proof fn lemma_pow10_mono(a: nat, b: nat)
    requires
        a <= b,
    ensures
        pow10(a) <= pow10(b),
    decreases b,
{
    if a < b {
        lemma_pow10_mono(a, (b - 1) as nat);
        lemma_pow10_pos((b - 1) as nat);
    }
}

/// Column addition, least-significant digit first; the shorter operand is
/// read as if padded with zeros. For operands free of leading zeros the
/// sum is too: the one digit ever appended beyond the operands' length is
/// a nonzero carry.
pub fn slice_add(lhs: &Vec<u8>, rhs: &Vec<u8>) -> (r: Vec<u8>)
    requires
        all_digits(lhs@),
        all_digits(rhs@),
    ensures
        all_digits(r@),
        val_rev(r@) == val_rev(lhs@) + val_rev(rhs@),
        canon_rev(lhs@) && canon_rev(rhs@) ==> canon_rev(r@),
{
    let la = lhs.len();
    let lb = rhs.len();
    let n = if la >= lb {
        la
    } else {
        lb
    };
    let mut r: Vec<u8> = Vec::new();
    let mut carry: u8 = 0;
    let mut i: usize = 0;
    proof {
        assert(take_upto(lhs@, 0) =~= Seq::<u8>::empty());
        assert(take_upto(rhs@, 0) =~= Seq::<u8>::empty());
    }
    while i < n
        invariant
            la == lhs@.len(),
            lb == rhs@.len(),
            n == if la >= lb { la } else { lb },
            i <= n,
            all_digits(lhs@),
            all_digits(rhs@),
            all_digits(r@),
            r@.len() == i,
            carry <= 1,
            val_rev(r@) + carry * pow10(i as nat) == val_rev(take_upto(lhs@, i as int)) + val_rev(
                take_upto(rhs@, i as int),
            ),
        decreases n - i,
    {
        let a = if i < la {
            lhs[i]
        } else {
            0
        };
        let b = if i < lb {
            rhs[i]
        } else {
            0
        };
        let sum = a + b + carry;
        let digit = sum % 10;
        let c2 = sum / 10;
        proof {
            let p = pow10(i as nat);
            lemma_val_rev_push(r@, digit);
            if i < la {
                lemma_val_rev_take_step(lhs@, i as int);
                assert(take_upto(lhs@, i + 1) == lhs@.take(i + 1));
            } else {
                assert(take_upto(lhs@, i + 1) == take_upto(lhs@, i as int));
            }
            if i < lb {
                lemma_val_rev_take_step(rhs@, i as int);
                assert(take_upto(rhs@, i + 1) == rhs@.take(i + 1));
            } else {
                assert(take_upto(rhs@, i + 1) == take_upto(rhs@, i as int));
            }
            assert(digit + 10 * c2 == a + b + carry);
            assert(pow10((i + 1) as nat) == 10 * p);
            let di = digit as int;
            let ci = c2 as int;
            let ai = a as int;
            let bi = b as int;
            let cri = carry as int;
            let pi = p as int;
            assert(di * pi + ci * (10 * pi) == ai * pi + bi * pi + cri * pi) by (nonlinear_arith)
                requires
                    di + 10 * ci == ai + bi + cri,
            ;
        }
        r.push(digit);
        carry = c2;
        i = i + 1;
    }
    proof {
        assert(take_upto(lhs@, n as int) == lhs@);
        assert(take_upto(rhs@, n as int) == rhs@);
    }
    if carry != 0 {
        proof {
            lemma_val_rev_push(r@, carry);
        }
        r.push(carry);
        proof {
            assert(r@.last() == carry);
        }
    } else {
        proof {
            if canon_rev(lhs@) && canon_rev(rhs@) && r@.len() >= 2 {
                if la >= lb {
                    assert(lhs@.len() == n >= 2);
                    assert(lhs@ != seq![0u8]);
                    assert(lhs@.last() != 0);
                    lemma_val_rev_lower(lhs@);
                    assert(val_rev(r@) >= pow10((n - 1) as nat));
                } else {
                    assert(rhs@.len() == n >= 2);
                    assert(rhs@ != seq![0u8]);
                    assert(rhs@.last() != 0);
                    lemma_val_rev_lower(rhs@);
                    assert(val_rev(r@) >= pow10((n - 1) as nat));
                }
                if r@.last() == 0 {
                    lemma_val_rev_push(r@.drop_last(), r@.last());
                    assert(r@.drop_last().push(r@.last()) =~= r@);
                    assert(val_rev(r@) == val_rev(r@.drop_last()));
                    assert(all_digits(r@.drop_last()));
                    lemma_val_rev_upper(r@.drop_last());
                    assert(false);
                }
            }
            if r@.len() == 1 && r@.last() == 0 {
                assert(r@ =~= seq![0u8]);
            }
        }
    }
    r
}

/// Column subtraction with borrow, least-significant digit first. The
/// result is canonical: most-significant zeros are stripped, and a zero
/// difference comes back as the single digit 0.
pub fn slice_sub(lhs: &Vec<u8>, rhs: &Vec<u8>) -> (r: Vec<u8>)
    requires
        all_digits(lhs@),
        all_digits(rhs@),
        rhs@.len() <= lhs@.len(),
        val_rev(rhs@) <= val_rev(lhs@),
    ensures
        all_digits(r@),
        val_rev(r@) == val_rev(lhs@) - val_rev(rhs@),
        r@.len() >= 1,
        canon_rev(r@),
{
    let la = lhs.len();
    let lb = rhs.len();
    let mut r: Vec<u8> = Vec::new();
    let mut borrow: u8 = 0;
    let mut i: usize = 0;
    proof {
        assert(lhs@.take(0) =~= Seq::<u8>::empty());
        assert(take_upto(rhs@, 0) =~= Seq::<u8>::empty());
    }
    while i < la
        invariant
            la == lhs@.len(),
            lb == rhs@.len(),
            lb <= la,
            i <= la,
            all_digits(lhs@),
            all_digits(rhs@),
            all_digits(r@),
            r@.len() == i,
            borrow <= 1,
            val_rev(r@) == val_rev(lhs@.take(i as int)) - val_rev(take_upto(rhs@, i as int))
                + borrow * pow10(i as nat),
        decreases la - i,
    {
        let a = lhs[i];
        let b = if i < lb {
            rhs[i]
        } else {
            0
        };
        let bb = b + borrow;
        let digit: u8;
        let nb: u8;
        if a < bb {
            digit = a + 10 - bb;
            nb = 1;
        } else {
            digit = a - bb;
            nb = 0;
        }
        proof {
            let p = pow10(i as nat);
            lemma_val_rev_push(r@, digit);
            lemma_val_rev_take_step(lhs@, i as int);
            if i < lb {
                lemma_val_rev_take_step(rhs@, i as int);
                assert(take_upto(rhs@, i + 1) == rhs@.take(i + 1));
            } else {
                assert(take_upto(rhs@, i + 1) == take_upto(rhs@, i as int));
            }
            assert(digit == a - b - borrow + 10 * nb);
            assert(pow10((i + 1) as nat) == 10 * p);
            assert(digit * p == a * p - b * p - borrow * p + nb * (10 * p)) by (nonlinear_arith)
                requires
                    digit == a - b - borrow + 10 * nb,
            ;
        }
        r.push(digit);
        borrow = nb;
        i = i + 1;
    }
    proof {
        assert(lhs@.take(la as int) == lhs@);
        assert(take_upto(rhs@, la as int) == rhs@);
        if borrow != 0 {
            lemma_val_rev_upper(r@);
            assert(false);
        }
    }
    while r.len() > 0 && r[r.len() - 1] == 0
        invariant
            all_digits(r@),
            val_rev(r@) == val_rev(lhs@) - val_rev(rhs@),
        decreases r@.len(),
    {
        proof {
            lemma_val_rev_push(r@.drop_last(), r@.last());
            assert(r@.drop_last().push(r@.last()) =~= r@);
            assert(all_digits(r@.drop_last()));
        }
        let _ = r.pop();
    }
    if r.len() == 0 {
        r.push(0);
        proof {
            assert(r@ =~= seq![0u8]);
            assert(seq![0u8].drop_first() =~= Seq::<u8>::empty());
            assert(val_rev(Seq::<u8>::empty()) == 0);
            assert(val_rev(seq![0u8]) == 0);
        }
    }
    r
}

proof fn lemma_cmp_prefix(l: Seq<u8>, r: Seq<u8>, k: int)
    requires
        l.len() == r.len(),
        all_digits(l),
        all_digits(r),
        0 <= k < l.len(),
        l.take(k) == r.take(k),
        l[k] < r[k],
    ensures
        val(l) < val(r),
{
    let n = l.len() as int;
    let p = pow10((n - k - 1) as nat);
    lemma_val_split(l, k + 1);
    lemma_val_split(r, k + 1);
    assert(l.take(k + 1).drop_last() =~= l.take(k));
    assert(r.take(k + 1).drop_last() =~= r.take(k));
    assert(l.take(k + 1).last() == l[k]);
    assert(r.take(k + 1).last() == r[k]);
    assert(val(l.take(k + 1)) == val(l.take(k)) * 10 + l[k]);
    assert(val(r.take(k + 1)) == val(r.take(k)) * 10 + r[k]);
    assert(val(l.take(k + 1)) + 1 <= val(r.take(k + 1)));
    assert(all_digits(l.skip(k + 1)));
    lemma_val_upper(l.skip(k + 1));
    assert(val(l.skip(k + 1)) < p);
    assert((val(l.take(k + 1)) + 1) * p <= val(r.take(k + 1)) * p) by (nonlinear_arith)
        requires
            val(l.take(k + 1)) + 1 <= val(r.take(k + 1)),
            p >= 0,
    ;
    assert((val(l.take(k + 1)) + 1) * p == val(l.take(k + 1)) * p + p) by (nonlinear_arith);
}

/// Is `s` safe for the length-first comparison: either it has no leading
/// zero at all, or it is exactly the canonical zero `[0]`.
pub open spec fn cmp_ok(s: Seq<u8>) -> bool {
    s.len() == 0 || s[0] != 0 || s =~= seq![0u8]
}

/// Compares two magnitudes, most-significant digit first: lengths first
/// (valid because neither has leading zeros), then lexicographically.
pub fn cmp(lhs: &Vec<u8>, rhs: &Vec<u8>) -> (r: Cmp)
    requires
        all_digits(lhs@),
        all_digits(rhs@),
        lhs@.len() == rhs@.len() || (cmp_ok(lhs@) && cmp_ok(rhs@) && !(lhs@ =~= seq![0u8]
            && rhs@.len() == 0) && !(rhs@ =~= seq![0u8] && lhs@.len() == 0)),
    ensures
        (r == Cmp::Less) <==> val(lhs@) < val(rhs@),
        (r == Cmp::Equal) <==> val(lhs@) == val(rhs@),
        (r == Cmp::Greater) <==> val(lhs@) > val(rhs@),
{
    let la = lhs.len();
    let lb = rhs.len();
    if la != lb {
        proof {
            if la < lb {
                lemma_val_upper(lhs@);
                lemma_pow10_mono(la as nat, (lb - 1) as nat);
                assert(rhs@[0] != 0) by {
                    if rhs@[0] == 0 {
                        assert(rhs@ =~= seq![0u8]);
                        assert(lhs@.len() == 0);
                    }
                };
                lemma_val_lower(rhs@);
            } else {
                lemma_val_upper(rhs@);
                lemma_pow10_mono(lb as nat, (la - 1) as nat);
                assert(lhs@[0] != 0) by {
                    if lhs@[0] == 0 {
                        assert(lhs@ =~= seq![0u8]);
                        assert(rhs@.len() == 0);
                    }
                };
                lemma_val_lower(lhs@);
            }
        }
        if la < lb {
            return Cmp::Less;
        } else {
            return Cmp::Greater;
        }
    }
    let mut i: usize = 0;
    while i < la
        invariant
            la == lhs@.len(),
            la == rhs@.len(),
            i <= la,
            all_digits(lhs@),
            all_digits(rhs@),
            lhs@.take(i as int) == rhs@.take(i as int),
        decreases la - i,
    {
        if lhs[i] < rhs[i] {
            proof {
                lemma_cmp_prefix(lhs@, rhs@, i as int);
            }
            return Cmp::Less;
        }
        if lhs[i] > rhs[i] {
            proof {
                lemma_cmp_prefix(rhs@, lhs@, i as int);
            }
            return Cmp::Greater;
        }
        proof {
            assert(lhs@.take(i + 1) =~= rhs@.take(i + 1));
        }
        i = i + 1;
    }
    proof {
        assert(lhs@ =~= lhs@.take(la as int));
        assert(rhs@ =~= rhs@.take(la as int));
    }
    Cmp::Equal
}

/// Halves a magnitude, most-significant digit first: long division by two,
/// carrying each step's remainder into the next digit; the quotient is
/// returned in canonical form.
pub fn slice_div_by_2(v: &Vec<u8>) -> (r: Vec<u8>)
    requires
        all_digits(v@),
    ensures
        canon(r@),
        val(r@) == val(v@) / 2,
{
    let n = v.len();
    let mut q: Vec<u8> = Vec::new();
    let mut rem: u8 = 0;
    let mut i: usize = 0;
    proof {
        assert(v@.take(0) =~= Seq::<u8>::empty());
    }
    while i < n
        invariant
            n == v@.len(),
            i <= n,
            all_digits(v@),
            all_digits(q@),
            q@.len() == i,
            rem <= 1,
            val(v@.take(i as int)) == 2 * val(q@) + rem,
        decreases n - i,
    {
        let c = rem * 10 + v[i];
        let digit = c / 2;
        let nr = c % 2;
        proof {
            assert(v@.take(i + 1).drop_last() =~= v@.take(i as int));
            assert(v@.take(i + 1).last() == v@[i as int]);
            assert(q@.push(digit).drop_last() =~= q@);
        }
        q.push(digit);
        rem = nr;
        i = i + 1;
    }
    proof {
        assert(v@.take(n as int) =~= v@);
        assert(val(q@) == val(v@) / 2) by (nonlinear_arith)
            requires
                val(v@) == 2 * val(q@) + rem,
                0 <= rem < 2,
        ;
    }
    trim_leading_zeros(&q)
}

/// Equal-length digit sequences with the same value are identical.
pub proof fn lemma_digits_val_injective(a: Seq<u8>, b: Seq<u8>)
    requires
        all_digits(a),
        all_digits(b),
        a.len() == b.len(),
        val(a) == val(b),
    ensures
        a == b,
    decreases a.len(),
{
    if a.len() == 0 {
        assert(a =~= b);
    } else {
        assert(val(a) == val(a.drop_last()) * 10 + a.last());
        assert(val(b) == val(b.drop_last()) * 10 + b.last());
        assert(a.last() <= 9 && b.last() <= 9);
        assert(a.last() == b.last() && val(a.drop_last()) == val(b.drop_last())) by (nonlinear_arith)
            requires
                val(a.drop_last()) * 10 + a.last() == val(b.drop_last()) * 10 + b.last(),
                a.last() <= 9,
                b.last() <= 9,
                val(a.drop_last()) >= 0,
                val(b.drop_last()) >= 0,
        ;
        lemma_digits_val_injective(a.drop_last(), b.drop_last());
        assert(a =~= a.drop_last().push(a.last()));
        assert(b =~= b.drop_last().push(b.last()));
    }
}

/// A canonical magnitude with value zero is exactly `[0]`.
pub proof fn lemma_canon_zero(s: Seq<u8>)
    requires
        canon(s),
        val(s) == 0,
    ensures
        s =~= seq![0u8],
{
    if s.len() > 1 {
        lemma_val_lower(s);
        lemma_pow10_pos((s.len() - 1) as nat);
        assert(false);
    }
    assert(val(s) == val(s.drop_last()) * 10 + s.last());
    assert(s.last() == 0);
}

/// Among canonical magnitudes, a smaller value never needs more digits.
pub proof fn lemma_canon_len_le(a: Seq<u8>, b: Seq<u8>)
    requires
        canon(a),
        canon(b),
        val(a) <= val(b),
    ensures
        a.len() <= b.len(),
{
    if a.len() > b.len() {
        if a[0] == 0 {
            assert(a.len() == 1);
            assert(false);
        }
        lemma_val_lower(a);
        lemma_val_upper(b);
        lemma_pow10_mono(b.len(), (a.len() - 1) as nat);
        assert(false);
    }
}

/// Canonical magnitudes are a unique representation: equal values mean
/// equal digit sequences.
pub proof fn lemma_canon_unique(a: Seq<u8>, b: Seq<u8>)
    requires
        canon(a),
        canon(b),
        val(a) == val(b),
    ensures
        a == b,
{
    lemma_canon_len_le(a, b);
    lemma_canon_len_le(b, a);
    lemma_digits_val_injective(a, b);
}

/// A canonical magnitude has value zero only as `[0]`, and a positive value
/// exactly when it is not `[0]`.
pub proof fn lemma_canon_val_zero_iff(s: Seq<u8>)
    requires
        canon(s),
    ensures
        (val(s) == 0) <==> (s =~= seq![0u8]),
{
    if val(s) == 0 {
        lemma_canon_zero(s);
    }
    if s =~= seq![0u8] {
        assert(s.drop_last() =~= Seq::<u8>::empty());
        assert(val(Seq::<u8>::empty()) == 0);
        assert(val(s) == 0);
    }
}

pub proof fn lemma_val_rev_of_reverse(s: Seq<u8>)
    ensures
        val_rev(s.reverse()) == val(s),
{
    lemma_val_reverse(s.reverse());
    assert(s.reverse().reverse() =~= s);
}

/// Schoolbook multiplication, least-significant digit first: each digit of
/// `rhs` forms a shifted partial product of `lhs`, and the partial products
/// are accumulated with `slice_add`. The accumulation leaves high-order
/// zeros behind a zero factor, so the product is trimmed to canonical
/// form: no leading zeros, and a zero product as the single digit 0.
pub fn slice_mul(lhs: &Vec<u8>, rhs: &Vec<u8>) -> (r: Vec<u8>)
    requires
        all_digits(lhs@),
        all_digits(rhs@),
    ensures
        all_digits(r@),
        val_rev(r@) == val_rev(lhs@) * val_rev(rhs@),
        r@.len() >= 1,
        canon_rev(r@),
{
    let la = lhs.len();
    let lb = rhs.len();
    let mut acc: Vec<u8> = Vec::new();
    let mut i: usize = 0;
    proof {
        assert(rhs@.take(0) =~= Seq::<u8>::empty());
        assert(val_rev(lhs@) * 0 == 0) by (nonlinear_arith);
    }
    while i < lb
        invariant
            la == lhs@.len(),
            lb == rhs@.len(),
            i <= lb,
            all_digits(lhs@),
            all_digits(rhs@),
            all_digits(acc@),
            val_rev(acc@) == val_rev(lhs@) * val_rev(rhs@.take(i as int)),
        decreases lb - i,
    {
        let d = rhs[i];
        let mut tmp: Vec<u8> = Vec::new();
        let mut j: usize = 0;
        while j < i
            invariant
                j <= i,
                tmp@.len() == j,
                all_digits(tmp@),
                val_rev(tmp@) == 0,
            decreases i - j,
        {
            proof {
                lemma_val_rev_push(tmp@, 0);
            }
            tmp.push(0);
            j = j + 1;
        }
        let mut carry: u8 = 0;
        let mut k: usize = 0;
        proof {
            assert(lhs@.take(0) =~= Seq::<u8>::empty());
            assert((d as int) * 0 * (pow10(i as nat) as int) == 0) by (nonlinear_arith);
        }
        while k < la
            invariant
                la == lhs@.len(),
                k <= la,
                all_digits(lhs@),
                d <= 9,
                all_digits(tmp@),
                tmp@.len() == i + k,
                carry <= 8,
                val_rev(tmp@) + carry * pow10((i + k) as nat) == d * val_rev(
                    lhs@.take(k as int),
                ) * pow10(i as nat),
            decreases la - k,
        {
            let x = lhs[k];
            proof {
                assert(x <= 9);
                assert(d * x <= 81) by (nonlinear_arith)
                    requires
                        d <= 9,
                        x <= 9,
                ;
            }
            let sum = d * x + carry;
            let digit = sum % 10;
            let c2 = sum / 10;
            proof {
                lemma_val_rev_push(tmp@, digit);
                lemma_val_rev_take_step(lhs@, k as int);
                lemma_pow10_add(i as nat, k as nat);
                let p = pow10((i + k) as nat) as int;
                let pi = pow10(i as nat) as int;
                let pk = pow10(k as nat) as int;
                let di = d as int;
                let xi = x as int;
                let cri = carry as int;
                let ci = c2 as int;
                let gi = digit as int;
                let lk = val_rev(lhs@.take(k as int)) as int;
                assert(gi + 10 * ci == di * xi + cri);
                assert(pow10((i + k + 1) as nat) == 10 * pow10((i + k) as nat));
                assert(di * (lk + xi * pk) * pi == di * lk * pi + di * xi * p) by (nonlinear_arith)
                    requires
                        p == pi * pk,
                ;
                assert(gi * p + ci * (10 * p) == di * xi * p + cri * p) by (nonlinear_arith)
                    requires
                        gi + 10 * ci == di * xi + cri,
                ;
            }
            tmp.push(digit);
            carry = c2;
            k = k + 1;
        }
        if carry != 0 {
            proof {
                lemma_val_rev_push(tmp@, carry);
            }
            tmp.push(carry);
        }
        proof {
            assert(lhs@.take(la as int) =~= lhs@);
        }
        let newacc = slice_add(&acc, &tmp);
        proof {
            lemma_val_rev_take_step(rhs@, i as int);
            let lv = val_rev(lhs@) as int;
            let ti = val_rev(rhs@.take(i as int)) as int;
            let di = d as int;
            let pi = pow10(i as nat) as int;
            assert(lv * (ti + di * pi) == lv * ti + di * lv * pi) by (nonlinear_arith);
        }
        acc = newacc;
        i = i + 1;
    }
    proof {
        assert(rhs@.take(lb as int) =~= rhs@);
    }
    while acc.len() > 0 && acc[acc.len() - 1] == 0
        invariant
            all_digits(acc@),
            val_rev(acc@) == val_rev(lhs@) * val_rev(rhs@),
        decreases acc@.len(),
    {
        proof {
            lemma_val_rev_push(acc@.drop_last(), acc@.last());
            assert(acc@.drop_last().push(acc@.last()) =~= acc@);
            assert(all_digits(acc@.drop_last()));
        }
        let _ = acc.pop();
    }
    if acc.len() == 0 {
        acc.push(0);
        proof {
            assert(acc@ =~= seq![0u8]);
            assert(seq![0u8].drop_first() =~= Seq::<u8>::empty());
            assert(val_rev(Seq::<u8>::empty()) == 0);
            assert(val_rev(seq![0u8]) == 0);
        }
    }
    acc
}

/// Truncating division of magnitudes by binary search over candidate
/// quotients, most-significant digit first: the midpoint is rounded up with
/// `slice_add` and `slice_div_by_2`, multiplied back with `slice_mul` and
/// placed against the dividend with `cmp`.
#[verifier::rlimit(60)]
pub fn slice_div(lhs: &Vec<u8>, rhs: &Vec<u8>) -> (r: Vec<u8>)
    requires
        canon(lhs@),
        canon(rhs@),
        val(rhs@) >= 1,
        val(lhs@) >= val(rhs@),
    ensures
        canon(r@),
        val(r@) == val(lhs@) / val(rhs@),
{
    let ghost n = val(lhs@) as int;
    let ghost dv = val(rhs@) as int;
    let ghost q = n / dv;
    proof {
        lemma_div_is_ordered(dv, n, dv);
        lemma_div_multiples_vanish(1, dv);
        assert(dv * 1 == dv) by (nonlinear_arith);
        assert(q >= 1);
        lemma_div_nonincreasing(n, dv);
        assert(q <= n);
    }
    let mut left: Vec<u8> = Vec::new();
    left.push(1);
    proof {
        assert(left@ =~= seq![1u8]);
        assert(seq![1u8].drop_last() =~= Seq::<u8>::empty());
        assert(val(Seq::<u8>::empty()) == 0);
        assert(val(seq![1u8]) == 1);
    }
    let mut right: Vec<u8> = trim_leading_zeros(lhs);
    let mut one: Vec<u8> = Vec::new();
    one.push(1);
    proof {
        assert(one@ =~= seq![1u8]);
        assert(seq![1u8].drop_first() =~= Seq::<u8>::empty());
        assert(val_rev(Seq::<u8>::empty()) == 0);
        assert(val_rev(seq![1u8]) == 1);
    }
    while cmp(&left, &right) == Cmp::Less
        invariant
            canon(lhs@),
            canon(rhs@),
            n == val(lhs@),
            dv == val(rhs@),
            dv >= 1,
            n >= dv,
            q == n / dv,
            q >= 1,
            one@ =~= seq![1u8],
            val_rev(one@) == 1,
            canon(left@),
            canon(right@),
            1 <= val(left@),
            val(left@) <= q,
            q <= val(right@),
        decreases val(right@) - val(left@),
    {
        let ghost l = val(left@) as int;
        let ghost r0 = val(right@) as int;
        let left_lsb = reverse_digits(&left);
        let right_lsb = reverse_digits(&right);
        proof {
            lemma_val_rev_of_reverse(left@);
            lemma_val_rev_of_reverse(right@);
            assert(all_digits(left_lsb@));
            assert(all_digits(right_lsb@));
        }
        let s1 = slice_add(&left_lsb, &right_lsb);
        let s2 = slice_add(&s1, &one);
        let s2m = reverse_digits(&s2);
        proof {
            lemma_val_reverse(s2@);
            assert(all_digits(s2m@));
            assert(val(s2m@) == l + r0 + 1);
        }
        let middle = slice_div_by_2(&s2m);
        let ghost m = val(middle@) as int;
        proof {
            assert(m == (l + r0 + 1) / 2);
            lemma_div_multiples_vanish(l + 1, 2);
            assert(2 * (l + 1) == 2 * l + 2);
            lemma_div_is_ordered(2 * l + 2, l + r0 + 1, 2);
            assert(m >= l + 1);
            lemma_div_multiples_vanish(r0, 2);
            lemma_div_is_ordered(l + r0 + 1, 2 * r0, 2);
            assert(m <= r0);
        }
        let middle_lsb = reverse_digits(&middle);
        let rhs_lsb = reverse_digits(rhs);
        proof {
            lemma_val_rev_of_reverse(middle@);
            lemma_val_rev_of_reverse(rhs@);
            assert(all_digits(middle_lsb@));
            assert(all_digits(rhs_lsb@));
        }
        let prod_lsb = slice_mul(&middle_lsb, &rhs_lsb);
        let prod_msb = reverse_digits(&prod_lsb);
        proof {
            lemma_val_reverse(prod_lsb@);
            assert(all_digits(prod_msb@));
            assert(val(prod_msb@) == m * dv);
        }
        let prod = trim_leading_zeros(&prod_msb);
        proof {
            assert(m * dv >= 1 * 1) by (nonlinear_arith)
                requires
                    m >= 1,
                    dv >= 1,
            ;
            assert(val(prod@) >= 1);
            assert(prod@[0] != 0) by {
                if prod@.len() == 1 && prod@[0] == 0 {
                    assert(prod@.drop_last() =~= Seq::<u8>::empty());
                    assert(val(Seq::<u8>::empty()) == 0);
                    assert(val(prod@) == 0);
                }
            };
        }
        let c2 = cmp(lhs, &prod);
        if c2 == Cmp::Equal {
            proof {
                lemma_div_multiples_vanish(m, dv);
                assert(dv * m == m * dv) by (nonlinear_arith);
                assert(n / dv == m);
            }
            return middle;
        } else if c2 == Cmp::Greater {
            proof {
                lemma_div_multiples_vanish(m, dv);
                assert(dv * m == m * dv) by (nonlinear_arith);
                lemma_div_is_ordered(dv * m, n, dv);
                assert(m <= q);
            }
            left = middle;
        } else {
            proof {
                assert(dv * m == m * dv) by (nonlinear_arith);
                lemma_multiply_divide_lt(n, dv, m);
                assert(q < m);
            }
            let m1_lsb = slice_sub(&middle_lsb, &one);
            let newright = reverse_digits(&m1_lsb);
            proof {
                lemma_val_reverse(m1_lsb@);
                assert(val(newright@) == m - 1);
                assert(all_digits(newright@));
                assert(m - 1 >= 1);
                assert(newright@[0] == m1_lsb@.last());
                if m1_lsb@.len() > 1 {
                    assert(m1_lsb@ != seq![0u8]);
                    assert(m1_lsb@.last() != 0);
                }
                assert(canon(newright@));
            }
            right = newright;
        }
    }
    proof {
        assert(val(left@) == q);
    }
    left
}

} // verus!
