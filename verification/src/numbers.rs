//! Small numeric exercises: flipping a bit and summing squares.

use vstd::prelude::*;
use vstd::arithmetic::div_mod::lemma_div_multiples_vanish;

verus! {

/// Flips the `i`-th bit of `num`, counting from the least-significant bit.
/// A bit above the number's highest set bit is not a bit of the number;
/// that input is excluded.
pub fn xor_ith(num: i64, i: usize) -> (r: i64)
    requires
        i <= 62,
        num >= (1i64 << i),
    ensures
        r == num ^ (1i64 << i),
{
    let x: i64 = 1i64 << i;
    num ^ x
}

/// Sum of the squares 1*1 + 2*2 + ... + n*n.
pub open spec fn sum_squares(n: nat) -> nat
    decreases n,
{
    if n == 0 {
        0
    } else {
        sum_squares((n - 1) as nat) + n * n
    }
}

/// The closed form: six times the sum of the first `n` squares is
/// `2n^3 + 3n^2 + n`.
pub proof fn lemma_sum_squares_formula(n: nat)
    ensures
        6 * sum_squares(n) == 2 * n * n * n + 3 * n * n + n,
    decreases n,
{
    if n > 0 {
        let m = (n - 1) as nat;
        lemma_sum_squares_formula(m);
        assert(6 * sum_squares(n) == 6 * sum_squares(m) + 6 * (n * n));
        assert(2 * m * m * m + 3 * m * m + m + 6 * (n * n) == 2 * n * n * n + 3 * n * n + n)
            by (nonlinear_arith)
            requires
                m == n - 1,
                n >= 1,
        ;
    }
}

proof fn lemma_sum_squares_mono(a: nat, b: nat)
    requires
        a <= b,
    ensures
        sum_squares(a) <= sum_squares(b),
    decreases b,
{
    if a < b {
        lemma_sum_squares_mono(a, (b - 1) as nat);
    }
}

/// Sum of the squares of 1..=n by the closed formula
/// `n(n + 1)(2n + 1) / 6`.
pub fn squares_sum_of_sequence(n: usize) -> (r: usize)
    requires
        2 * (n as int) * (n as int) * (n as int) + 3 * (n as int) * (n as int) + n
            <= usize::MAX,
    ensures
        r == sum_squares(n as nat),
{
    proof {
        let ni = n as int;
        assert(ni * ni <= 2 * ni * ni * ni + 3 * ni * ni + ni) by (nonlinear_arith)
            requires
                ni >= 0,
        ;
        assert(ni * ni * ni <= 2 * ni * ni * ni + 3 * ni * ni + ni) by (nonlinear_arith)
            requires
                ni >= 0,
        ;
    }
    let n_2 = n * n;
    let n_3 = n_2 * n;
    proof {
        let ni = n as int;
        assert(2 * ni * ni * ni == 2 * (ni * ni * ni) && 3 * ni * ni == 3 * (ni * ni))
            by (nonlinear_arith);
    }
    let r = (2 * n_3 + 3 * n_2 + n) / 6;
    proof {
        lemma_sum_squares_formula(n as nat);
        lemma_div_multiples_vanish(sum_squares(n as nat) as int, 6);
        assert(6 * sum_squares(n as nat) == sum_squares(n as nat) * 6) by (nonlinear_arith);
    }
    r
}

/// Sum of the squares of 1..=n, one term at a time — the work the
/// exercise hands out to worker threads chunk by chunk.
pub fn squares_sum(n: usize) -> (r: usize)
    requires
        2 * (n as int) * (n as int) * (n as int) + 3 * (n as int) * (n as int) + n
            <= usize::MAX,
    ensures
        r == sum_squares(n as nat),
{
    let mut acc: usize = 0;
    let mut i: usize = 0;
    proof {
        lemma_sum_squares_formula(n as nat);
    }
    while i < n
        invariant
            i <= n,
            acc == sum_squares(i as nat),
            6 * sum_squares(n as nat) == 2 * (n as int) * (n as int) * (n as int) + 3 * (
            n as int) * (n as int) + n,
            2 * (n as int) * (n as int) * (n as int) + 3 * (n as int) * (n as int) + n
                <= usize::MAX,
        decreases n - i,
    {
        proof {
            lemma_sum_squares_mono((i + 1) as nat, n as nat);
            assert(sum_squares(n as nat) <= 6 * sum_squares(n as nat));
            assert(sum_squares((i + 1) as nat) == sum_squares(i as nat) + (i + 1) * (i + 1));
        }
        let j = i + 1;
        acc = acc + j * j;
        i = j;
    }
    acc
}

} // verus!
