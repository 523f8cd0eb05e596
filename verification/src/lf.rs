//! The letter-frequency exercise: counting ASCII letters in a text,
//! case-insensitively.
//!
//! The exercise splits the character list across worker threads and
//! merges their per-thread arrays; the counting rule itself is sequential
//! and is what this module verifies: one slot per letter of the Latin
//! alphabet, and a character adds to a slot exactly when it is that letter
//! in either case.

use vstd::prelude::*;
use vstd::string::StrSliceExecFns;

verus! {

/// Whether `c` is the letter with index `l` (0 for `a` .. 25 for `z`) in
/// lower or upper case.
pub open spec fn is_letter(c: char, l: int) -> bool {
    (c as u32) == 97 + l || (c as u32) == 65 + l
}

/// How many characters of `cs` are the letter with index `l`.
pub open spec fn letter_count(cs: Seq<char>, l: int) -> nat
    decreases cs.len(),
{
    if cs.len() == 0 {
        0
    } else {
        letter_count(cs.drop_last(), l) + if is_letter(cs.last(), l) {
            1nat
        } else {
            0nat
        }
    }
}

proof fn lemma_letter_count_bound(cs: Seq<char>, l: int)
    ensures
        letter_count(cs, l) <= cs.len(),
    decreases cs.len(),
{
    if cs.len() > 0 {
        lemma_letter_count_bound(cs.drop_last(), l);
    }
}

/// Counts how often each of the 26 Latin letters occurs in the text,
/// ignoring case: slot `l` of the result is the number of characters that
/// are letter `l` in lower or upper case. Reading the text from a file or
/// stdin, timing the run and serializing the result stay with the caller;
/// the text comes in and the counts go out as values.
pub fn process(text: &str) -> (r: Vec<usize>)
    requires
        text@.len() < usize::MAX,
    ensures
        r@.len() == 26,
        forall|l: int| 0 <= l < 26 ==> r@[l] == letter_count(text@, l),
{
    let n = text.unicode_len();
    let mut counts: Vec<usize> = Vec::new();
    let mut k: usize = 0;
    while k < 26
        invariant
            k <= 26,
            counts@.len() == k,
            forall|l: int| 0 <= l < k ==> counts@[l] == 0,
        decreases 26 - k,
    {
        counts.push(0);
        k = k + 1;
    }
    let mut i: usize = 0;
    proof {
        assert(text@.take(0) =~= Seq::<char>::empty());
        assert(forall|l: int| 0 <= l < 26 ==> letter_count(text@.take(0), l) == 0);
    }
    while i < n
        invariant
            n == text@.len(),
            n < usize::MAX,
            i <= n,
            counts@.len() == 26,
            forall|l: int| 0 <= l < 26 ==> counts@[l] == letter_count(text@.take(i as int), l),
        decreases n - i,
    {
        let c = text.get_char(i);
        proof {
            assert(text@.take(i + 1).drop_last() =~= text@.take(i as int));
            assert(text@.take(i + 1).last() == text@[i as int]);
            assert(forall|l: int|
                0 <= l < 26 ==> letter_count(text@.take(i + 1), l) == letter_count(
                    text@.take(i as int),
                    l,
                ) + if is_letter(text@[i as int], l) {
                    1nat
                } else {
                    0nat
                });
            assert forall|l: int| 0 <= l < 26 implies letter_count(text@.take(i as int), l)
                <= text@.take(i as int).len() by {
                lemma_letter_count_bound(text@.take(i as int), l);
            };
        }
        let u = c as u32;
        if u >= 97 && u <= 122 {
            let idx = (u - 97) as usize;
            let old_count = counts[idx];
            counts.set(idx, old_count + 1);
        } else if u >= 65 && u <= 90 {
            let idx = (u - 65) as usize;
            let old_count = counts[idx];
            counts.set(idx, old_count + 1);
        }
        i = i + 1;
    }
    proof {
        assert(text@.take(n as int) =~= text@);
    }
    counts
}

} // verus!
