//! The line-matching core of the grep exercise.
//!
//! A line matches either a fixed string (verified substring search) or a
//! regular expression (behind a trusted boundary to the `regex` crate),
//! and the `-v` flag inverts the verdict. Reading the file and printing
//! the surrounding context stay outside the library.

use vstd::prelude::*;
use vstd::string::StrSliceExecFns;

verus! {

/// The failure kind of the exercise, carrying its message.
#[derive(Debug, PartialEq, Eq)]
pub enum Error {
    Unknown(String),
}

/// Whether the regular expression written as `pattern` matches somewhere
/// in `text`.
pub uninterp spec fn re_match(pattern: Seq<char>, text: Seq<char>) -> bool;

/// Whether `pattern` is a well-formed regular expression.
pub uninterp spec fn re_valid(pattern: Seq<char>) -> bool;

/// Relies on `regex::Regex::new` and `regex::Regex::is_match`: whether the
/// pattern compiles is a function of the pattern alone, and whether the
/// compiled pattern matches is a function of the pattern and the text.
#[verifier::external_body]
fn regex_is_match(pattern: &str, text: &str) -> (r: Option<bool>)
    ensures
        (r is Some) == re_valid(pattern@),
        r matches Some(b) ==> b == re_match(pattern@, text@),
{
    match regex::Regex::new(pattern) {
        Ok(re) => Some(re.is_match(text)),
        Err(_) => None,
    }
}

/// Whether `needle` occurs in `haystack` as a contiguous substring.
pub open spec fn contains_sub(haystack: Seq<char>, needle: Seq<char>) -> bool {
    exists|k: int|
        0 <= k && k + needle.len() <= haystack.len() && #[trigger] haystack.subrange(
            k,
            k + needle.len() as int,
        ) == needle
}

fn sub_matches_at(haystack: &str, needle: &str, k: usize) -> (r: bool)
    requires
        k <= haystack@.len(),
    ensures
        r == (k + needle@.len() <= haystack@.len() && haystack@.subrange(
            k as int,
            k + needle@.len() as int,
        ) == needle@),
{
    let hn = haystack.unicode_len();
    let nn = needle.unicode_len();
    if nn > hn - k {
        return false;
    }
    let mut j: usize = 0;
    while j < nn
        invariant
            hn == haystack@.len(),
            nn == needle@.len(),
            k + nn <= hn,
            j <= nn,
            forall|t: int| 0 <= t < j ==> haystack@[k + t] == needle@[t],
        decreases nn - j,
    {
        if haystack.get_char(k + j) != needle.get_char(j) {
            proof {
                assert(haystack@.subrange(k as int, k + needle@.len() as int)[j as int]
                    != needle@[j as int]);
            }
            return false;
        }
        j = j + 1;
    }
    proof {
        assert(haystack@.subrange(k as int, k + needle@.len() as int) =~= needle@);
    }
    true
}

/// Verified substring search, the `-F` fixed-string mode.
pub fn str_contains(haystack: &str, needle: &str) -> (r: bool)
    requires
        haystack@.len() < usize::MAX,
    ensures
        r == contains_sub(haystack@, needle@),
{
    let hn = haystack.unicode_len();
    let mut k: usize = 0;
    while k <= hn
        invariant
            hn == haystack@.len(),
            hn < usize::MAX,
            k <= hn + 1,
            forall|m: int|
                0 <= m < k ==> !(m + needle@.len() <= haystack@.len() && #[trigger] haystack@.subrange(
                    m,
                    m + needle@.len() as int,
                ) == needle@),
        decreases hn + 1 - k,
    {
        if sub_matches_at(haystack, needle, k) {
            return true;
        }
        k = k + 1;
    }
    false
}

/// Whether a line matches: by fixed substring when `is_fixed`, by the
/// regular expression otherwise, with `is_invert` flipping the verdict.
/// `None` reports a pattern that does not compile.
pub fn is_str_matches(line: &str, is_fixed: bool, is_invert: bool, pattern: &str) -> (r: Option<
    bool,
>)
    requires
        line@.len() < usize::MAX,
    ensures
        is_fixed ==> r == Some(contains_sub(line@, pattern@) != is_invert),
        !is_fixed ==> (r is Some) == re_valid(pattern@),
        !is_fixed ==> (r matches Some(b) ==> b == (re_match(pattern@, line@) != is_invert)),
{
    if is_fixed {
        let m = str_contains(line, pattern);
        Some(m != is_invert)
    } else {
        match regex_is_match(pattern, line) {
            Some(m) => Some(m != is_invert),
            None => None,
        }
    }
}

} // verus!
