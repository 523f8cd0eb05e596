//! Trusted boundary to Unicode text services: segmentation from the
//! `unicode_segmentation` crate, and case mapping from the standard
//! library. Each result that no short formula can state is given a name
//! (an uninterpreted function of the input), and the verified code reasons
//! over those names.

use vstd::prelude::*;
use unicode_segmentation::UnicodeSegmentation;

verus! {

/// The extended grapheme clusters of a string, in order.
pub uninterp spec fn graphemes_of(s: Seq<char>) -> Seq<Seq<char>>;

/// The words of a string by Unicode word boundaries, in order.
pub uninterp spec fn words_of(s: Seq<char>) -> Seq<Seq<char>>;

/// The lowercase mapping of a string.
pub uninterp spec fn lower_of(s: Seq<char>) -> Seq<char>;

/// The uppercase mapping of a string.
pub uninterp spec fn upper_of(s: Seq<char>) -> Seq<char>;

/// Concatenation of a sequence of character sequences.
pub open spec fn concat_all(gs: Seq<Seq<char>>) -> Seq<char>
    decreases gs.len(),
{
    if gs.len() == 0 {
        Seq::<char>::empty()
    } else {
        gs[0] + concat_all(gs.skip(1))
    }
}

/// Relies on `UnicodeSegmentation::graphemes`: the extended grapheme
/// clusters of the string, in order; segmentation only splits, so their
/// concatenation is the string itself.
#[verifier::external_body]
pub(crate) fn graphemes(s: &str) -> (r: Vec<String>)
    ensures
        r.deep_view() == graphemes_of(s@),
        concat_all(r.deep_view()) == s@,
        r@.len() <= s@.len(),
{
    s.graphemes(true).map(|g| g.to_string()).collect()
}

/// Relies on `UnicodeSegmentation::unicode_words`: the words of the
/// string by Unicode word boundaries, in order; words are disjoint
/// substrings, so there are at most as many as characters.
#[verifier::external_body]
pub(crate) fn unicode_words(s: &str) -> (r: Vec<String>)
    ensures
        r.deep_view() == words_of(s@),
        r@.len() <= s@.len(),
{
    s.unicode_words().map(|w| w.to_string()).collect()
}

/// Relies on `str::to_lowercase`: the result depends on the characters
/// alone; an empty string stays empty.
#[verifier::external_body]
pub(crate) fn lowercase(s: &str) -> (r: String)
    ensures
        r@ == lower_of(s@),
        s@.len() == 0 ==> r@.len() == 0,
{
    s.to_lowercase()
}

/// Relies on `str::to_uppercase`: the result depends on the characters
/// alone; an empty string stays empty.
#[verifier::external_body]
pub(crate) fn uppercase(s: &str) -> (r: String)
    ensures
        r@ == upper_of(s@),
        s@.len() == 0 ==> r@.len() == 0,
{
    s.to_uppercase()
}

} // verus!
