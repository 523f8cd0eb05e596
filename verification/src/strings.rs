//! String exercises: reversal by characters and by grapheme clusters,
//! case-insensitive uniqueness of characters and graphemes, and splitting
//! into words with their separating spaces kept.

use vstd::prelude::*;
use vstd::string::{StrSliceExecFns, StringExecFns};

use crate::unicode::{concat_all, graphemes, graphemes_of, lower_of, lowercase, upper_of, uppercase};

verus! {

/// Relies on `String`'s `FromIterator` over `char`: collects the
/// characters in order.
#[verifier::external_body]
pub(crate) fn chars_to_string(v: &Vec<char>) -> (r: String)
    ensures
        r@ == v@,
{
    v.iter().collect()
}

/// Reverses a string by Unicode scalar values; combining marks end up in
/// front of the characters they followed, which is why the grapheme
/// variant exists.
pub fn reverse_by_chars(input_str: &str) -> (r: String)
    ensures
        r@ == input_str@.reverse(),
{
    let n = input_str.unicode_len();
    let mut v: Vec<char> = Vec::new();
    let mut i: usize = 0;
    while i < n
        invariant
            n == input_str@.len(),
            i <= n,
            v@.len() == i,
            forall|j: int| 0 <= j < i ==> v@[j] == input_str@[n - 1 - j],
        decreases n - i,
    {
        v.push(input_str.get_char(n - 1 - i));
        i = i + 1;
    }
    proof {
        assert(v@ =~= input_str@.reverse());
    }
    chars_to_string(&v)
}

proof fn lemma_concat_all_push(gs: Seq<Seq<char>>, x: Seq<char>)
    ensures
        concat_all(gs.push(x)) == concat_all(gs) + x,
    decreases gs.len(),
{
    if gs.len() == 0 {
        assert(gs.push(x).skip(1) =~= Seq::<Seq<char>>::empty());
        assert(concat_all(gs.push(x)) == gs.push(x)[0] + concat_all(Seq::<Seq<char>>::empty()));
        assert(x + Seq::<char>::empty() =~= x);
        assert(concat_all(gs) + x =~= x);
    } else {
        lemma_concat_all_push(gs.skip(1), x);
        assert(gs.push(x).skip(1) =~= gs.skip(1).push(x));
        assert(concat_all(gs.push(x)) == gs[0] + (concat_all(gs.skip(1)) + x));
        assert(gs[0] + (concat_all(gs.skip(1)) + x) =~= (gs[0] + concat_all(gs.skip(1))) + x);
    }
}

/// Concatenates the tokens back to front.
fn concat_reversed(toks: &Vec<String>) -> (r: String)
    ensures
        r@ == concat_all(toks.deep_view().reverse()),
{
    let n = toks.len();
    let mut out = String::new();
    let mut i: usize = 0;
    proof {
        assert(toks.deep_view().reverse().take(0) =~= Seq::<Seq<char>>::empty());
    }
    while i < n
        invariant
            n == toks@.len(),
            i <= n,
            out@ == concat_all(toks.deep_view().reverse().take(i as int)),
        decreases n - i,
    {
        let g = &toks[n - 1 - i];
        proof {
            let rv = toks.deep_view().reverse();
            assert(toks.deep_view()[n - 1 - i] == toks@[n - 1 - i]@);
            assert(rv[i as int] == toks.deep_view()[n - 1 - i]);
            assert(rv.take(i + 1) =~= rv.take(i as int).push(rv[i as int]));
            lemma_concat_all_push(rv.take(i as int), rv[i as int]);
        }
        out.append(g.as_str());
        i = i + 1;
    }
    proof {
        assert(toks.deep_view().reverse().take(n as int) =~= toks.deep_view().reverse());
    }
    out
}

/// Reverses a string grapheme cluster by grapheme cluster, so that each
/// visible character keeps its combining marks.
pub fn reverse_by_graphemes(input_str: &str) -> (r: String)
    ensures
        r@ == concat_all(graphemes_of(input_str@).reverse()),
{
    let gs = graphemes(input_str);
    concat_reversed(&gs)
}

/// The lowercase mapping of each token.
pub open spec fn lowers_of(gs: Seq<Seq<char>>) -> Seq<Seq<char>> {
    gs.map_values(|g: Seq<char>| lower_of(g))
}

/// The uppercase mapping of each token.
pub open spec fn uppers_of(gs: Seq<Seq<char>>) -> Seq<Seq<char>> {
    gs.map_values(|g: Seq<char>| upper_of(g))
}

/// The strings of the single characters of `cs`.
pub open spec fn singletons(cs: Seq<char>) -> Seq<Seq<char>> {
    cs.map_values(|c: char| seq![c])
}

/// Whether token `i` repeats an earlier token up to case: its lowercase
/// form was seen among the earlier lowercase or uppercase forms, and so
/// was its uppercase form (the lowercase form it just contributed counts
/// as seen).
pub open spec fn clash_at(lo: Seq<Seq<char>>, up: Seq<Seq<char>>, i: int) -> bool {
    &&& (exists|k: int| 0 <= k < i && (lo[k] == lo[i] || up[k] == lo[i]))
    &&& ((exists|k: int| 0 <= k < i && (lo[k] == up[i] || up[k] == up[i])) || up[i] == lo[i])
}

/// No token repeats an earlier one up to case.
pub open spec fn all_case_distinct(lo: Seq<Seq<char>>, up: Seq<Seq<char>>) -> bool {
    forall|i: int| 0 <= i < lo.len() ==> !clash_at(lo, up, i)
}

fn seen_among(items: &Vec<String>, uppers: &Vec<String>, upto: usize, x: &String) -> (r: bool)
    requires
        upto <= items@.len(),
        upto <= uppers@.len(),
    ensures
        r == exists|k: int|
            0 <= k < upto && (items.deep_view()[k] == x@ || uppers.deep_view()[k] == x@),
{
    let mut k: usize = 0;
    while k < upto
        invariant
            upto <= items@.len(),
            upto <= uppers@.len(),
            k <= upto,
            forall|j: int|
                0 <= j < k ==> items.deep_view()[j] != x@ && uppers.deep_view()[j] != x@,
        decreases upto - k,
    {
        proof {
            assert(items.deep_view()[k as int] == items@[k as int]@);
            assert(uppers.deep_view()[k as int] == uppers@[k as int]@);
        }
        if items[k].eq(x) || uppers[k].eq(x) {
            return true;
        }
        k = k + 1;
    }
    false
}

/// Whether the case-mapped token lists are free of repeats, scanning
/// forward and stopping at the first clash.
fn case_distinct(lowers: &Vec<String>, uppers: &Vec<String>) -> (r: bool)
    requires
        lowers@.len() == uppers@.len(),
    ensures
        r == all_case_distinct(lowers.deep_view(), uppers.deep_view()),
{
    let n = lowers.len();
    let mut i: usize = 0;
    while i < n
        invariant
            n == lowers@.len(),
            n == uppers@.len(),
            i <= n,
            forall|j: int| 0 <= j < i ==> !clash_at(lowers.deep_view(), uppers.deep_view(), j),
        decreases n - i,
    {
        proof {
            assert(lowers.deep_view()[i as int] == lowers@[i as int]@);
            assert(uppers.deep_view()[i as int] == uppers@[i as int]@);
        }
        let lo_seen = seen_among(lowers, uppers, i, &lowers[i]);
        if lo_seen {
            let up_seen = seen_among(lowers, uppers, i, &uppers[i]);
            if up_seen || uppers[i].eq(&lowers[i]) {
                proof {
                    assert(clash_at(lowers.deep_view(), uppers.deep_view(), i as int));
                    assert(!all_case_distinct(lowers.deep_view(), uppers.deep_view()));
                }
                return false;
            }
        }
        i = i + 1;
    }
    true
}

/// Whether every character of the string is unique, ignoring case: each
/// character's lowercase and uppercase forms are matched against those of
/// all earlier characters.
pub fn is_unique_by_chars(s: &str) -> (r: bool)
    ensures
        r == all_case_distinct(lowers_of(singletons(s@)), uppers_of(singletons(s@))),
{
    let n = s.unicode_len();
    let mut lowers: Vec<String> = Vec::new();
    let mut uppers: Vec<String> = Vec::new();
    let mut i: usize = 0;
    while i < n
        invariant
            n == s@.len(),
            i <= n,
            lowers.deep_view() =~= lowers_of(singletons(s@)).take(i as int),
            uppers.deep_view() =~= uppers_of(singletons(s@)).take(i as int),
            lowers@.len() == i,
            uppers@.len() == i,
        decreases n - i,
    {
        let mut one: Vec<char> = Vec::new();
        one.push(s.get_char(i));
        proof {
            assert(one@ =~= seq![s@[i as int]]);
        }
        let cs = chars_to_string(&one);
        let lo = lowercase(cs.as_str());
        let up = uppercase(cs.as_str());
        lowers.push(lo);
        uppers.push(up);
        proof {
            assert(lowers.deep_view() =~= lowers_of(singletons(s@)).take(i + 1));
            assert(uppers.deep_view() =~= uppers_of(singletons(s@)).take(i + 1));
        }
        i = i + 1;
    }
    proof {
        assert(lowers_of(singletons(s@)).take(n as int) =~= lowers_of(singletons(s@)));
        assert(uppers_of(singletons(s@)).take(n as int) =~= uppers_of(singletons(s@)));
    }
    case_distinct(&lowers, &uppers)
}

/// Whether every grapheme cluster of the string is unique, ignoring case.
pub fn is_unique_by_graphemes(s: &str) -> (r: bool)
    ensures
        r == all_case_distinct(lowers_of(graphemes_of(s@)), uppers_of(graphemes_of(s@))),
{
    let gs = graphemes(s);
    let n = gs.len();
    let mut lowers: Vec<String> = Vec::new();
    let mut uppers: Vec<String> = Vec::new();
    let mut i: usize = 0;
    while i < n
        invariant
            n == gs@.len(),
            gs.deep_view() == graphemes_of(s@),
            i <= n,
            lowers.deep_view() =~= lowers_of(graphemes_of(s@)).take(i as int),
            uppers.deep_view() =~= uppers_of(graphemes_of(s@)).take(i as int),
            lowers@.len() == i,
            uppers@.len() == i,
        decreases n - i,
    {
        proof {
            assert(gs.deep_view()[i as int] == gs@[i as int]@);
        }
        let lo = lowercase(gs[i].as_str());
        let up = uppercase(gs[i].as_str());
        lowers.push(lo);
        uppers.push(up);
        proof {
            assert(lowers.deep_view() =~= lowers_of(graphemes_of(s@)).take(i + 1));
            assert(uppers.deep_view() =~= uppers_of(graphemes_of(s@)).take(i + 1));
        }
        i = i + 1;
    }
    proof {
        let g = graphemes_of(s@);
        assert(lowers_of(g).take(n as int) =~= lowers_of(g));
        assert(uppers_of(g).take(n as int) =~= uppers_of(g));
    }
    case_distinct(&lowers, &uppers)
}

/// Lexicographic comparison of character sequences by code point.
pub open spec fn lex_cmp(a: Seq<char>, b: Seq<char>) -> crate::digits::Cmp
    decreases a.len(),
{
    if a.len() == 0 && b.len() == 0 {
        crate::digits::Cmp::Equal
    } else if a.len() == 0 {
        crate::digits::Cmp::Less
    } else if b.len() == 0 {
        crate::digits::Cmp::Greater
    } else if a[0] < b[0] {
        crate::digits::Cmp::Less
    } else if a[0] > b[0] {
        crate::digits::Cmp::Greater
    } else {
        lex_cmp(a.skip(1), b.skip(1))
    }
}

/// Compares two strings lexicographically by code point, as `str`'s own
/// ordering does.
pub fn str_cmp(a: &str, b: &str) -> (r: crate::digits::Cmp)
    ensures
        r == lex_cmp(a@, b@),
{
    let na = a.unicode_len();
    let nb = b.unicode_len();
    let mut i: usize = 0;
    proof {
        assert(a@.skip(0) =~= a@);
        assert(b@.skip(0) =~= b@);
    }
    while i < na && i < nb
        invariant
            na == a@.len(),
            nb == b@.len(),
            i <= na,
            i <= nb,
            lex_cmp(a@.skip(i as int), b@.skip(i as int)) == lex_cmp(a@, b@),
        decreases na - i,
    {
        let ca = a.get_char(i);
        let cb = b.get_char(i);
        proof {
            assert(a@.skip(i as int)[0] == a@[i as int]);
            assert(b@.skip(i as int)[0] == b@[i as int]);
            assert(a@.skip(i as int).skip(1) =~= a@.skip(i + 1));
            assert(b@.skip(i as int).skip(1) =~= b@.skip(i + 1));
        }
        if ca < cb {
            return crate::digits::Cmp::Less;
        }
        if ca > cb {
            return crate::digits::Cmp::Greater;
        }
        i = i + 1;
    }
    if na == nb {
        crate::digits::Cmp::Equal
    } else if na < nb {
        crate::digits::Cmp::Less
    } else {
        crate::digits::Cmp::Greater
    }
}

/// ASCII whitespace, the separators the word splitter recognizes.
pub open spec fn is_space(c: char) -> bool {
    c == ' ' || c == '\t' || c == '\n' || c == '\r'
}

/// Length of the run of non-space characters at the front.
pub open spec fn word_len(s: Seq<char>) -> int
    decreases s.len(),
{
    if s.len() == 0 || is_space(s[0]) {
        0
    } else {
        1 + word_len(s.skip(1))
    }
}

proof fn lemma_word_len_bounds(s: Seq<char>)
    ensures
        0 <= word_len(s) <= s.len(),
    decreases s.len(),
{
    if s.len() > 0 && !is_space(s[0]) {
        lemma_word_len_bounds(s.skip(1));
    }
}

/// The maximal runs of non-space characters, in order.
pub open spec fn words_split(s: Seq<char>) -> Seq<Seq<char>>
    decreases s.len(),
    via words_split_decreases
{
    if s.len() == 0 {
        Seq::<Seq<char>>::empty()
    } else if is_space(s[0]) {
        words_split(s.skip(1))
    } else {
        seq![s.take(word_len(s))] + words_split(s.skip(word_len(s)))
    }
}

#[via_fn]
proof fn words_split_decreases(s: Seq<char>) {
    lemma_word_len_bounds(s);
    if s.len() > 0 {
        lemma_word_len_bounds(s.skip(1));
    }
}

/// The given tokens with a single space token between each two.
pub open spec fn with_spaces(ws: Seq<Seq<char>>) -> Seq<Seq<char>>
    decreases ws.len(),
{
    if ws.len() == 0 {
        Seq::<Seq<char>>::empty()
    } else if ws.len() == 1 {
        ws
    } else {
        seq![ws[0], seq![' ']] + with_spaces(ws.skip(1))
    }
}

fn char_is_space(c: char) -> (r: bool)
    ensures
        r == is_space(c),
{
    c == ' ' || c == '\t' || c == '\n' || c == '\r'
}

proof fn lemma_word_len_run(s: Seq<char>, k: int)
    requires
        0 <= k <= s.len(),
        forall|m: int| 0 <= m < k ==> !is_space(s[m]),
        k == s.len() || is_space(s[k]),
    ensures
        word_len(s) == k,
    decreases k,
{
    if k == 0 {
    } else {
        lemma_word_len_run(s.skip(1), k - 1);
    }
}

/// Splits a string into its space-separated words.
pub fn split_words(s: &str) -> (r: Vec<String>)
    ensures
        r.deep_view() == words_split(s@),
{
    let n = s.unicode_len();
    let mut r: Vec<String> = Vec::new();
    let mut i: usize = 0;
    proof {
        assert(s@.skip(0) =~= s@);
    }
    while i < n
        invariant
            n == s@.len(),
            i <= n,
            r.deep_view() + words_split(s@.skip(i as int)) == words_split(s@),
        decreases n - i,
    {
        let ghost pre = r.deep_view();
        let c = s.get_char(i);
        if char_is_space(c) {
            proof {
                assert(s@.skip(i as int).skip(1) =~= s@.skip(i + 1));
                assert(words_split(s@.skip(i as int)) == words_split(s@.skip(i + 1)));
            }
            i = i + 1;
        } else {
            let start = i;
            let mut w: Vec<char> = Vec::new();
            w.push(c);
            i = i + 1;
            while i < n && !char_is_space(s.get_char(i))
                invariant
                    n == s@.len(),
                    start < i <= n,
                    w@ =~= s@.subrange(start as int, i as int),
                    forall|m: int| start <= m < i ==> !is_space(s@[m]),
                decreases n - i,
            {
                w.push(s.get_char(i));
                i = i + 1;
            }
            let word = chars_to_string(&w);
            proof {
                let t = s@.skip(start as int);
                assert(forall|m: int| 0 <= m < i - start ==> t[m] == s@[m + start]);
                lemma_word_len_run(t, i - start);
                assert(t.take(i - start) =~= s@.subrange(start as int, i as int));
                assert(t.skip(i - start) =~= s@.skip(i as int));
                assert(words_split(t) == seq![word@] + words_split(s@.skip(i as int)));
            }
            r.push(word);
            proof {
                assert(r.deep_view() =~= pre.push(word@));
                assert(pre.push(word@) + words_split(s@.skip(i as int)) =~= pre + (seq![word@]
                    + words_split(s@.skip(i as int))));
            }
        }
    }
    proof {
        assert(s@.skip(n as int) =~= Seq::<char>::empty());
        assert(r.deep_view() + Seq::<Seq<char>>::empty() =~= r.deep_view());
    }
    r
}

/// The words of the string as tokens, with a single space token between
/// each two — splitting that saves the whitespace.
pub fn split_with_save_whitespace(s: &str) -> (r: Vec<String>)
    ensures
        r.deep_view() == with_spaces(words_split(s@)),
{
    let words = split_words(s);
    let n = words.len();
    let mut r: Vec<String> = Vec::new();
    if n == 0 {
        proof {
            assert(r.deep_view() =~= with_spaces(words_split(s@)));
        }
        return r;
    }
    let mut i: usize = 0;
    proof {
        assert(words.deep_view().skip(0) =~= words.deep_view());
    }
    while i < n
        invariant
            n == words@.len(),
            n > 0,
            words.deep_view() == words_split(s@),
            i <= n,
            r.deep_view() + with_spaces(words.deep_view().skip(i as int)) == with_spaces(
                words.deep_view(),
            ),
        decreases n - i,
    {
        let ghost pre = r.deep_view();
        let ghost ws = words.deep_view().skip(i as int);
        proof {
            assert(words.deep_view()[i as int] == words@[i as int]@);
            assert(ws[0] == words.deep_view()[i as int]);
        }
        if i + 1 < n {
            r.push(words[i].clone());
            let mut sp: Vec<char> = Vec::new();
            sp.push(' ');
            proof {
                assert(sp@ =~= seq![' ']);
            }
            r.push(chars_to_string(&sp));
            proof {
                assert(ws.len() >= 2);
                assert(ws.skip(1) =~= words.deep_view().skip(i + 1));
                assert(with_spaces(ws) == seq![ws[0], seq![' ']] + with_spaces(
                    words.deep_view().skip(i + 1),
                ));
                assert(r.deep_view() =~= pre.push(ws[0]).push(seq![' ']));
                assert(pre.push(ws[0]).push(seq![' ']) + with_spaces(words.deep_view().skip(i + 1))
                    =~= pre + (seq![ws[0], seq![' ']] + with_spaces(
                    words.deep_view().skip(i + 1),
                )));
            }
        } else {
            r.push(words[i].clone());
            proof {
                assert(ws.len() == 1);
                assert(ws =~= seq![ws[0]]);
                assert(with_spaces(ws) == ws);
                assert(words.deep_view().skip(i + 1) =~= Seq::<Seq<char>>::empty());
                assert(with_spaces(words.deep_view().skip(i + 1)) =~= Seq::<Seq<char>>::empty());
                assert(r.deep_view() =~= pre.push(ws[0]));
                assert(pre.push(ws[0]) + Seq::<Seq<char>>::empty() =~= pre + with_spaces(ws));
            }
        }
        i = i + 1;
    }
    proof {
        assert(words.deep_view().skip(n as int) =~= Seq::<Seq<char>>::empty());
        assert(with_spaces(Seq::<Seq<char>>::empty()) =~= Seq::<Seq<char>>::empty());
        assert(r.deep_view() + Seq::<Seq<char>>::empty() =~= r.deep_view());
    }
    r
}

/// The words of the string in reverse order, separated by single
/// spaces: the saving splitter's tokens, reversed and joined.
pub fn reverse_words(s: &str) -> (r: String)
    ensures
        r@ == concat_all(with_spaces(words_split(s@)).reverse()),
{
    let toks = split_with_save_whitespace(s);
    concat_reversed(&toks)
}

} // verus!
