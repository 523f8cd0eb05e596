//! The word-count exercise: option parsing and the three counters.
//!
//! The exercise reads a file and fans the grapheme clusters out to
//! threads; the counting rules are what this module verifies, over the
//! grapheme clusters and Unicode words named by [`crate::unicode`].

use vstd::prelude::*;
use vstd::string::StrSliceExecFns;

use crate::unicode::{graphemes, graphemes_of, unicode_words, words_of};

verus! {

/// The failure kinds of option parsing.
#[derive(Debug, PartialEq, Eq)]
pub enum Error {
    /// The input file's name does not end in `.txt`.
    InvalidFileExtension,
    /// Any other failure, carrying its message.
    Unknown(String),
}

/// Parsed options: the input file and the selected counters; counting
/// characters is the default and stays on.
#[derive(Debug, PartialEq, Eq)]
pub struct Options {
    /// The input file name.
    pub file_name: String,
    /// Count characters (always on).
    pub chars: bool,
    /// Count lines.
    pub lines: bool,
    /// Count words.
    pub words: bool,
}

/// The `-c` flag.
pub open spec fn is_flag_c(a: Seq<char>) -> bool {
    a == seq!['-', 'c']
}

/// The `-l` flag.
pub open spec fn is_flag_l(a: Seq<char>) -> bool {
    a == seq!['-', 'l']
}

/// The `-w` flag.
pub open spec fn is_flag_w(a: Seq<char>) -> bool {
    a == seq!['-', 'w']
}

/// Any of the three flags.
pub open spec fn is_flag(a: Seq<char>) -> bool {
    is_flag_c(a) || is_flag_l(a) || is_flag_w(a)
}

/// The name ends in `.txt`.
pub open spec fn has_txt_extension(name: Seq<char>) -> bool {
    name.len() >= 4 && name.subrange(name.len() - 4, name.len() as int) == seq!['.', 't', 'x', 't']
}

fn str_eq2(s: &String, c0: char, c1: char) -> (r: bool)
    ensures
        r == (s@ == seq![c0, c1]),
{
    let st = s.as_str();
    let n = st.unicode_len();
    if n != 2 {
        proof {
            assert(s@ != seq![c0, c1]);
        }
        return false;
    }
    let r = st.get_char(0) == c0 && st.get_char(1) == c1;
    proof {
        if r {
            assert(s@ =~= seq![c0, c1]);
        } else {
            assert(s@ != seq![c0, c1]);
        }
    }
    r
}

fn ends_in_txt(name: &String) -> (r: bool)
    ensures
        r == has_txt_extension(name@),
{
    let st = name.as_str();
    let n = st.unicode_len();
    if n < 4 {
        return false;
    }
    let r = st.get_char(n - 4) == '.' && st.get_char(n - 3) == 't' && st.get_char(n - 2) == 'x'
        && st.get_char(n - 1) == 't';
    proof {
        if r {
            assert(name@.subrange(name@.len() - 4, name@.len() as int) =~= seq![
                '.', 't', 'x', 't',
            ]);
        } else {
            assert(name@.subrange(name@.len() - 4, name@.len() as int) != seq![
                '.', 't', 'x', 't',
            ]);
        }
    }
    r
}

impl Options {
    /// Scans the arguments: each leading `-c` / `-l` / `-w` selects a
    /// counter, the first other argument names the input file and ends the
    /// scan. The file must end in `.txt`; a missing or differently named
    /// file is rejected with `InvalidFileExtension`.
    pub fn from_iter(args: Vec<String>) -> (r: Result<Options, Error>)
        ensures
            (r is Ok) <==> exists|k: int|
                {
                    &&& 0 <= k < args.deep_view().len()
                    &&& !is_flag(args.deep_view()[k])
                    &&& has_txt_extension(args.deep_view()[k])
                    &&& forall|j: int| 0 <= j < k ==> is_flag(args.deep_view()[j])
                },
            r matches Ok(o) ==> {
                let k = choose|k: int|
                    {
                        &&& 0 <= k < args.deep_view().len()
                        &&& !is_flag(args.deep_view()[k])
                        &&& forall|j: int| 0 <= j < k ==> is_flag(args.deep_view()[j])
                    };
                &&& o.file_name@ == args.deep_view()[k]
                &&& o.chars
                &&& o.lines == exists|j: int| 0 <= j < k && is_flag_l(args.deep_view()[j])
                &&& o.words == exists|j: int| 0 <= j < k && is_flag_w(args.deep_view()[j])
            },
            r is Err ==> r == Err::<Options, Error>(Error::InvalidFileExtension),
    {
        let n = args.len();
        let mut lines = false;
        let mut words = false;
        let mut i: usize = 0;
        while i < n
            invariant
                n == args@.len(),
                i <= n,
                forall|j: int| 0 <= j < i ==> is_flag(args.deep_view()[j]),
                lines == exists|j: int| 0 <= j < i && is_flag_l(args.deep_view()[j]),
                words == exists|j: int| 0 <= j < i && is_flag_w(args.deep_view()[j]),
            decreases n - i,
        {
            let a = &args[i];
            proof {
                assert(args.deep_view()[i as int] == args@[i as int]@);
            }
            if str_eq2(a, '-', 'c') {
            } else if str_eq2(a, '-', 'l') {
                lines = true;
            } else if str_eq2(a, '-', 'w') {
                words = true;
            } else {
                proof {
                    let dv = args.deep_view();
                    assert(!is_flag(dv[i as int]));
                    assert(forall|j: int| 0 <= j < i ==> is_flag(dv[j]));
                }
                if ends_in_txt(a) {
                    let o = Options { file_name: a.clone(), chars: true, lines, words };
                    proof {
                        let dv = args.deep_view();
                        let k = choose|k: int|
                            {
                                &&& 0 <= k < dv.len()
                                &&& !is_flag(dv[k])
                                &&& forall|j: int| 0 <= j < k ==> is_flag(dv[j])
                            };
                        assert(0 <= k < dv.len() && !is_flag(dv[k]) && forall|j: int|
                            0 <= j < k ==> is_flag(dv[j]));
                        assert(k == i as int) by {
                            if k < i {
                                assert(is_flag(dv[k]));
                            }
                            if k > i {
                                assert(is_flag(dv[i as int]));
                            }
                        };
                    }
                    return Ok(o);
                } else {
                    return Err(Error::InvalidFileExtension);
                }
            }
            i = i + 1;
        }
        Err(Error::InvalidFileExtension)
    }
}

/// A grapheme cluster counted as a character: anything but a space, a
/// newline or a tab.
pub open spec fn counts_as_char(g: Seq<char>) -> bool {
    !(g == seq![' '] || g == seq!['\n'] || g == seq!['\t'])
}

/// A grapheme cluster counted as a line break.
pub open spec fn is_newline(g: Seq<char>) -> bool {
    g == seq!['\n']
}

fn grapheme_is(g: &String, c: char) -> (r: bool)
    ensures
        r == (g@ == seq![c]),
{
    let st = g.as_str();
    if st.unicode_len() != 1 {
        proof {
            assert(g@ != seq![c]);
        }
        return false;
    }
    let r = st.get_char(0) == c;
    proof {
        if r {
            assert(g@ =~= seq![c]);
        } else {
            assert(g@ != seq![c]);
        }
    }
    r
}

/// Counts the grapheme clusters that count as characters.
pub fn find_chars(gs: &Vec<String>) -> (r: u64)
    requires
        gs@.len() < u64::MAX,
    ensures
        r == gs.deep_view().filter(|g: Seq<char>| counts_as_char(g)).len(),
{
    let n = gs.len();
    let mut count: u64 = 0;
    let mut i: usize = 0;
    proof {
        reveal(Seq::filter);
        assert(gs.deep_view().take(0) =~= Seq::<Seq<char>>::empty());
    }
    while i < n
        invariant
            n == gs@.len(),
            n < u64::MAX,
            i <= n,
            count == gs.deep_view().take(i as int).filter(|g: Seq<char>| counts_as_char(g)).len(),
            count <= i,
        decreases n - i,
    {
        let g = &gs[i];
        proof {
            reveal(Seq::filter);
            let dv = gs.deep_view();
            assert(dv[i as int] == gs@[i as int]@);
            assert(dv.take(i + 1).drop_last() =~= dv.take(i as int));
            assert(dv.take(i + 1).last() == dv[i as int]);
        }
        let space = grapheme_is(g, ' ');
        let nl = grapheme_is(g, '\n');
        let tab = grapheme_is(g, '\t');
        if !(space || nl || tab) {
            count = count + 1;
        }
        proof {
            let dv = gs.deep_view();
            let pred = |g: Seq<char>| counts_as_char(g);
            assert(dv.take(i + 1).filter(pred).len() <= dv.take(i + 1).len()) by {
                dv.take(i + 1).lemma_filter_len(pred);
            };
        }
        i = i + 1;
    }
    proof {
        assert(gs.deep_view().take(n as int) =~= gs.deep_view());
    }
    count
}

/// Counts line breaks and adds one for the final line.
pub fn find_lines(gs: &Vec<String>) -> (r: u64)
    requires
        gs@.len() < u64::MAX,
    ensures
        r == gs.deep_view().filter(|g: Seq<char>| is_newline(g)).len() + 1,
{
    let n = gs.len();
    let mut count: u64 = 0;
    let mut i: usize = 0;
    proof {
        reveal(Seq::filter);
        assert(gs.deep_view().take(0) =~= Seq::<Seq<char>>::empty());
    }
    while i < n
        invariant
            n == gs@.len(),
            n < u64::MAX,
            i <= n,
            count == gs.deep_view().take(i as int).filter(|g: Seq<char>| is_newline(g)).len(),
            count <= i,
        decreases n - i,
    {
        let g = &gs[i];
        proof {
            reveal(Seq::filter);
            let dv = gs.deep_view();
            assert(dv[i as int] == gs@[i as int]@);
            assert(dv.take(i + 1).drop_last() =~= dv.take(i as int));
            assert(dv.take(i + 1).last() == dv[i as int]);
        }
        if grapheme_is(g, '\n') {
            count = count + 1;
        }
        proof {
            let dv = gs.deep_view();
            let pred = |g: Seq<char>| is_newline(g);
            assert(dv.take(i + 1).filter(pred).len() <= dv.take(i + 1).len()) by {
                dv.take(i + 1).lemma_filter_len(pred);
            };
        }
        i = i + 1;
    }
    proof {
        assert(gs.deep_view().take(n as int) =~= gs.deep_view());
    }
    count + 1
}

/// The counts the exercise reports; a counter that was not selected stays
/// `None`.
#[derive(Debug, PartialEq, Eq)]
pub struct Counts {
    /// Grapheme clusters other than space, newline and tab.
    pub chars: Option<u64>,
    /// Newlines plus one.
    pub lines: Option<u64>,
    /// Unicode words.
    pub words: Option<u64>,
}

/// Computes the selected counts of a text: characters and lines over its
/// grapheme clusters, words by Unicode word boundaries. Reading the file
/// the options name and printing each count stay with the caller; the
/// text comes in and the counts go out as values.
pub fn process(text: &str, opts: &Options) -> (r: Counts)
    requires
        text@.len() < u64::MAX,
    ensures
        (r.chars is Some) == opts.chars,
        (r.lines is Some) == opts.lines,
        (r.words is Some) == opts.words,
        r.chars matches Some(c) ==> c == graphemes_of(text@).filter(
            |g: Seq<char>| counts_as_char(g),
        ).len(),
        r.lines matches Some(l) ==> l == graphemes_of(text@).filter(
            |g: Seq<char>| is_newline(g),
        ).len() + 1,
        r.words matches Some(w) ==> w == words_of(text@).len(),
{
    let gs = graphemes(text);
    let chars = if opts.chars {
        Some(find_chars(&gs))
    } else {
        None
    };
    let lines = if opts.lines {
        Some(find_lines(&gs))
    } else {
        None
    };
    let words = if opts.words {
        let ws = unicode_words(text);
        Some(ws.len() as u64)
    } else {
        None
    };
    Counts { chars, lines, words }
}

} // verus!
