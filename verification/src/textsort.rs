//! The line-sorting exercise: the comparator and its keys.
//!
//! The exercise sorts a file's lines with a comparator assembled from
//! command-line options; the comparator and the three key extractors —
//! n-th word, leading number, leading month name — are what this module
//! verifies. Reading the file, the sort call itself and writing the
//! output stay outside the library.

use vstd::prelude::*;
use vstd::string::StrSliceExecFns;

use crate::digits::Cmp;
use crate::bigint::{digit_of_char, is_digit_char};
use crate::strings::{is_space, lex_cmp, split_words, str_cmp, words_split};

verus! {

/// The failure kind of the exercise, carrying its message.
#[derive(Debug, PartialEq, Eq)]
pub enum Error {
    Unknown(String),
}

/// `self`, or `other` where `self` is `Equal` — `Ordering::then`.
pub fn cmp_then(first: Cmp, other: Cmp) -> (r: Cmp)
    ensures
        r == if first == Cmp::Equal {
            other
        } else {
            first
        },
{
    match first {
        Cmp::Equal => other,
        _ => first,
    }
}

/// The opposite ordering — `Ordering::reverse`.
pub fn cmp_reverse(c: Cmp) -> (r: Cmp)
    ensures
        r == reverse_spec(c),
{
    match c {
        Cmp::Less => Cmp::Greater,
        Cmp::Equal => Cmp::Equal,
        Cmp::Greater => Cmp::Less,
    }
}

/// The opposite ordering.
pub open spec fn reverse_spec(c: Cmp) -> Cmp {
    match c {
        Cmp::Less => Cmp::Greater,
        Cmp::Equal => Cmp::Equal,
        Cmp::Greater => Cmp::Less,
    }
}

/// The sorting options, as the command line fills them.
pub struct Args {
    /// Sort by the word at this index.
    pub key: Option<usize>,
    /// Sort by leading numeric value.
    pub numeric_sort: bool,
    /// Reverse the final ordering.
    pub reverse: bool,
    /// Drop repeated lines when writing.
    pub unique: bool,
    /// Sort by leading month name.
    pub month_sort: bool,
    /// Ignore trailing blanks when comparing.
    pub ignore_trailing_blanks: bool,
    /// Only check whether the input is sorted.
    pub check: bool,
    /// Sort by human-readable sizes (accepted but never wired up).
    pub human_numeric_sort: bool,
    /// Where to write the sorted lines.
    pub output_file_path: String,
    /// Where to read the lines from.
    pub input_file_path: String,
}

impl Args {
    /// All options off, with empty paths.
    pub fn new() -> (r: Args)
        ensures
            r.key is None,
            !r.numeric_sort && !r.reverse && !r.unique && !r.month_sort
                && !r.ignore_trailing_blanks && !r.check && !r.human_numeric_sort,
            r.output_file_path@ == Seq::<char>::empty(),
            r.input_file_path@ == Seq::<char>::empty(),
    {
        Args {
            key: None,
            numeric_sort: false,
            reverse: false,
            unique: false,
            month_sort: false,
            ignore_trailing_blanks: false,
            check: false,
            human_numeric_sort: false,
            output_file_path: String::new(),
            input_file_path: String::new(),
        }
    }
}

/// The word at index `k`, if the line has that many words.
pub open spec fn word_at(s: Seq<char>, k: int) -> Option<Seq<char>> {
    if 0 <= k < words_split(s).len() {
        Some(words_split(s)[k])
    } else {
        None
    }
}

/// `Option` ordering as std derives it: `None` sorts first.
pub open spec fn opt_lex_cmp(a: Option<Seq<char>>, b: Option<Seq<char>>) -> Cmp {
    match (a, b) {
        (Option::None, Option::None) => Cmp::Equal,
        (Option::None, Option::Some(_)) => Cmp::Less,
        (Option::Some(_), Option::None) => Cmp::Greater,
        (Option::Some(x), Option::Some(y)) => lex_cmp(x, y),
    }
}

/// Compares two lines by their `k`-th word; a missing word sorts first.
pub fn sort_by_key(a: &str, b: &str, k: usize) -> (r: Cmp)
    ensures
        r == opt_lex_cmp(word_at(a@, k as int), word_at(b@, k as int)),
{
    let wa = split_words(a);
    let wb = split_words(b);
    proof {
        if (k as int) < wa.deep_view().len() {
            assert(wa.deep_view()[k as int] == wa@[k as int]@);
        }
        if (k as int) < wb.deep_view().len() {
            assert(wb.deep_view()[k as int] == wb@[k as int]@);
        }
    }
    if k < wa.len() && k < wb.len() {
        str_cmp(wa[k].as_str(), wb[k].as_str())
    } else if k < wb.len() {
        Cmp::Less
    } else if k < wa.len() {
        Cmp::Greater
    } else {
        Cmp::Equal
    }
}

/// Count of leading plain spaces.
pub open spec fn lead_spaces(s: Seq<char>) -> int
    decreases s.len(),
{
    if s.len() == 0 || s[0] != ' ' {
        0
    } else {
        1 + lead_spaces(s.skip(1))
    }
}

/// A character the numeric scan collects: an ASCII digit or a minus
/// sign (non-ASCII digits would never parse as `i32` anyway).
pub open spec fn numeric_run_char(c: char) -> bool {
    is_digit_char(c) || c == '-'
}

/// Length of the run of collectable characters at the front.
pub open spec fn num_run(s: Seq<char>) -> int
    decreases s.len(),
{
    if s.len() == 0 || !numeric_run_char(s[0]) {
        0
    } else {
        1 + num_run(s.skip(1))
    }
}

/// The value of a sign and digit sequence, when the digits are a
/// well-formed `i32` magnitude for that sign.
pub open spec fn signed_digits_i32(neg: bool, ds: Seq<char>) -> Option<int> {
    if ds.len() >= 1 && (forall|i: int| 0 <= i < ds.len() ==> is_digit_char(#[trigger] ds[i]))
        && (if neg {
        crate::parse_string::tok_val(ds) <= 0x8000_0000
    } else {
        crate::parse_string::tok_val(ds) <= 0x7fff_ffff
    }) {
        if neg {
            Some(-(crate::parse_string::tok_val(ds) as int))
        } else {
            Some(crate::parse_string::tok_val(ds) as int)
        }
    } else {
        None
    }
}

/// What `i32` parsing makes of a collected run: the signed value when the
/// run is a well-formed `i32` literal, `None` otherwise.
pub open spec fn parse_i32(run: Seq<char>) -> Option<int> {
    let neg = run.len() > 0 && run[0] == '-';
    let ds = if neg {
        run.skip(1)
    } else {
        run
    };
    signed_digits_i32(neg, ds)
}

/// The leading number of a line: spaces skipped, the run of digits and
/// minus signs collected, parsed as `i32`, with 0 for anything that does
/// not parse.
pub open spec fn leading_num(s: Seq<char>) -> int {
    let t = s.skip(lead_spaces(s));
    let run = t.take(num_run(t));
    match parse_i32(run) {
        Option::Some(v) => v,
        Option::None => 0,
    }
}

proof fn lemma_lead_spaces_run(s: Seq<char>, k: int)
    requires
        0 <= k <= s.len(),
        forall|m: int| 0 <= m < k ==> s[m] == ' ',
        k == s.len() || s[k] != ' ',
    ensures
        lead_spaces(s) == k,
    decreases k,
{
    if k > 0 {
        lemma_lead_spaces_run(s.skip(1), k - 1);
    }
}

proof fn lemma_num_run_is(s: Seq<char>, k: int)
    requires
        0 <= k <= s.len(),
        forall|m: int| 0 <= m < k ==> numeric_run_char(s[m]),
        k == s.len() || !numeric_run_char(s[k]),
    ensures
        num_run(s) == k,
    decreases k,
{
    if k > 0 {
        lemma_num_run_is(s.skip(1), k - 1);
    }
}

/// The leading number of a line, the numeric sort key.
pub fn parse_leading_num(s: &str) -> (r: i32)
    ensures
        r == leading_num(s@),
{
    let n = s.unicode_len();
    let mut i: usize = 0;
    while i < n && s.get_char(i) == ' '
        invariant
            n == s@.len(),
            i <= n,
            forall|m: int| 0 <= m < i ==> s@[m] == ' ',
        decreases n - i,
    {
        i = i + 1;
    }
    proof {
        lemma_lead_spaces_run(s@, i as int);
    }
    let start = i;
    let ghost t = s@.skip(start as int);
    let mut neg = false;
    let mut first = true;
    let mut bad = false;
    let mut digits_seen: usize = 0;
    let mut v: u64 = 0;
    let mut over = false;
    let ghost mut ds_g: Seq<char> = Seq::<char>::empty();
    proof {
        assert(crate::parse_string::tok_val(Seq::<char>::empty()) == 0);
    }
    while i < n && (char_digit_is(s.get_char(i)) || s.get_char(i) == '-')
        invariant
            n == s@.len(),
            start <= i <= n,
            t == s@.skip(start as int),
            forall|m: int| 0 <= m < i - start ==> numeric_run_char(t[m]),
            first == (i == start),
            neg == (i > start && t[0] == '-'),
            digits_seen <= i - start,
            ds_g == ({
                let run = t.take(i - start);
                if neg {
                    run.skip(1)
                } else {
                    run
                }
            }),
            digits_seen == ds_g.len() || bad,
            bad == !(forall|m: int| 0 <= m < ds_g.len() ==> is_digit_char(#[trigger] ds_g[m])),
            !bad && !over ==> v == crate::parse_string::tok_val(ds_g),
            !bad && over ==> crate::parse_string::tok_val(ds_g) > 0x8000_0000,
            v <= 0x8000_0000u64,
        decreases n - i,
    {
        let c = s.get_char(i);
        let ghost ds0 = ds_g;
        proof {
            assert(t[i - start] == s@[i as int]);
            assert(t.take(i - start + 1) =~= t.take(i - start).push(t[i - start]));
        }
        if c == '-' {
            if first {
                neg = true;
                proof {
                    assert(t.take(i - start + 1).skip(1) =~= Seq::<char>::empty());
                    ds_g = Seq::<char>::empty();
                }
            } else {
                bad = true;
                proof {
                    if neg {
                        assert(t.take(i - start + 1).skip(1) =~= ds0.push(t[i - start]));
                    }
                    ds_g = ds0.push(t[i - start]);
                    assert(ds_g.last() == '-');
                    assert(!is_digit_char('-'));
                    assert(ds_g[ds_g.len() - 1] == '-');
                }
            }
        } else {
            let d = char_digit_val(c);
            proof {
                assert(is_digit_char(t[i - start]));
                if neg {
                    assert(t.take(i - start + 1).skip(1) =~= ds0.push(t[i - start]));
                }
                ds_g = ds0.push(t[i - start]);
                assert(ds_g.drop_last() =~= ds0);
                assert(crate::parse_string::tok_val(ds_g) == crate::parse_string::tok_val(ds0) * 10
                    + digit_of_char(t[i - start]));
                if !bad {
                    assert forall|m: int| 0 <= m < ds_g.len() implies is_digit_char(
                        #[trigger] ds_g[m],
                    ) by {
                        if m < ds0.len() {
                            assert(is_digit_char(ds0[m]));
                        } else {
                            assert(ds_g[m] == t[i - start]);
                        }
                    };
                } else {
                    let w = choose|m: int| 0 <= m < ds0.len() && !is_digit_char(ds0[m]);
                    assert(ds_g[w] == ds0[w]);
                    assert(!is_digit_char(ds_g[w]));
                }
            }
            if !bad {
                if over || v > (0x8000_0000u64 - (d as u64)) / 10 {
                    proof {
                        if !over {
                            assert(v * 10 + d > 0x8000_0000) by (nonlinear_arith)
                                requires
                                    v > (0x8000_0000u64 - d) / 10,
                                    0x8000_0000u64 >= d >= 0,
                                    v >= 0,
                            ;
                        }
                        assert(crate::parse_string::tok_val(ds_g) > 0x8000_0000)
                            by (nonlinear_arith)
                            requires
                                crate::parse_string::tok_val(ds_g) == crate::parse_string::tok_val(
                                    ds0,
                                ) * 10 + digit_of_char(t[i - start]),
                                digit_of_char(t[i - start]) >= 0,
                                crate::parse_string::tok_val(ds0) > 0x8000_0000 || (
                                crate::parse_string::tok_val(ds0) == v && v * 10 + digit_of_char(
                                    t[i - start],
                                ) > 0x8000_0000 && digit_of_char(t[i - start]) == d),
                        ;
                    }
                    over = true;
                } else {
                    v = v * 10 + (d as u64);
                }
            }
            digits_seen = digits_seen + 1;
        }
        first = false;
        i = i + 1;
    }
    proof {
        assert(i - start == t.len() || !numeric_run_char(t[i - start])) by {
            if i < n {
                assert(t[i - start] == s@[i as int]);
            }
        };
        lemma_num_run_is(t, i - start);
    }
    let ghost run = t.take(num_run(t));
    let ghost ds = ds_g;
    proof {
        assert(ds == if neg {
            run.skip(1)
        } else {
            run
        });
    }
    proof {
        if i > start {
            assert(run.len() == i - start > 0);
            assert(run[0] == t[0]);
        }
        let negp = run.len() > 0 && run[0] == '-';
        assert(negp == neg);
        assert(ds == if negp {
            run.skip(1)
        } else {
            run
        });
    }
    if bad || digits_seen == 0 {
        proof {
            if digits_seen == 0 && !bad {
                assert(ds.len() == 0);
            }
            if bad {
                let w = choose|m: int| 0 <= m < ds.len() && !is_digit_char(#[trigger] ds[m]);
                assert(0 <= w < ds.len() && !is_digit_char(ds[w]));
                assert(!(forall|m: int| 0 <= m < ds.len() ==> is_digit_char(ds[m])));
            }
            assert(parse_i32(run) is None);
        }
        return 0;
    }
    if over {
        proof {
            assert(parse_i32(run) is None);
        }
        return 0;
    }
    if neg {
        proof {
            assert(parse_i32(run) == Some(-(crate::parse_string::tok_val(ds) as int)));
        }
        if v == 0x8000_0000u64 {
            return -2147483648i32;
        }
        return -(v as i32);
    }
    if v > 0x7fff_ffffu64 {
        proof {
            assert(parse_i32(run) is None);
        }
        return 0;
    }
    proof {
        assert(parse_i32(run) == Some(crate::parse_string::tok_val(ds) as int));
    }
    v as i32
}

fn char_digit_is(c: char) -> (r: bool)
    ensures
        r == is_digit_char(c),
{
    let u = c as u32;
    let r = u >= 48 && u <= 57;
    proof {
        assert(r == is_digit_char(c)) by {
            if c == '0' || c == '1' || c == '2' || c == '3' || c == '4' || c == '5' || c == '6'
                || c == '7' || c == '8' || c == '9' {
            }
        };
    }
    r
}

fn char_digit_val(c: char) -> (r: u8)
    requires
        is_digit_char(c),
    ensures
        r == digit_of_char(c),
{
    if c == '0' {
        0
    } else if c == '1' {
        1
    } else if c == '2' {
        2
    } else if c == '3' {
        3
    } else if c == '4' {
        4
    } else if c == '5' {
        5
    } else if c == '6' {
        6
    } else if c == '7' {
        7
    } else if c == '8' {
        8
    } else {
        9
    }
}

/// Compares two lines by their leading numbers.
pub fn sort_by_numeric(a: &str, b: &str) -> (r: Cmp)
    ensures
        r == int_cmp(leading_num(a@), leading_num(b@)),
{
    let x = parse_leading_num(a);
    let y = parse_leading_num(b);
    if x < y {
        Cmp::Less
    } else if x > y {
        Cmp::Greater
    } else {
        Cmp::Equal
    }
}

/// Ordering of two integers.
pub open spec fn int_cmp(a: int, b: int) -> Cmp {
    if a < b {
        Cmp::Less
    } else if a > b {
        Cmp::Greater
    } else {
        Cmp::Equal
    }
}

/// A month of the year.
#[derive(Clone, Copy, PartialEq, Eq, Structural, Debug)]
pub enum Month {
    Jan,
    Feb,
    Mar,
    Apr,
    May,
    Jun,
    Jul,
    Aug,
    Sep,
    Oct,
    Nov,
    Dec,
}

/// The number of a month, 1 through 12.
pub open spec fn month_number(m: Month) -> int {
    match m {
        Month::Jan => 1,
        Month::Feb => 2,
        Month::Mar => 3,
        Month::Apr => 4,
        Month::May => 5,
        Month::Jun => 6,
        Month::Jul => 7,
        Month::Aug => 8,
        Month::Sep => 9,
        Month::Oct => 10,
        Month::Nov => 11,
        Month::Dec => 12,
    }
}

/// ASCII lowercase mapping of a character.
pub open spec fn ascii_lower(c: char) -> char {
    if 65 <= (c as u32) <= 90 {
        ((c as u32) + 32) as char
    } else {
        c
    }
}

/// The month a string starts with: its first three characters, ASCII
/// lowercased, matched against the English month abbreviations.
pub open spec fn month_of(s: Seq<char>) -> Option<Month> {
    let p = s.take(if s.len() >= 3 {
        3
    } else {
        s.len() as int
    }).map_values(|c: char| ascii_lower(c));
    if p == seq!['j', 'a', 'n'] {
        Some(Month::Jan)
    } else if p == seq!['f', 'e', 'b'] {
        Some(Month::Feb)
    } else if p == seq!['m', 'a', 'r'] {
        Some(Month::Mar)
    } else if p == seq!['a', 'p', 'r'] {
        Some(Month::Apr)
    } else if p == seq!['m', 'a', 'y'] {
        Some(Month::May)
    } else if p == seq!['j', 'u', 'n'] {
        Some(Month::Jun)
    } else if p == seq!['j', 'u', 'l'] {
        Some(Month::Jul)
    } else if p == seq!['a', 'u', 'g'] {
        Some(Month::Aug)
    } else if p == seq!['s', 'e', 'p'] {
        Some(Month::Sep)
    } else if p == seq!['o', 'c', 't'] {
        Some(Month::Oct)
    } else if p == seq!['n', 'o', 'v'] {
        Some(Month::Nov)
    } else if p == seq!['d', 'e', 'c'] {
        Some(Month::Dec)
    } else {
        None
    }
}

fn ascii_lower_char(c: char) -> (r: char)
    ensures
        r == ascii_lower(c),
{
    let u = c as u32;
    if u >= 65 && u <= 90 {
        proof {
            assert(u + 32 < 0xD800);
        }
        ((u + 32) as u8) as char
    } else {
        c
    }
}

impl Month {
    /// The month a string names by its first three characters, ignoring
    /// ASCII case; anything else is rejected.
    pub fn try_from_str(value: &str) -> (r: Result<Month, Error>)
        ensures
            (r is Ok) == (month_of(value@) is Some),
            r matches Ok(m) ==> month_of(value@) == Some(m),
    {
        let n = value.unicode_len();
        let take = if n >= 3 {
            3
        } else {
            n
        };
        let mut p: Vec<char> = Vec::new();
        let mut i: usize = 0;
        while i < take
            invariant
                n == value@.len(),
                take == if n >= 3 {
                    3int
                } else {
                    n as int
                },
                i <= take,
                p@.len() == i,
                forall|m: int| 0 <= m < i ==> p@[m] == ascii_lower(value@[m]),
            decreases take - i,
        {
            p.push(ascii_lower_char(value.get_char(i)));
            i = i + 1;
        }
        proof {
            assert(p@ =~= value@.take(if value@.len() >= 3 {
                3int
            } else {
                value@.len() as int
            }).map_values(|c: char| ascii_lower(c)));
        }
        let m = if eq3(&p, 'j', 'a', 'n') {
            Some(Month::Jan)
        } else if eq3(&p, 'f', 'e', 'b') {
            Some(Month::Feb)
        } else if eq3(&p, 'm', 'a', 'r') {
            Some(Month::Mar)
        } else if eq3(&p, 'a', 'p', 'r') {
            Some(Month::Apr)
        } else if eq3(&p, 'm', 'a', 'y') {
            Some(Month::May)
        } else if eq3(&p, 'j', 'u', 'n') {
            Some(Month::Jun)
        } else if eq3(&p, 'j', 'u', 'l') {
            Some(Month::Jul)
        } else if eq3(&p, 'a', 'u', 'g') {
            Some(Month::Aug)
        } else if eq3(&p, 's', 'e', 'p') {
            Some(Month::Sep)
        } else if eq3(&p, 'o', 'c', 't') {
            Some(Month::Oct)
        } else if eq3(&p, 'n', 'o', 'v') {
            Some(Month::Nov)
        } else if eq3(&p, 'd', 'e', 'c') {
            Some(Month::Dec)
        } else {
            None
        };
        match m {
            Some(m) => Ok(m),
            None => Err(Error::Unknown(String::new())),
        }
    }
}

fn eq3(p: &Vec<char>, a: char, b: char, c: char) -> (r: bool)
    ensures
        r == (p@ == seq![a, b, c]),
{
    if p.len() != 3 {
        proof {
            assert(p@ != seq![a, b, c]);
        }
        return false;
    }
    let r = p[0] == a && p[1] == b && p[2] == c;
    proof {
        if r {
            assert(p@ =~= seq![a, b, c]);
        } else {
            assert(p@ != seq![a, b, c]);
        }
    }
    r
}

/// The month number a line starts with after leading spaces, 1 when none
/// is recognized (January is the fallback).
pub open spec fn leading_month(s: Seq<char>) -> int {
    let t = s.skip(lead_spaces(s));
    let p = t.take(if t.len() >= 3 {
        3
    } else {
        t.len() as int
    });
    match month_of(p) {
        Option::Some(m) => month_number(m),
        Option::None => 1,
    }
}

/// Compares two lines by the month their first word names.
pub fn sort_by_month(a: &str, b: &str) -> (r: Cmp)
    ensures
        r == int_cmp(leading_month(a@), leading_month(b@)),
{
    let x = leading_month_num(a);
    let y = leading_month_num(b);
    if x < y {
        Cmp::Less
    } else if x > y {
        Cmp::Greater
    } else {
        Cmp::Equal
    }
}

fn leading_month_num(s: &str) -> (r: u8)
    ensures
        r == leading_month(s@),
{
    let n = s.unicode_len();
    let mut i: usize = 0;
    while i < n && s.get_char(i) == ' '
        invariant
            n == s@.len(),
            i <= n,
            forall|m: int| 0 <= m < i ==> s@[m] == ' ',
        decreases n - i,
    {
        i = i + 1;
    }
    proof {
        lemma_lead_spaces_run(s@, i as int);
    }
    let rest = n - i;
    let take = if rest >= 3 {
        3
    } else {
        rest
    };
    let mut p: Vec<char> = Vec::new();
    let mut j: usize = 0;
    while j < take
        invariant
            n == s@.len(),
            i + take <= n,
            j <= take,
            p@.len() == j,
            forall|m: int| 0 <= m < j ==> p@[m] == s@[i + m],
        decreases take - j,
    {
        p.push(s.get_char(i + j));
        j = j + 1;
    }
    let prefix = crate::strings::chars_to_string(&p);
    proof {
        let t = s@.skip(i as int);
        assert(p@ =~= t.take(if t.len() >= 3 {
            3int
        } else {
            t.len() as int
        }));
    }
    match Month::try_from_str(prefix.as_str()) {
        Ok(m) => match m {
            Month::Jan => 1,
            Month::Feb => 2,
            Month::Mar => 3,
            Month::Apr => 4,
            Month::May => 5,
            Month::Jun => 6,
            Month::Jul => 7,
            Month::Aug => 8,
            Month::Sep => 9,
            Month::Oct => 10,
            Month::Nov => 11,
            Month::Dec => 12,
        },
        Err(_) => 1,
    }
}

/// The line with its trailing ASCII blanks removed.
pub open spec fn trail_spaces(s: Seq<char>) -> int
    decreases s.len(),
{
    if s.len() == 0 || !is_space(s.last()) {
        0
    } else {
        1 + trail_spaces(s.drop_last())
    }
}

/// The line without its trailing blanks.
pub open spec fn trim_end_spec(s: Seq<char>) -> Seq<char> {
    s.take(s.len() - trail_spaces(s))
}

proof fn lemma_trail_spaces_run(s: Seq<char>, k: int)
    requires
        0 <= k <= s.len(),
        forall|m: int| s.len() - k <= m < s.len() ==> is_space(s[m]),
        k == s.len() || !is_space(s[s.len() - k - 1]),
    ensures
        trail_spaces(s) == k,
    decreases k,
{
    if k > 0 {
        assert(is_space(s.last()));
        lemma_trail_spaces_run(s.drop_last(), k - 1);
    }
}

/// Removes trailing ASCII blanks, as the comparator's `-b` option does.
pub fn trim_end(s: &str) -> (r: String)
    ensures
        r@ == trim_end_spec(s@),
{
    let n = s.unicode_len();
    let mut end = n;
    while end > 0 && char_is_space_here(s.get_char(end - 1))
        invariant
            n == s@.len(),
            end <= n,
            forall|m: int| end <= m < n ==> is_space(s@[m]),
        decreases end,
    {
        end = end - 1;
    }
    proof {
        lemma_trail_spaces_run(s@, n - end);
    }
    let mut p: Vec<char> = Vec::new();
    let mut j: usize = 0;
    while j < end
        invariant
            n == s@.len(),
            end <= n,
            j <= end,
            p@.len() == j,
            forall|m: int| 0 <= m < j ==> p@[m] == s@[m],
        decreases end - j,
    {
        p.push(s.get_char(j));
        j = j + 1;
    }
    proof {
        assert(p@ =~= trim_end_spec(s@));
    }
    crate::strings::chars_to_string(&p)
}

fn char_is_space_here(c: char) -> (r: bool)
    ensures
        r == is_space(c),
{
    c == ' ' || c == '\t' || c == '\n' || c == '\r'
}

/// `first`, or `other` where `first` is `Equal`.
pub open spec fn then_spec(first: Cmp, other: Cmp) -> Cmp {
    if first == Cmp::Equal {
        other
    } else {
        first
    }
}

/// The ordering the whole comparator resolves for two lines under the
/// given options.
pub open spec fn comparator_spec(
    a: Seq<char>,
    b: Seq<char>,
    key: Option<usize>,
    numeric: bool,
    month: bool,
    rev: bool,
    trim: bool,
) -> Cmp {
    let aa = if trim {
        trim_end_spec(a)
    } else {
        a
    };
    let bb = if trim {
        trim_end_spec(b)
    } else {
        b
    };
    let o1 = match key {
        Option::Some(k) => opt_lex_cmp(word_at(aa, k as int), word_at(bb, k as int)),
        Option::None => Cmp::Equal,
    };
    let o2 = if numeric {
        then_spec(o1, int_cmp(leading_num(aa), leading_num(bb)))
    } else {
        o1
    };
    let o3 = if month {
        then_spec(o2, int_cmp(leading_month(aa), leading_month(bb)))
    } else {
        o2
    };
    if rev {
        reverse_spec(o3)
    } else {
        o3
    }
}

/// The comparator the sort runs on: trims if asked, then chains the
/// word key, the numeric key and the month key, and finally reverses if
/// asked.
pub fn comparator(a: &str, b: &str, args: &Args) -> (r: Cmp)
    ensures
        r == comparator_spec(
            a@,
            b@,
            args.key,
            args.numeric_sort,
            args.month_sort,
            args.reverse,
            args.ignore_trailing_blanks,
        ),
{
    let aa = if args.ignore_trailing_blanks {
        trim_end(a)
    } else {
        String::from_str(a)
    };
    let bb = if args.ignore_trailing_blanks {
        trim_end(b)
    } else {
        String::from_str(b)
    };
    let mut ord = Cmp::Equal;
    match args.key {
        Some(k) => {
            ord = cmp_then(ord, sort_by_key(aa.as_str(), bb.as_str(), k));
        },
        None => {},
    }
    if args.numeric_sort {
        ord = cmp_then(ord, sort_by_numeric(aa.as_str(), bb.as_str()));
    }
    if args.month_sort {
        ord = cmp_then(ord, sort_by_month(aa.as_str(), bb.as_str()));
    }
    if args.reverse {
        ord = cmp_reverse(ord);
    }
    ord
}

} // verus!
