//! The column-cutting exercise: parsing field selections like
//! `1,3-5,9-,-16`, and cutting the selected columns out of delimited
//! lines.
//!
//! Field selections are parsed item by item, sorted by start and merged
//! where they overlap; a line is split on the delimiter and the selected
//! columns are joined back with it. All of it is stated exactly: the
//! result equals a spec-level parse, sort and merge of the input.

use vstd::prelude::*;
use vstd::string::{StrSliceExecFns, StringExecFns};

use crate::bigint::{digit_of_char, is_digit_char};
use crate::parse_string::tok_val;

verus! {

/// An inclusive range of column indices.
#[derive(Clone, Copy, PartialEq, Eq, Structural, Debug)]
pub struct Span {
    /// First selected column.
    pub start: usize,
    /// Last selected column.
    pub end: usize,
}

/// Length of the run of characters at the front that are not `sep`.
pub open spec fn sep_free_len(cs: Seq<char>, sep: char) -> int
    decreases cs.len(),
{
    if cs.len() == 0 || cs[0] == sep {
        0
    } else {
        1 + sep_free_len(cs.skip(1), sep)
    }
}

proof fn lemma_sep_free_len_bounds(cs: Seq<char>, sep: char)
    ensures
        0 <= sep_free_len(cs, sep) <= cs.len(),
    decreases cs.len(),
{
    if cs.len() > 0 && cs[0] != sep {
        lemma_sep_free_len_bounds(cs.skip(1), sep);
    }
}

/// The pieces of `cs` between occurrences of `sep`; empty pieces are
/// kept, and the empty string is one empty piece.
pub open spec fn split_char(cs: Seq<char>, sep: char) -> Seq<Seq<char>>
    decreases cs.len(),
    via split_char_decreases
{
    let k = sep_free_len(cs, sep);
    if k == cs.len() {
        seq![cs]
    } else {
        seq![cs.take(k)] + split_char(cs.skip(k + 1), sep)
    }
}

#[via_fn]
proof fn split_char_decreases(cs: Seq<char>, sep: char) {
    lemma_sep_free_len_bounds(cs, sep);
}

pub(crate) proof fn lemma_sep_free_run(cs: Seq<char>, sep: char, k: int)
    requires
        0 <= k <= cs.len(),
        forall|m: int| 0 <= m < k ==> cs[m] != sep,
        k == cs.len() || cs[k] == sep,
    ensures
        sep_free_len(cs, sep) == k,
    decreases k,
{
    if k > 0 {
        lemma_sep_free_run(cs.skip(1), sep, k - 1);
    }
}

/// Splits a string at every occurrence of `sep`, keeping empty pieces.
pub fn split_on(s: &str, sep: char) -> (r: Vec<String>)
    ensures
        r.deep_view() == split_char(s@, sep),
{
    let n = s.unicode_len();
    let mut r: Vec<String> = Vec::new();
    let mut piece: Vec<char> = Vec::new();
    let mut start: usize = 0;
    let mut i: usize = 0;
    proof {
        assert(s@.skip(0) =~= s@);
    }
    while i < n
        invariant
            n == s@.len(),
            start <= i <= n,
            piece@ =~= s@.subrange(start as int, i as int),
            forall|m: int| start <= m < i ==> s@[m] != sep,
            r.deep_view() + split_char(s@.skip(start as int), sep) == split_char(s@, sep),
        decreases n - i,
    {
        let c = s.get_char(i);
        if c == sep {
            let ghost pre = r.deep_view();
            let ghost t = s@.skip(start as int);
            proof {
                assert(forall|m: int| 0 <= m < i - start ==> t[m] == s@[m + start]);
                lemma_sep_free_run(t, sep, i - start);
                assert(t.take(i - start) =~= s@.subrange(start as int, i as int));
                assert(t.skip(i - start + 1) =~= s@.skip(i + 1));
                assert(split_char(t, sep) == seq![piece@] + split_char(s@.skip(i + 1), sep));
            }
            let word = crate::strings::chars_to_string(&piece);
            r.push(word);
            proof {
                assert(r.deep_view() =~= pre.push(piece@));
                assert(pre.push(piece@) + split_char(s@.skip(i + 1), sep) =~= pre + (seq![piece@]
                    + split_char(s@.skip(i + 1), sep)));
            }
            piece = Vec::new();
            start = i + 1;
        } else {
            piece.push(c);
        }
        i = i + 1;
    }
    let ghost pre = r.deep_view();
    let ghost t = s@.skip(start as int);
    proof {
        assert(forall|m: int| 0 <= m < t.len() ==> t[m] == s@[m + start]);
        lemma_sep_free_run(t, sep, t.len() as int);
        assert(t.take(t.len() as int) =~= t);
        assert(split_char(t, sep) == seq![t]);
        assert(piece@ =~= t);
    }
    let word = crate::strings::chars_to_string(&piece);
    r.push(word);
    proof {
        assert(r.deep_view() =~= pre.push(t));
        assert(pre.push(t) =~= pre + seq![t]);
    }
    r
}

/// Length of the run of decimal digits at the front.
pub open spec fn digit_run(cs: Seq<char>) -> int
    decreases cs.len(),
{
    if cs.len() == 0 || !is_digit_char(cs[0]) {
        0
    } else {
        1 + digit_run(cs.skip(1))
    }
}

proof fn lemma_digit_run_bounds(cs: Seq<char>)
    ensures
        0 <= digit_run(cs) <= cs.len(),
    decreases cs.len(),
{
    if cs.len() > 0 && is_digit_char(cs[0]) {
        lemma_digit_run_bounds(cs.skip(1));
    }
}

/// A digit run parses when it is nonempty and its value fits `usize`.
pub open spec fn num_ok(ds: Seq<char>) -> bool {
    ds.len() >= 1 && tok_val(ds) <= usize::MAX
}

/// The first number of an item: its leading digit run.
pub open spec fn item_num1(cs: Seq<char>) -> Seq<char> {
    cs.take(digit_run(cs))
}

/// Whether the first non-digit character of an item is the range dash.
pub open spec fn item_has_range(cs: Seq<char>) -> bool {
    digit_run(cs) < cs.len() && cs[digit_run(cs)] == '-'
}

/// The second number of an item: the digit run right after the first
/// non-digit character.
pub open spec fn item_num2(cs: Seq<char>) -> Seq<char> {
    if digit_run(cs) < cs.len() {
        let rest = cs.skip(digit_run(cs) + 1);
        rest.take(digit_run(rest))
    } else {
        Seq::<char>::empty()
    }
}

/// The column span an item selects, resolved from its five shapes —
/// plain number, closed range, and the three open forms (`usize::MAX`
/// stands for an open end).
pub open spec fn span_of_item(cs: Seq<char>) -> Span {
    let d1 = item_num1(cs);
    let d2 = item_num2(cs);
    let hr = item_has_range(cs);
    if num_ok(d1) && !hr {
        Span { start: (tok_val(d1) - 1) as usize, end: (tok_val(d1) - 1) as usize }
    } else if num_ok(d1) && num_ok(d2) && hr {
        Span { start: (tok_val(d1) - 1) as usize, end: (tok_val(d2) - 1) as usize }
    } else if !num_ok(d1) && num_ok(d2) && hr {
        Span { start: 0, end: (tok_val(d2) - 1) as usize }
    } else if num_ok(d1) && hr {
        Span { start: (tok_val(d1) - 1) as usize, end: usize::MAX }
    } else {
        Span { start: 0, end: usize::MAX }
    }
}

/// The item's numbers are positive wherever one is subtracted from them
/// to reach a zero-based column (a zero would underflow).
pub open spec fn item_ok(cs: Seq<char>) -> bool {
    let d1 = item_num1(cs);
    let d2 = item_num2(cs);
    let hr = item_has_range(cs);
    &&& (num_ok(d1) ==> tok_val(d1) >= 1)
    &&& (num_ok(d2) && hr && !num_ok(d1) ==> tok_val(d2) >= 1)
    &&& (num_ok(d1) && num_ok(d2) && hr ==> tok_val(d2) >= 1)
}

/// The spans of all items of a field selection.
pub open spec fn items_of(s: Seq<char>) -> Seq<Span> {
    split_char(s, ',').map_values(|p: Seq<char>| span_of_item(p))
}

/// Insertion into a start-sorted span sequence, after any equal starts.
pub open spec fn insert_span(s: Seq<Span>, x: Span) -> Seq<Span>
    decreases s.len(),
{
    if s.len() == 0 {
        seq![x]
    } else if x.start < s[0].start {
        seq![x] + s
    } else {
        seq![s[0]] + insert_span(s.skip(1), x)
    }
}

/// Insertion sort of spans by start.
pub open spec fn sort_spans(s: Seq<Span>) -> Seq<Span>
    decreases s.len(),
{
    if s.len() == 0 {
        Seq::<Span>::empty()
    } else {
        insert_span(sort_spans(s.drop_last()), s.last())
    }
}

/// Merging a start-sorted span sequence: a running span swallows every
/// following span that starts at or before its end.
pub open spec fn merge_from(s: Seq<Span>, i: int, cur: Span) -> Seq<Span>
    decreases s.len() - i,
{
    if i < 0 || i >= s.len() {
        seq![cur]
    } else if cur.end >= s[i].start {
        let newend = if cur.end >= s[i].end {
            cur.end
        } else {
            s[i].end
        };
        merge_from(s, i + 1, Span { start: cur.start, end: newend })
    } else {
        seq![cur] + merge_from(s, i + 1, s[i])
    }
}

/// The merged form of a span sequence, folded left to right.
pub open spec fn merged(s: Seq<Span>) -> Seq<Span> {
    if s.len() == 0 {
        seq![Span { start: 0, end: usize::MAX }]
    } else {
        merge_from(s, 0, s[0])
    }
}

fn digits_prefix_value(s: &String, from: usize) -> (r: (usize, Option<usize>))
    requires
        from <= s@.len(),
    ensures
        r.0 == digit_run(s@.skip(from as int)),
        (r.1 is Some) == num_ok(s@.skip(from as int).take(digit_run(s@.skip(from as int)))),
        r.1 matches Some(v) ==> v == tok_val(s@.skip(from as int).take(digit_run(s@.skip(from as int)))),
{
    let st = s.as_str();
    let n = st.unicode_len();
    let ghost t = s@.skip(from as int);
    let mut j: usize = from;
    let mut v: usize = 0;
    let mut over = false;
    proof {
        assert(t.take(0) =~= Seq::<char>::empty());
    }
    while j < n && char_digit_opt(st.get_char(j)).is_some()
        invariant
            n == s@.len(),
            st@ == s@,
            t == s@.skip(from as int),
            from <= j <= n,
            forall|m: int| 0 <= m < j - from ==> is_digit_char(t[m]),
            !over ==> v == tok_val(t.take(j - from)),
            over ==> tok_val(t.take(j - from)) > usize::MAX,
        decreases n - j,
    {
        let c = st.get_char(j);
        let d = match char_digit_opt(c) {
            Some(d) => d,
            None => 0,
        };
        proof {
            assert(t[j - from] == s@[j as int]);
            assert(t.take(j - from + 1).drop_last() =~= t.take(j - from));
            assert(t.take(j - from + 1).last() == t[j - from]);
            assert(tok_val(t.take(j - from + 1)) == tok_val(t.take(j - from)) * 10 + digit_of_char(
                t[j - from],
            ));
        }
        if over || v > (usize::MAX - (d as usize)) / 10 {
            proof {
                if !over {
                    assert(v * 10 + d > usize::MAX) by (nonlinear_arith)
                        requires
                            v > (usize::MAX - d) / 10,
                            usize::MAX >= d >= 0,
                            v >= 0,
                    ;
                }
                assert(tok_val(t.take(j - from + 1)) > usize::MAX) by (nonlinear_arith)
                    requires
                        tok_val(t.take(j - from + 1)) == tok_val(t.take(j - from)) * 10
                            + digit_of_char(t[j - from]),
                        tok_val(t.take(j - from)) * 10 + digit_of_char(t[j - from]) >= tok_val(
                            t.take(j - from),
                        ),
                        tok_val(t.take(j - from)) > usize::MAX || tok_val(t.take(j - from)) * 10
                            + digit_of_char(t[j - from]) > usize::MAX,
                ;
            }
            over = true;
            v = 0;
        } else {
            v = v * 10 + (d as usize);
        }
        j = j + 1;
    }
    proof {
        assert(j - from == t.len() || !is_digit_char(t[j - from])) by {
            if j < n {
                assert(t[j - from] == s@[j as int]);
            }
        };
        lemma_digit_run_is(t, j - from);
    }
    let count = j - from;
    if count == 0 || over {
        (count, None)
    } else {
        (count, Some(v))
    }
}

proof fn lemma_digit_run_is(cs: Seq<char>, k: int)
    requires
        0 <= k <= cs.len(),
        forall|m: int| 0 <= m < k ==> is_digit_char(cs[m]),
        k == cs.len() || !is_digit_char(cs[k]),
    ensures
        digit_run(cs) == k,
    decreases k,
{
    if k > 0 {
        lemma_digit_run_is(cs.skip(1), k - 1);
    }
}

fn char_digit_opt(c: char) -> (r: Option<u8>)
    ensures
        (r is Some) == is_digit_char(c),
        r matches Some(d) ==> d == digit_of_char(c),
{
    if c == '0' {
        Some(0)
    } else if c == '1' {
        Some(1)
    } else if c == '2' {
        Some(2)
    } else if c == '3' {
        Some(3)
    } else if c == '4' {
        Some(4)
    } else if c == '5' {
        Some(5)
    } else if c == '6' {
        Some(6)
    } else if c == '7' {
        Some(7)
    } else if c == '8' {
        Some(8)
    } else if c == '9' {
        Some(9)
    } else {
        None
    }
}

/// The span one selection item denotes.
fn item_span(piece: &String) -> (r: Span)
    requires
        item_ok(piece@),
    ensures
        r == span_of_item(piece@),
{
    proof {
        assert(piece@.skip(0) =~= piece@);
        lemma_digit_run_bounds(piece@);
    }
    let (d1, n1) = digits_prefix_value(piece, 0);
    let st = piece.as_str();
    let n = st.unicode_len();
    let has_range = d1 < n && st.get_char(d1) == '-';
    let n2 = if d1 < n {
        let (_, n2) = digits_prefix_value(piece, d1 + 1);
        n2
    } else {
        None
    };
    proof {
        assert(piece@.take(digit_run(piece@)) =~= item_num1(piece@));
        if digit_run(piece@) < piece@.len() {
            assert(piece@.skip(digit_run(piece@) + 1) =~= piece@.skip(d1 + 1));
            let rest = piece@.skip(digit_run(piece@) + 1);
            assert(rest.take(digit_run(rest)) =~= item_num2(piece@));
        }
    }
    match (n1, n2, has_range) {
        (Some(a), _, false) => Span { start: a - 1, end: a - 1 },
        (Some(a), Some(b), true) => Span { start: a - 1, end: b - 1 },
        (None, Some(b), true) => Span { start: 0, end: b - 1 },
        (Some(a), None, true) => Span { start: a - 1, end: usize::MAX },
        _ => Span { start: 0, end: usize::MAX },
    }
}

proof fn lemma_insert_span_at(s: Seq<Span>, x: Span, j: int)
    requires
        0 <= j <= s.len(),
        forall|m: int| 0 <= m < j ==> !(x.start < s[m].start),
        j == s.len() || x.start < s[j].start,
    ensures
        insert_span(s, x) == s.take(j) + seq![x] + s.skip(j),
    decreases j,
{
    if j == 0 {
        if s.len() == 0 {
            assert(insert_span(s, x) == seq![x]);
            assert(s.take(0) + seq![x] + s.skip(0) =~= seq![x]);
        } else {
            assert(s.take(0) + seq![x] + s.skip(0) =~= seq![x] + s);
        }
    } else {
        lemma_insert_span_at(s.skip(1), x, j - 1);
        assert(s.skip(1).take(j - 1) =~= s.take(j).skip(1));
        assert(seq![s[0]] + (s.skip(1).take(j - 1) + seq![x] + s.skip(1).skip(j - 1)) =~= s.take(j)
            + seq![x] + s.skip(j));
    }
}

/// Sorts spans by start, inserting each into the sorted prefix, as a
/// stable sort by start does.
pub fn sort_spans_by_start(v: &Vec<Span>) -> (r: Vec<Span>)
    ensures
        r@ == sort_spans(v@),
{
    let n = v.len();
    let mut r: Vec<Span> = Vec::new();
    let mut i: usize = 0;
    proof {
        assert(v@.take(0) =~= Seq::<Span>::empty());
        assert(r@ =~= sort_spans(v@.take(0)));
    }
    while i < n
        invariant
            n == v@.len(),
            i <= n,
            r@ == sort_spans(v@.take(i as int)),
        decreases n - i,
    {
        let x = v[i];
        let m = r.len();
        let mut j: usize = 0;
        while j < m && !(x.start < r[j].start)
            invariant
                m == r@.len(),
                j <= m,
                forall|t: int| 0 <= t < j ==> !(x.start < r@[t].start),
            decreases m - j,
        {
            j = j + 1;
        }
        proof {
            lemma_insert_span_at(r@, x, j as int);
            assert(v@.take(i + 1).drop_last() =~= v@.take(i as int));
            assert(v@.take(i + 1).last() == v@[i as int]);
        }
        r.insert(j, x);
        proof {
            assert(r@ =~= sort_spans(v@.take(i as int)).take(j as int) + seq![x] + sort_spans(
                v@.take(i as int),
            ).skip(j as int));
        }
        i = i + 1;
    }
    proof {
        assert(v@.take(n as int) =~= v@);
    }
    r
}

/// Merges a start-sorted span list, exactly as `merged` states it.
pub fn merge_spans(v: &Vec<Span>) -> (r: Vec<Span>)
    requires
        v@.len() > 0,
    ensures
        r@ == merged(v@),
{
    let mut cur = v[0];
    let mut r: Vec<Span> = Vec::new();
    let mut i: usize = 0;
    let n = v.len();
    proof {
        assert(r@ + merge_from(v@, 0, cur) =~= merged(v@));
    }
    while i < n
        invariant
            n == v@.len(),
            i <= n,
            r@ + merge_from(v@, i as int, cur) == merged(v@),
        decreases n - i,
    {
        let ghost pre = r@;
        let x = v[i];
        if cur.end >= x.start {
            let newend = if cur.end >= x.end {
                cur.end
            } else {
                x.end
            };
            cur = Span { start: cur.start, end: newend };
        } else {
            r.push(cur);
            proof {
                assert(pre.push(cur) + merge_from(v@, i + 1, x) =~= pre + (seq![cur] + merge_from(
                    v@,
                    i + 1,
                    x,
                )));
            }
            cur = x;
        }
        i = i + 1;
    }
    r.push(cur);
    proof {
        assert(merge_from(v@, n as int, cur) == seq![cur]);
        assert(r@ =~= merged(v@));
    }
    r
}

/// Every item of a field selection is well formed.
pub open spec fn all_items_ok(s: Seq<char>) -> bool {
    forall|k: int| 0 <= k < split_char(s, ',').len() ==> item_ok(#[trigger] split_char(s, ',')[k])
}

/// Parses a field selection like `1,3-5,9-,-16` into the sorted, merged
/// column spans it denotes.
pub fn number_ranges(s: &str) -> (r: Vec<Span>)
    requires
        all_items_ok(s@),
    ensures
        r@ == merged(sort_spans(items_of(s@))),
{
    let pieces = split_on(s, ',');
    let n = pieces.len();
    let mut spans: Vec<Span> = Vec::new();
    let mut i: usize = 0;
    proof {
        assert(spans@ =~= items_of(s@).take(0));
    }
    while i < n
        invariant
            n == pieces@.len(),
            pieces.deep_view() == split_char(s@, ','),
            all_items_ok(s@),
            i <= n,
            spans@ =~= items_of(s@).take(i as int),
        decreases n - i,
    {
        proof {
            assert(pieces.deep_view()[i as int] == pieces@[i as int]@);
            assert(items_of(s@)[i as int] == span_of_item(split_char(s@, ',')[i as int]));
        }
        let sp = item_span(&pieces[i]);
        spans.push(sp);
        proof {
            assert(spans@ =~= items_of(s@).take(i + 1));
        }
        i = i + 1;
    }
    proof {
        assert(items_of(s@).take(n as int) =~= items_of(s@));
        assert(items_of(s@).len() == split_char(s@, ',').len() >= 1);
    }
    let sorted = sort_spans_by_start(&spans);
    merge_spans(&sorted)
}

/// Whether delimiter `d` occurs in `cs` at position `m`.
pub open spec fn occurs_at(cs: Seq<char>, d: Seq<char>, m: int) -> bool {
    m + d.len() <= cs.len() && cs.subrange(m, m + d.len() as int) == d
}

/// Length of the run at the front of `cs` before the first occurrence of
/// `d`; the whole length when `d` does not occur.
pub open spec fn free_len(cs: Seq<char>, d: Seq<char>) -> int
    decreases cs.len(),
{
    if cs.len() == 0 {
        0
    } else if cs.len() >= d.len() && cs.take(d.len() as int) == d {
        0
    } else {
        1 + free_len(cs.skip(1), d)
    }
}

proof fn lemma_free_len_bounds(cs: Seq<char>, d: Seq<char>)
    ensures
        0 <= free_len(cs, d) <= cs.len(),
    decreases cs.len(),
{
    if cs.len() > 0 && !(cs.len() >= d.len() && cs.take(d.len() as int) == d) {
        lemma_free_len_bounds(cs.skip(1), d);
    }
}

/// The pieces of `cs` between non-overlapping occurrences of the
/// delimiter `d`, scanned left to right; empty pieces are kept. An empty
/// delimiter leaves the string whole.
pub open spec fn split_sub(cs: Seq<char>, d: Seq<char>) -> Seq<Seq<char>>
    decreases cs.len(),
    via split_sub_decreases
{
    if d.len() == 0 {
        seq![cs]
    } else {
        let k = free_len(cs, d);
        if k == cs.len() {
            seq![cs]
        } else {
            seq![cs.take(k)] + split_sub(cs.skip(k + d.len()), d)
        }
    }
}

#[via_fn]
proof fn split_sub_decreases(cs: Seq<char>, d: Seq<char>) {
    lemma_free_len_bounds(cs, d);
    lemma_free_len_match(cs, d);
}

proof fn lemma_free_len_match(cs: Seq<char>, d: Seq<char>)
    ensures
        free_len(cs, d) < cs.len() ==> free_len(cs, d) + d.len() <= cs.len(),
    decreases cs.len(),
{
    if cs.len() > 0 && !(cs.len() >= d.len() && cs.take(d.len() as int) == d) {
        lemma_free_len_match(cs.skip(1), d);
    }
}

proof fn lemma_free_len_run(cs: Seq<char>, d: Seq<char>, k: int)
    requires
        d.len() >= 1,
        0 <= k <= cs.len(),
        forall|m: int| 0 <= m < k ==> !occurs_at(cs, d, m),
        k == cs.len() || occurs_at(cs, d, k),
    ensures
        free_len(cs, d) == k,
    decreases k,
{
    if k == 0 {
        if cs.len() >= d.len() && cs.take(d.len() as int) == d {
            assert(cs.subrange(0, d.len() as int) =~= cs.take(d.len() as int));
        } else {
            if cs.len() > 0 && occurs_at(cs, d, 0) {
                assert(cs.take(d.len() as int) =~= cs.subrange(0, d.len() as int));
            }
        }
    } else {
        assert(!occurs_at(cs, d, 0));
        assert(!(cs.len() >= d.len() && cs.take(d.len() as int) == d)) by {
            if cs.len() >= d.len() && cs.take(d.len() as int) == d {
                assert(cs.subrange(0, d.len() as int) =~= cs.take(d.len() as int));
            }
        };
        assert forall|m: int| 0 <= m < k - 1 implies !occurs_at(cs.skip(1), d, m) by {
            if occurs_at(cs.skip(1), d, m) {
                assert(cs.subrange(m + 1, m + 1 + d.len()) =~= cs.skip(1).subrange(
                    m,
                    m + d.len() as int,
                ));
                assert(occurs_at(cs, d, m + 1));
            }
        };
        if k < cs.len() {
            assert(cs.skip(1).subrange(k - 1, k - 1 + d.len()) =~= cs.subrange(
                k,
                k + d.len() as int,
            ));
            assert(occurs_at(cs.skip(1), d, k - 1));
        }
        lemma_free_len_run(cs.skip(1), d, k - 1);
    }
}

/// Whether `d` occurs in `s` at position `m`.
fn matches_at(s: &str, d: &str, m: usize) -> (r: bool)
    requires
        m <= s@.len(),
    ensures
        r == occurs_at(s@, d@, m as int),
{
    let n = s.unicode_len();
    let dn = d.unicode_len();
    if dn > n - m {
        return false;
    }
    let mut j: usize = 0;
    while j < dn
        invariant
            n == s@.len(),
            dn == d@.len(),
            m + dn <= n,
            j <= dn,
            forall|t: int| 0 <= t < j ==> s@[m + t] == d@[t],
        decreases dn - j,
    {
        if s.get_char(m + j) != d.get_char(j) {
            proof {
                assert(s@.subrange(m as int, m + d@.len())[j as int] != d@[j as int]);
            }
            return false;
        }
        j = j + 1;
    }
    proof {
        assert(s@.subrange(m as int, m + d@.len()) =~= d@);
    }
    true
}

/// Splits a string at every occurrence of a nonempty delimiter, keeping
/// empty pieces.
pub fn split_by(s: &str, d: &str) -> (r: Vec<String>)
    requires
        d@.len() >= 1,
    ensures
        r.deep_view() == split_sub(s@, d@),
{
    let n = s.unicode_len();
    let dn = d.unicode_len();
    let mut r: Vec<String> = Vec::new();
    let mut piece: Vec<char> = Vec::new();
    let mut start: usize = 0;
    let mut i: usize = 0;
    proof {
        assert(s@.skip(0) =~= s@);
    }
    while i < n
        invariant
            n == s@.len(),
            dn == d@.len(),
            dn >= 1,
            start <= i <= n,
            piece@ =~= s@.subrange(start as int, i as int),
            forall|m: int| start <= m < i ==> !occurs_at(s@, d@, m),
            r.deep_view() + split_sub(s@.skip(start as int), d@) == split_sub(s@, d@),
        decreases n - i,
    {
        if matches_at(s, d, i) {
            let ghost pre = r.deep_view();
            let ghost t = s@.skip(start as int);
            proof {
                assert forall|m: int| 0 <= m < i - start implies !occurs_at(t, d@, m) by {
                    if occurs_at(t, d@, m) {
                        assert(s@.subrange(m + start, m + start + d@.len()) =~= t.subrange(
                            m,
                            m + d@.len() as int,
                        ));
                        assert(occurs_at(s@, d@, m + start));
                    }
                };
                assert(t.subrange(i - start, i - start + d@.len()) =~= s@.subrange(
                    i as int,
                    i + d@.len(),
                ));
                assert(occurs_at(t, d@, i - start));
                lemma_free_len_run(t, d@, i - start);
                assert(t.take(i - start) =~= s@.subrange(start as int, i as int));
                assert(t.skip(i - start + d@.len()) =~= s@.skip(i + dn));
                assert(split_sub(t, d@) == seq![piece@] + split_sub(s@.skip(i + dn), d@));
            }
            let word = crate::strings::chars_to_string(&piece);
            r.push(word);
            proof {
                assert(r.deep_view() =~= pre.push(piece@));
                assert(pre.push(piece@) + split_sub(s@.skip(i + dn), d@) =~= pre + (seq![piece@]
                    + split_sub(s@.skip(i + dn), d@)));
            }
            piece = Vec::new();
            i = i + dn;
            start = i;
        } else {
            piece.push(s.get_char(i));
            i = i + 1;
        }
    }
    let ghost pre = r.deep_view();
    let ghost t = s@.skip(start as int);
    proof {
        assert forall|m: int| 0 <= m < t.len() implies !occurs_at(t, d@, m) by {
            if occurs_at(t, d@, m) {
                assert(s@.subrange(m + start, m + start + d@.len()) =~= t.subrange(
                    m,
                    m + d@.len() as int,
                ));
                assert(occurs_at(s@, d@, m + start));
            }
        };
        lemma_free_len_run(t, d@, t.len() as int);
        assert(t.take(t.len() as int) =~= t);
        assert(split_sub(t, d@) == seq![t]);
        assert(piece@ =~= t);
    }
    let word = crate::strings::chars_to_string(&piece);
    r.push(word);
    proof {
        assert(r.deep_view() =~= pre.push(t));
        assert(pre.push(t) =~= pre + seq![t]);
    }
    r
}

/// The words joined with the delimiter between each two.
pub open spec fn join_with(ws: Seq<Seq<char>>, d: Seq<char>) -> Seq<char>
    decreases ws.len(),
{
    if ws.len() == 0 {
        Seq::<char>::empty()
    } else if ws.len() == 1 {
        ws[0]
    } else {
        ws[0] + d + join_with(ws.skip(1), d)
    }
}

/// Joins `words[lo..=hi]` with the delimiter.
fn join_range(words: &Vec<String>, lo: usize, hi: usize, d: &str) -> (r: String)
    requires
        lo <= hi < words@.len(),
    ensures
        r@ == join_with(words.deep_view().subrange(lo as int, hi + 1), d@),
{
    let ghost sel = words.deep_view().subrange(lo as int, hi + 1);
    let wn = words.len();
    let mut out = String::new();
    let mut k: usize = lo;
    proof {
        assert(sel.skip(0) =~= sel);
        assert(out@ + join_with(sel, d@) =~= join_with(sel, d@));
    }
    while k <= hi
        invariant
            lo <= hi < wn,
            wn == words@.len(),
            lo <= k <= hi + 1,
            sel == words.deep_view().subrange(lo as int, hi + 1),
            out@ + join_with(sel.skip(k - lo), d@) == join_with(sel, d@),
        decreases hi + 1 - k,
    {
        let ghost rest = sel.skip(k - lo);
        let ghost out0 = out@;
        proof {
            assert(rest[0] == words.deep_view()[k as int]);
            assert(words.deep_view()[k as int] == words@[k as int]@);
        }
        out.append(words[k].as_str());
        if k < hi {
            out.append(d);
            proof {
                assert(rest.len() >= 2);
                assert(rest.skip(1) =~= sel.skip(k + 1 - lo));
                assert(join_with(rest, d@) == rest[0] + d@ + join_with(sel.skip(k + 1 - lo), d@));
                assert(((out0 + rest[0]) + d@) + join_with(sel.skip(k + 1 - lo), d@) =~= out0 + ((
                rest[0] + d@) + join_with(sel.skip(k + 1 - lo), d@)));
            }
        } else {
            proof {
                assert(rest.len() == 1);
                assert(join_with(rest, d@) == rest[0]);
                assert(sel.skip(hi + 1 - lo) =~= Seq::<Seq<char>>::empty());
                assert(join_with(Seq::<Seq<char>>::empty(), d@) =~= Seq::<char>::empty());
                assert(out@ + Seq::<char>::empty() =~= out@);
            }
        }
        k = k + 1;
    }
    out
}

/// The columns a span selects from `words`: from its start to its end
/// clamped into the word list, and never before its start.
pub open spec fn selected(words: Seq<Seq<char>>, sp: Span) -> Seq<Seq<char>> {
    let e0 = if sp.end < words.len() - 1 {
        sp.end as int
    } else {
        words.len() - 1
    };
    let e = if e0 < sp.start {
        sp.start as int
    } else {
        e0
    };
    words.subrange(sp.start as int, e + 1)
}

/// Cuts the selected column ranges out of one delimited line: the line is
/// split on the delimiter, and each span yields the selected words joined
/// back with it. With `separated` set, a line without the delimiter
/// yields nothing. A span that begins past the last word has no column
/// to select; those inputs are excluded.
pub fn read_str(s: &str, ranges: &Vec<Span>, delimiter: &str, separated: bool) -> (r: Vec<String>)
    requires
        delimiter@.len() >= 1,
        forall|k: int|
            0 <= k < ranges@.len() ==> (#[trigger] ranges@[k]).start < split_sub(
                s@,
                delimiter@,
            ).len(),
    ensures
        (separated && split_sub(s@, delimiter@).len() < 2) ==> r@.len() == 0,
        !(separated && split_sub(s@, delimiter@).len() < 2) ==> {
            &&& r@.len() == ranges@.len()
            &&& forall|k: int|
                0 <= k < ranges@.len() ==> r.deep_view()[k] == join_with(
                    selected(split_sub(s@, delimiter@), ranges@[k]),
                    delimiter@,
                )
        },
{
    let words = split_by(s, delimiter);
    let wn = words.len();
    let mut r: Vec<String> = Vec::new();
    if separated && wn < 2 {
        return r;
    }
    let n = ranges.len();
    let mut k: usize = 0;
    while k < n
        invariant
            n == ranges@.len(),
            wn == words@.len(),
            words.deep_view() == split_sub(s@, delimiter@),
            delimiter@.len() >= 1,
            forall|t: int| 0 <= t < n ==> (#[trigger] ranges@[t]).start < wn,
            k <= n,
            r@.len() == k,
            forall|t: int|
                0 <= t < k ==> r.deep_view()[t] == join_with(
                    selected(words.deep_view(), ranges@[t]),
                    delimiter@,
                ),
        decreases n - k,
    {
        let sp = ranges[k];
        let lo = sp.start;
        let mut hi = if sp.end < wn - 1 {
            sp.end
        } else {
            wn - 1
        };
        if hi < lo {
            hi = lo;
        }
        let joined = join_range(&words, lo, hi, delimiter);
        let ghost pre = r.deep_view();
        proof {
            assert(words.deep_view().subrange(lo as int, hi + 1) =~= selected(
                words.deep_view(),
                sp,
            ));
        }
        r.push(joined);
        proof {
            assert(r.deep_view() =~= pre.push(joined@));
        }
        k = k + 1;
    }
    r
}

/// The whole column-cutting step on one text: parses the field selection
/// and cuts the selected columns out of the text as one delimited line.
/// Reading the text from a file or stdin and printing each joined
/// selection stay with the caller; the text comes in and the lines go out
/// as values.
pub fn process(s: &str, fields: &str, delimiter: &str, separated: bool) -> (r: Vec<String>)
    requires
        all_items_ok(fields@),
        delimiter@.len() >= 1,
        forall|k: int|
            0 <= k < merged(sort_spans(items_of(fields@))).len() ==> (#[trigger] merged(
                sort_spans(items_of(fields@)),
            )[k]).start < split_sub(s@, delimiter@).len(),
    ensures
        (separated && split_sub(s@, delimiter@).len() < 2) ==> r@.len() == 0,
        !(separated && split_sub(s@, delimiter@).len() < 2) ==> {
            &&& r@.len() == merged(sort_spans(items_of(fields@))).len()
            &&& forall|k: int|
                0 <= k < r@.len() ==> r.deep_view()[k] == join_with(
                    selected(split_sub(s@, delimiter@), merged(sort_spans(items_of(fields@)))[k]),
                    delimiter@,
                )
        },
{
    let ranges = number_ranges(fields);
    read_str(s, &ranges, delimiter, separated)
}

} // verus!
