//! Run-length decoding of packed strings.
//!
//! The input is a sequence of tokens (grapheme clusters in practice). A
//! digit run repeats the preceding literal token that many times, `\`
//! escapes the next token, and any other token stands for itself. The
//! decoder is a state machine over the tokens; its meaning is the spec
//! machine `rl_decode`.

use vstd::prelude::*;
use vstd::string::{StrSliceExecFns, StringExecFns};

use crate::bigint::{digit_of_char, is_digit_char};

verus! {

/// The failure kinds of the decoder.
#[derive(Clone, Copy, PartialEq, Eq, Structural, Debug)]
pub enum Error {
    /// A packed string cannot start with a number.
    StartsWithNumber,
}

/// A token made only of decimal digit characters.
pub open spec fn is_num_tok(g: Seq<char>) -> bool {
    g.len() > 0 && forall|i: int| 0 <= i < g.len() ==> is_digit_char(g[i])
}

/// Numeric value of a digit token.
pub open spec fn tok_val(g: Seq<char>) -> nat
    decreases g.len(),
{
    if g.len() == 0 {
        0
    } else {
        (tok_val(g.drop_last()) * 10 + digit_of_char(g.last())) as nat
    }
}

/// Decoder state: nothing seen yet, a pending literal, a pending repeat
/// count, or a pending escape.
pub enum DecState {
    Init,
    Ch(Seq<char>),
    Num(nat),
    Esc,
}

/// How one token reads on its own.
pub open spec fn classify(g: Seq<char>) -> DecState {
    if is_num_tok(g) {
        DecState::Num(tok_val(g))
    } else if g == seq!['\\'] {
        DecState::Esc
    } else {
        DecState::Ch(g)
    }
}

/// `c` repeated `n` times.
pub open spec fn repeat_seq(c: Seq<char>, n: nat) -> Seq<char>
    decreases n,
{
    if n == 0 {
        Seq::<char>::empty()
    } else {
        c + repeat_seq(c, (n - 1) as nat)
    }
}

/// One machine step: from the current state, the last literal seen before
/// a count, and the next token, to the new state, the new last literal and
/// the characters emitted.
pub open spec fn rl_step(st: DecState, prev: Seq<char>, g: Seq<char>) -> (
    DecState,
    Seq<char>,
    Seq<char>,
) {
    let t = classify(g);
    match st {
        DecState::Init => (t, prev, Seq::<char>::empty()),
        DecState::Ch(c) => match t {
            DecState::Num(n) => (DecState::Num(n), c, Seq::<char>::empty()),
            _ => (t, prev, c),
        },
        DecState::Num(n) => match t {
            DecState::Num(n2) => (DecState::Num(n * 10 + n2), prev, Seq::<char>::empty()),
            _ => (t, prev, repeat_seq(prev, n)),
        },
        DecState::Esc => match t {
            DecState::Esc => (DecState::Ch(seq!['\\']), prev, Seq::<char>::empty()),
            _ => (DecState::Ch(g), prev, Seq::<char>::empty()),
        },
    }
}

/// What the machine emits when the tokens run out.
pub open spec fn rl_final(st: DecState, prev: Seq<char>) -> Seq<char> {
    match st {
        DecState::Ch(c) => c,
        DecState::Num(n) => repeat_seq(prev, n),
        _ => Seq::<char>::empty(),
    }
}

/// The output of running the machine from position `i` in state `st`.
pub open spec fn rl_from(gs: Seq<Seq<char>>, i: int, st: DecState, prev: Seq<char>) -> Seq<char>
    decreases gs.len() - i,
{
    if i < 0 || i >= gs.len() {
        rl_final(st, prev)
    } else {
        let (st2, prev2, out) = rl_step(st, prev, gs[i]);
        out + rl_from(gs, i + 1, st2, prev2)
    }
}

/// The decoded expansion of a token sequence.
pub open spec fn rl_decode(gs: Seq<Seq<char>>) -> Seq<char> {
    rl_from(gs, 0, DecState::Init, Seq::<char>::empty())
}

/// Whether every repeat count the machine accumulates from position `i`
/// on stays within `usize`.
pub open spec fn rl_fits_from(gs: Seq<Seq<char>>, i: int, st: DecState, prev: Seq<char>) -> bool
    decreases gs.len() - i,
{
    if i < 0 || i >= gs.len() {
        true
    } else {
        let t = classify(gs[i]);
        let ok = match t {
            DecState::Num(n2) => match st {
                DecState::Num(n1) => n1 * 10 + n2 <= usize::MAX,
                DecState::Esc => true,
                _ => n2 <= usize::MAX,
            },
            _ => true,
        };
        let (st2, prev2, _out) = rl_step(st, prev, gs[i]);
        ok && rl_fits_from(gs, i + 1, st2, prev2)
    }
}

/// Whether every repeat count of a token sequence stays within `usize`.
pub open spec fn rl_fits(gs: Seq<Seq<char>>) -> bool {
    rl_fits_from(gs, 0, DecState::Init, Seq::<char>::empty())
}

/// Decoder state as the machine holds it at run time.
pub enum State {
    Init,
    Char(String),
    Num(usize),
    Escape,
}

/// The spec state an executable state denotes.
pub open spec fn state_view(st: &State) -> DecState {
    match st {
        State::Init => DecState::Init,
        State::Char(s) => DecState::Ch(s@),
        State::Num(n) => DecState::Num(*n as nat),
        State::Escape => DecState::Esc,
    }
}

proof fn lemma_repeat_snoc(c: Seq<char>, n: nat)
    ensures
        repeat_seq(c, n + 1) == repeat_seq(c, n) + c,
    decreases n,
{
    if n == 0 {
        assert(repeat_seq(c, 1) == c + repeat_seq(c, 0));
        assert(c + Seq::<char>::empty() =~= c);
        assert(repeat_seq(c, 0) + c =~= c);
    } else {
        lemma_repeat_snoc(c, (n - 1) as nat);
        assert(repeat_seq(c, n + 1) == c + repeat_seq(c, n));
        assert(repeat_seq(c, n) == c + repeat_seq(c, (n - 1) as nat));
        assert(c + (repeat_seq(c, (n - 1) as nat) + c) =~= (c + repeat_seq(c, (n - 1) as nat))
            + c);
    }
}

proof fn lemma_tok_prefix(g: Seq<char>, j: int)
    requires
        0 <= j <= g.len(),
    ensures
        tok_val(g.take(j)) <= tok_val(g),
    decreases g.len() - j,
{
    if j == g.len() {
        assert(g.take(j) =~= g);
    } else {
        lemma_tok_prefix(g, j + 1);
        assert(g.take(j + 1).drop_last() =~= g.take(j));
        assert(tok_val(g.take(j + 1)) == tok_val(g.take(j)) * 10 + digit_of_char(g.take(j + 1).last()));
    }
}

/// The digit a character denotes, if any.
fn char_digit(c: char) -> (r: Option<u8>)
    ensures
        (r is Some) == is_digit_char(c),
        r matches Some(d) ==> d == digit_of_char(c),
{
    if c == '0' {
        Some(0)
    } else if c == '1' {
        Some(1)
    } else if c == '2' {
        Some(2)
    } else if c == '3' {
        Some(3)
    } else if c == '4' {
        Some(4)
    } else if c == '5' {
        Some(5)
    } else if c == '6' {
        Some(6)
    } else if c == '7' {
        Some(7)
    } else if c == '8' {
        Some(8)
    } else if c == '9' {
        Some(9)
    } else {
        None
    }
}

/// Whether a token is all decimal digits (and nonempty).
fn is_num_token(g: &String) -> (r: bool)
    ensures
        r == is_num_tok(g@),
{
    let s = g.as_str();
    let n = s.unicode_len();
    if n == 0 {
        return false;
    }
    let mut j: usize = 0;
    while j < n
        invariant
            n == s@.len(),
            s@ == g@,
            j <= n,
            forall|k: int| 0 <= k < j ==> is_digit_char(g@[k]),
        decreases n - j,
    {
        let c = s.get_char(j);
        if char_digit(c).is_none() {
            return false;
        }
        j = j + 1;
    }
    true
}

/// Whether a token is the single escape character.
fn is_backslash(g: &String) -> (r: bool)
    ensures
        r == (g@ == seq!['\\']),
{
    let s = g.as_str();
    let n = s.unicode_len();
    if n != 1 {
        proof {
            assert(g@ != seq!['\\']);
        }
        return false;
    }
    let c = s.get_char(0);
    proof {
        if c == '\\' {
            assert(g@ =~= seq!['\\']);
        } else {
            assert(g@ != seq!['\\']);
        }
    }
    c == '\\'
}

/// The numeric value of an all-digit token.
fn tok_value(g: &String) -> (r: usize)
    requires
        is_num_tok(g@),
        tok_val(g@) <= usize::MAX,
    ensures
        r == tok_val(g@),
{
    let s = g.as_str();
    let n = s.unicode_len();
    let mut v: usize = 0;
    let mut j: usize = 0;
    proof {
        assert(g@.take(0) =~= Seq::<char>::empty());
    }
    while j < n
        invariant
            n == g@.len(),
            s@ == g@,
            j <= n,
            is_num_tok(g@),
            tok_val(g@) <= usize::MAX,
            v == tok_val(g@.take(j as int)),
        decreases n - j,
    {
        let c = s.get_char(j);
        let d = match char_digit(c) {
            Some(d) => d,
            None => 0,
        };
        proof {
            assert(g@.take(j + 1).drop_last() =~= g@.take(j as int));
            assert(g@.take(j + 1).last() == g@[j as int]);
            assert(tok_val(g@.take(j + 1)) == tok_val(g@.take(j as int)) * 10 + digit_of_char(
                g@[j as int],
            ));
            lemma_tok_prefix(g@, j + 1);
        }
        v = v * 10 + (d as usize);
        j = j + 1;
    }
    proof {
        assert(g@.take(n as int) =~= g@);
    }
    v
}

/// The single-character escape token.
fn backslash_string() -> (r: String)
    ensures
        r@ == seq!['\\'],
{
    proof {
        reveal_strlit("\\");
    }
    let s = String::from_str("\\");
    proof {
        assert(s@ =~= seq!['\\']);
    }
    s
}

/// A packed token stream: the tokens, kept as handed in.
pub struct ParseString {
    /// The tokens, in order.
    pub items: Vec<String>,
}

impl ParseString {
    /// Accepts a token stream unless it opens with a number, which the
    /// format forbids.
    pub fn from_iter(items: Vec<String>) -> (r: Result<ParseString, Error>)
        ensures
            (r is Err) <==> (items@.len() > 0 && is_num_tok(items@[0]@)),
            r is Err ==> r == Err::<ParseString, Error>(Error::StartsWithNumber),
            r matches Ok(p) ==> p.items == items,
    {
        if items.len() > 0 {
            if is_num_token(&items[0]) {
                return Err(Error::StartsWithNumber);
            }
        }
        Ok(ParseString { items })
    }

    /// Runs the machine over the tokens and returns the expansion.
    pub fn decode(&self) -> (r: String)
        requires
            rl_fits(self.items.deep_view()),
        ensures
            r@ == rl_decode(self.items.deep_view()),
    {
        let ghost gs = self.items.deep_view();
        let n = self.items.len();
        let mut out = String::new();
        let mut st = State::Init;
        let mut prev = String::new();
        let mut i: usize = 0;
        proof {
            assert(gs.len() == self.items@.len());
            assert(out@ + rl_from(gs, 0, DecState::Init, prev@) =~= rl_decode(gs));
        }
        while i < n
            invariant
                n == self.items@.len(),
                gs == self.items.deep_view(),
                gs.len() == n,
                i <= n,
                out@ + rl_from(gs, i as int, state_view(&st), prev@) == rl_decode(gs),
                rl_fits_from(gs, i as int, state_view(&st), prev@),
            decreases n - i,
        {
            let ghost stv = state_view(&st);
            let ghost prevv = prev@;
            let ghost out0 = out@;
            let g = &self.items[i];
            proof {
                assert(gs[i as int] == self.items@[i as int]@);
            }
            let ghost step = rl_step(stv, prevv, gs[i as int]);
            let isnum = is_num_token(g);
            let isesc = is_backslash(g);
            match st {
                State::Init => {
                    if isnum {
                        st = State::Num(tok_value(g));
                    } else if isesc {
                        st = State::Escape;
                    } else {
                        st = State::Char(g.clone());
                    }
                },
                State::Char(c) => {
                    if isnum {
                        st = State::Num(tok_value(g));
                        prev = c;
                    } else if isesc {
                        out.append(c.as_str());
                        st = State::Escape;
                    } else {
                        out.append(c.as_str());
                        st = State::Char(g.clone());
                    }
                },
                State::Num(k) => {
                    if isnum {
                        let v = tok_value(g);
                        st = State::Num(k * 10 + v);
                    } else {
                        let mut j: usize = 0;
                        proof {
                            assert(out@ + repeat_seq(prevv, 0) =~= out@);
                        }
                        while j < k
                            invariant
                                j <= k,
                                prev@ == prevv,
                                out@ == out0 + repeat_seq(prevv, j as nat),
                            decreases k - j,
                        {
                            out.append(prev.as_str());
                            proof {
                                lemma_repeat_snoc(prevv, j as nat);
                                assert((out0 + repeat_seq(prevv, j as nat)) + prevv =~= out0
                                    + repeat_seq(prevv, (j + 1) as nat));
                            }
                            j = j + 1;
                        }
                        if isesc {
                            st = State::Escape;
                        } else {
                            st = State::Char(g.clone());
                        }
                    }
                },
                State::Escape => {
                    if isesc {
                        st = State::Char(backslash_string());
                    } else {
                        st = State::Char(g.clone());
                    }
                },
            }
            proof {
                let (st2, prev2, emitted) = step;
                assert(state_view(&st) == st2);
                assert(prev@ == prev2);
                assert(out@ == out0 + emitted);
                assert(rl_from(gs, i as int, stv, prevv) == emitted + rl_from(
                    gs,
                    i + 1,
                    st2,
                    prev2,
                ));
                assert((out0 + emitted) + rl_from(gs, i + 1, st2, prev2) =~= out0 + (emitted
                    + rl_from(gs, i + 1, st2, prev2)));
            }
            i = i + 1;
        }
        let ghost stv = state_view(&st);
        let ghost prevv = prev@;
        let ghost out0 = out@;
        proof {
            assert(rl_from(gs, n as int, stv, prevv) == rl_final(stv, prevv));
        }
        match st {
            State::Char(c) => {
                out.append(c.as_str());
            },
            State::Num(k) => {
                let mut j: usize = 0;
                proof {
                    assert(out@ + repeat_seq(prevv, 0) =~= out@);
                }
                while j < k
                    invariant
                        j <= k,
                        prev@ == prevv,
                        out@ == out0 + repeat_seq(prevv, j as nat),
                    decreases k - j,
                {
                    out.append(prev.as_str());
                    proof {
                        lemma_repeat_snoc(prevv, j as nat);
                        assert((out0 + repeat_seq(prevv, j as nat)) + prevv =~= out0 + repeat_seq(
                            prevv,
                            (j + 1) as nat,
                        ));
                    }
                    j = j + 1;
                }
            },
            _ => {},
        }
        out
    }
}

} // verus!
