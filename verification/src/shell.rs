//! The toy shell's command parser.
//!
//! An input line holds commands separated by `|`; each command is
//! trimmed, split into its keyword and its argument text at the first
//! space, and mapped to a [`Cmd`]. Executing the commands — changing
//! directories, killing processes, spawning programs — stays outside the
//! library.

use vstd::prelude::*;
use vstd::string::StrSliceExecFns;

use crate::cut::{lemma_sep_free_run, sep_free_len, split_char};
use crate::strings::{is_space, split_words, words_split};

verus! {

/// A parsed shell command.
#[derive(Debug, PartialEq, Eq)]
pub enum Cmd {
    /// `cd`, with the target directory text.
    ChangeDirectory(String),
    /// `pwd`.
    PresentWorkingDirectory,
    /// `echo`, with the text to print.
    Echo(String),
    /// `kill`, with the process name text.
    Kill(String),
    /// `ps`.
    ProcessStatus,
    /// Anything else: the command word and its whitespace-split arguments.
    Unknown(String, Vec<String>),
}

/// Count of leading whitespace characters.
pub open spec fn lead_ws(s: Seq<char>) -> int
    decreases s.len(),
{
    if s.len() == 0 || !is_space(s[0]) {
        0
    } else {
        1 + lead_ws(s.skip(1))
    }
}

/// Count of trailing whitespace characters.
pub open spec fn trail_ws(s: Seq<char>) -> int
    decreases s.len(),
{
    if s.len() == 0 || !is_space(s.last()) {
        0
    } else {
        1 + trail_ws(s.drop_last())
    }
}

/// The piece with leading and trailing whitespace removed; all
/// whitespace collapses to the empty text.
pub open spec fn trim_ws(s: Seq<char>) -> Seq<char> {
    if lead_ws(s) == s.len() {
        Seq::<char>::empty()
    } else {
        s.subrange(lead_ws(s), s.len() - trail_ws(s))
    }
}

/// The command keyword of a trimmed piece: everything before the first
/// space.
pub open spec fn head_of(t: Seq<char>) -> Seq<char> {
    t.take(sep_free_len(t, ' '))
}

/// The argument text of a trimmed piece: everything after the first
/// space, or empty when there is none.
pub open spec fn args_of(t: Seq<char>) -> Seq<char> {
    if sep_free_len(t, ' ') < t.len() {
        t.skip(sep_free_len(t, ' ') + 1)
    } else {
        Seq::<char>::empty()
    }
}

/// Whether a parsed command is the one the piece denotes.
pub open spec fn cmd_matches(c: Cmd, piece: Seq<char>) -> bool {
    let t = trim_ws(piece);
    let h = head_of(t);
    let a = args_of(t);
    match c {
        Cmd::ChangeDirectory(arg) => h == "cd"@ && arg@ == a,
        Cmd::PresentWorkingDirectory => h == "pwd"@,
        Cmd::Echo(arg) => h == "echo"@ && arg@ == a,
        Cmd::Kill(arg) => h == "kill"@ && arg@ == a,
        Cmd::ProcessStatus => h == "ps"@,
        Cmd::Unknown(cm, ar) => {
            &&& h != "cd"@ && h != "pwd"@ && h != "echo"@ && h != "kill"@ && h != "ps"@
            &&& cm@ == h
            &&& ar.deep_view() == words_split(a)
        },
    }
}

fn str_eq_str(a: &str, b: &str) -> (r: bool)
    ensures
        r == (a@ == b@),
{
    let na = a.unicode_len();
    let nb = b.unicode_len();
    if na != nb {
        proof {
            assert(a@ != b@);
        }
        return false;
    }
    let mut i: usize = 0;
    while i < na
        invariant
            na == a@.len(),
            na == b@.len(),
            i <= na,
            forall|m: int| 0 <= m < i ==> a@[m] == b@[m],
        decreases na - i,
    {
        if a.get_char(i) != b.get_char(i) {
            return false;
        }
        i = i + 1;
    }
    proof {
        assert(a@ =~= b@);
    }
    true
}

fn char_is_ws(c: char) -> (r: bool)
    ensures
        r == is_space(c),
{
    c == ' ' || c == '\t' || c == '\n' || c == '\r'
}

proof fn lemma_lead_ws_run(s: Seq<char>, k: int)
    requires
        0 <= k <= s.len(),
        forall|m: int| 0 <= m < k ==> is_space(s[m]),
        k == s.len() || !is_space(s[k]),
    ensures
        lead_ws(s) == k,
    decreases k,
{
    if k > 0 {
        lemma_lead_ws_run(s.skip(1), k - 1);
    }
}

proof fn lemma_trail_ws_run(s: Seq<char>, k: int)
    requires
        0 <= k <= s.len(),
        forall|m: int| s.len() - k <= m < s.len() ==> is_space(s[m]),
        k == s.len() || !is_space(s[s.len() - k - 1]),
    ensures
        trail_ws(s) == k,
    decreases k,
{
    if k > 0 {
        lemma_trail_ws_run(s.drop_last(), k - 1);
    }
}

/// Trims whitespace from both ends of a piece.
fn trim_piece(s: &String) -> (r: String)
    ensures
        r@ == trim_ws(s@),
{
    let st = s.as_str();
    let n = st.unicode_len();
    let mut lo: usize = 0;
    while lo < n && char_is_ws(st.get_char(lo))
        invariant
            n == s@.len(),
            st@ == s@,
            lo <= n,
            forall|m: int| 0 <= m < lo ==> is_space(s@[m]),
        decreases n - lo,
    {
        lo = lo + 1;
    }
    if lo == n {
        proof {
            lemma_lead_ws_run(s@, n as int);
        }
        let empty: Vec<char> = Vec::new();
        let r = crate::strings::chars_to_string(&empty);
        proof {
            assert(r@ =~= trim_ws(s@));
        }
        return r;
    }
    proof {
        lemma_lead_ws_run(s@, lo as int);
    }
    let mut hi = n;
    while hi > lo && char_is_ws(st.get_char(hi - 1))
        invariant
            n == s@.len(),
            st@ == s@,
            lo <= hi <= n,
            lo < n,
            !is_space(s@[lo as int]),
            forall|m: int| hi <= m < n ==> is_space(s@[m]),
        decreases hi,
    {
        hi = hi - 1;
    }
    proof {
        assert(hi > lo);
        lemma_trail_ws_run(s@, n - hi);
    }
    let mut p: Vec<char> = Vec::new();
    let mut j: usize = lo;
    while j < hi
        invariant
            n == s@.len(),
            st@ == s@,
            lo <= j <= hi <= n,
            p@.len() == j - lo,
            forall|m: int| 0 <= m < j - lo ==> p@[m] == s@[m + lo],
        decreases hi - j,
    {
        p.push(st.get_char(j));
        j = j + 1;
    }
    proof {
        assert(p@ =~= trim_ws(s@));
    }
    crate::strings::chars_to_string(&p)
}

/// Splits a trimmed piece into its keyword and argument text at the
/// first space.
fn split_head(t: &String) -> (r: (String, String))
    ensures
        r.0@ == head_of(t@),
        r.1@ == args_of(t@),
{
    let st = t.as_str();
    let n = st.unicode_len();
    let mut i: usize = 0;
    while i < n && st.get_char(i) != ' '
        invariant
            n == t@.len(),
            st@ == t@,
            i <= n,
            forall|m: int| 0 <= m < i ==> t@[m] != ' ',
        decreases n - i,
    {
        i = i + 1;
    }
    proof {
        lemma_sep_free_run(t@, ' ', i as int);
    }
    let mut h: Vec<char> = Vec::new();
    let mut j: usize = 0;
    while j < i
        invariant
            n == t@.len(),
            st@ == t@,
            j <= i <= n,
            h@.len() == j,
            forall|m: int| 0 <= m < j ==> h@[m] == t@[m],
        decreases i - j,
    {
        h.push(st.get_char(j));
        j = j + 1;
    }
    proof {
        assert(h@ =~= head_of(t@));
    }
    let mut a: Vec<char> = Vec::new();
    if i < n {
        let mut k: usize = i + 1;
        while k < n
            invariant
                n == t@.len(),
                st@ == t@,
                i + 1 <= k <= n,
                a@.len() == k - i - 1,
                forall|m: int| 0 <= m < k - i - 1 ==> a@[m] == t@[m + i + 1],
            decreases n - k,
        {
            a.push(st.get_char(k));
            k = k + 1;
        }
    }
    proof {
        assert(a@ =~= args_of(t@));
    }
    (crate::strings::chars_to_string(&h), crate::strings::chars_to_string(&a))
}

/// Parses an input line into its piped commands: the line splits on `|`,
/// each piece is trimmed, its first word picks the command, and the rest
/// is its argument text.
pub fn parse_cmd_args(input: &str) -> (r: Vec<Cmd>)
    ensures
        r@.len() == split_char(input@, '|').len(),
        forall|k: int|
            0 <= k < r@.len() ==> cmd_matches(#[trigger] r@[k], split_char(input@, '|')[k]),
{
    let pieces = crate::cut::split_on(input, '|');
    let n = pieces.len();
    let mut r: Vec<Cmd> = Vec::new();
    let mut i: usize = 0;
    while i < n
        invariant
            n == pieces@.len(),
            pieces.deep_view() == split_char(input@, '|'),
            i <= n,
            r@.len() == i,
            forall|k: int|
                0 <= k < i ==> cmd_matches(#[trigger] r@[k], split_char(input@, '|')[k]),
        decreases n - i,
    {
        proof {
            assert(pieces.deep_view()[i as int] == pieces@[i as int]@);
        }
        let t = trim_piece(&pieces[i]);
        let (head, args) = split_head(&t);
        let cmd = if str_eq_str(head.as_str(), "cd") {
            Cmd::ChangeDirectory(args)
        } else if str_eq_str(head.as_str(), "pwd") {
            Cmd::PresentWorkingDirectory
        } else if str_eq_str(head.as_str(), "echo") {
            Cmd::Echo(args)
        } else if str_eq_str(head.as_str(), "kill") {
            Cmd::Kill(args)
        } else if str_eq_str(head.as_str(), "ps") {
            Cmd::ProcessStatus
        } else {
            let words = split_words(args.as_str());
            Cmd::Unknown(head, words)
        };
        r.push(cmd);
        i = i + 1;
    }
    r
}

} // verus!
