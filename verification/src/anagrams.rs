//! The anagram-grouping exercise: sorting a word's characters to form its
//! key, and inserting words into sorted groups.

use vstd::prelude::*;
use vstd::string::StrSliceExecFns;

use crate::digits::Cmp;
use crate::strings::{lex_cmp, str_cmp};

verus! {

/// Insertion of a character into a sorted character sequence, after any
/// equal characters.
pub open spec fn insert_char(s: Seq<char>, c: char) -> Seq<char>
    decreases s.len(),
{
    if s.len() == 0 {
        seq![c]
    } else if c < s[0] {
        seq![c] + s
    } else {
        seq![s[0]] + insert_char(s.skip(1), c)
    }
}

/// Insertion sort of a character sequence.
pub open spec fn csort(cs: Seq<char>) -> Seq<char>
    decreases cs.len(),
{
    if cs.len() == 0 {
        Seq::<char>::empty()
    } else {
        insert_char(csort(cs.drop_last()), cs.last())
    }
}

proof fn lemma_insert_char_at(s: Seq<char>, c: char, j: int)
    requires
        0 <= j <= s.len(),
        forall|m: int| 0 <= m < j ==> !(c < s[m]),
        j == s.len() || c < s[j],
    ensures
        insert_char(s, c) == s.take(j) + seq![c] + s.skip(j),
    decreases j,
{
    if j == 0 {
        if s.len() == 0 {
            assert(s.take(0) + seq![c] + s.skip(0) =~= seq![c]);
        } else {
            assert(s.take(0) + seq![c] + s.skip(0) =~= seq![c] + s);
        }
    } else {
        lemma_insert_char_at(s.skip(1), c, j - 1);
        assert(s.skip(1).take(j - 1) =~= s.take(j).skip(1));
        assert(seq![s[0]] + (s.skip(1).take(j - 1) + seq![c] + s.skip(1).skip(j - 1)) =~= s.take(j)
            + seq![c] + s.skip(j));
    }
}

/// Sorts the characters of a string; the sorted form is a word's
/// anagram key.
pub fn sorted_chars(s: &str) -> (r: String)
    ensures
        r@ == csort(s@),
{
    let n = s.unicode_len();
    let mut v: Vec<char> = Vec::new();
    let mut i: usize = 0;
    proof {
        assert(s@.take(0) =~= Seq::<char>::empty());
        assert(v@ =~= csort(s@.take(0)));
    }
    while i < n
        invariant
            n == s@.len(),
            i <= n,
            v@ == csort(s@.take(i as int)),
        decreases n - i,
    {
        let c = s.get_char(i);
        let m = v.len();
        let mut j: usize = 0;
        while j < m && !(c < v[j])
            invariant
                m == v@.len(),
                j <= m,
                forall|t: int| 0 <= t < j ==> !(c < v@[t]),
            decreases m - j,
        {
            j = j + 1;
        }
        proof {
            lemma_insert_char_at(v@, c, j as int);
            assert(s@.take(i + 1).drop_last() =~= s@.take(i as int));
            assert(s@.take(i + 1).last() == s@[i as int]);
        }
        v.insert(j, c);
        proof {
            assert(v@ =~= csort(s@.take(i as int)).take(j as int) + seq![c] + csort(
                s@.take(i as int),
            ).skip(j as int));
        }
        i = i + 1;
    }
    proof {
        assert(s@.take(n as int) =~= s@);
    }
    crate::strings::chars_to_string(&v)
}

/// Token sequences in non-decreasing lexicographic order.
pub open spec fn lex_sorted(s: Seq<Seq<char>>) -> bool {
    forall|i: int, j: int|
        0 <= i <= j < s.len() ==> lex_cmp(#[trigger] s[i], #[trigger] s[j]) != Cmp::Greater
}

/// Insertion into a lexicographically sorted token sequence, after any
/// equal tokens.
pub open spec fn insert_lex(s: Seq<Seq<char>>, x: Seq<char>) -> Seq<Seq<char>>
    decreases s.len(),
{
    if s.len() == 0 {
        seq![x]
    } else if lex_cmp(x, s[0]) == Cmp::Less {
        seq![x] + s
    } else {
        seq![s[0]] + insert_lex(s.skip(1), x)
    }
}

proof fn lemma_lex_refl(a: Seq<char>)
    ensures
        lex_cmp(a, a) == Cmp::Equal,
    decreases a.len(),
{
    if a.len() > 0 {
        lemma_lex_refl(a.skip(1));
    }
}

proof fn lemma_lex_eq(a: Seq<char>, b: Seq<char>)
    requires
        lex_cmp(a, b) == Cmp::Equal,
    ensures
        a == b,
    decreases a.len(),
{
    if a.len() == 0 && b.len() == 0 {
        assert(a =~= b);
    } else {
        lemma_lex_eq(a.skip(1), b.skip(1));
        assert(a =~= seq![a[0]] + a.skip(1));
        assert(b =~= seq![b[0]] + b.skip(1));
        assert(a[0] == b[0]);
    }
}

proof fn lemma_lex_flip(a: Seq<char>, b: Seq<char>)
    requires
        lex_cmp(a, b) == Cmp::Greater,
    ensures
        lex_cmp(b, a) == Cmp::Less,
    decreases a.len(),
{
    if a.len() > 0 && b.len() > 0 {
        if a[0] > b[0] {
        } else if a[0] < b[0] {
        } else {
            lemma_lex_flip(a.skip(1), b.skip(1));
        }
    }
}

proof fn lemma_lex_trans_less(a: Seq<char>, b: Seq<char>, c: Seq<char>)
    requires
        lex_cmp(a, b) == Cmp::Less,
        lex_cmp(b, c) != Cmp::Greater,
    ensures
        lex_cmp(a, c) == Cmp::Less,
    decreases a.len() + b.len() + c.len(),
{
    if b.len() == 0 {
    } else if a.len() == 0 {
        if c.len() == 0 {
            assert(lex_cmp(b, c) == Cmp::Greater);
        }
    } else {
        if c.len() == 0 {
            assert(lex_cmp(b, c) == Cmp::Greater);
        } else {
            if a[0] < b[0] {
                if b[0] < c[0] {
                } else {
                    assert(b[0] == c[0]);
                }
            } else {
                assert(a[0] == b[0]);
                if b[0] < c[0] {
                } else {
                    assert(b[0] == c[0]);
                    lemma_lex_trans_less(a.skip(1), b.skip(1), c.skip(1));
                }
            }
        }
    }
}

/// Index of the first token strictly greater than `x`.
spec fn first_less(s: Seq<Seq<char>>, x: Seq<char>) -> int
    decreases s.len(),
{
    if s.len() == 0 {
        0
    } else if lex_cmp(x, s[0]) == Cmp::Less {
        0
    } else {
        1 + first_less(s.skip(1), x)
    }
}

proof fn lemma_first_less_props(s: Seq<Seq<char>>, x: Seq<char>)
    ensures
        0 <= first_less(s, x) <= s.len(),
        forall|m: int| 0 <= m < first_less(s, x) ==> lex_cmp(x, #[trigger] s[m]) != Cmp::Less,
        first_less(s, x) < s.len() ==> lex_cmp(x, s[first_less(s, x)]) == Cmp::Less,
    decreases s.len(),
{
    if s.len() > 0 && lex_cmp(x, s[0]) != Cmp::Less {
        lemma_first_less_props(s.skip(1), x);
        assert forall|m: int| 0 <= m < first_less(s, x) implies lex_cmp(x, #[trigger] s[m])
            != Cmp::Less by {
            if m > 0 {
                assert(s.skip(1)[m - 1] == s[m]);
            }
        };
        if first_less(s, x) < s.len() {
            assert(s.skip(1)[first_less(s, x) - 1] == s[first_less(s, x)]);
        }
    }
}

/// Inserting anywhere among equal tokens yields the same sequence as
/// `insert_lex`: the position only has to be after everything at most `x`
/// and before everything at least `x`.
proof fn lemma_insert_lex_window(s: Seq<Seq<char>>, x: Seq<char>, j: int)
    requires
        lex_sorted(s),
        0 <= j <= s.len(),
        forall|m: int| 0 <= m < j ==> lex_cmp(x, #[trigger] s[m]) != Cmp::Less,
        j == s.len() || lex_cmp(x, s[j]) != Cmp::Greater,
    ensures
        insert_lex(s, x) == s.take(j) + seq![x] + s.skip(j),
    decreases s.len(),
{
    if j == 0 {
        if s.len() == 0 {
            assert(s.take(0) + seq![x] + s.skip(0) =~= seq![x]);
        } else if lex_cmp(x, s[0]) == Cmp::Less {
            assert(s.take(0) + seq![x] + s.skip(0) =~= seq![x] + s);
        } else {
            assert(lex_cmp(x, s[0]) == Cmp::Equal);
            lemma_lex_eq(x, s[0]);
            assert(lex_sorted(s.skip(1))) by {
                assert forall|i2: int, j2: int|
                    0 <= i2 <= j2 < s.skip(1).len() implies lex_cmp(
                    #[trigger] s.skip(1)[i2],
                    #[trigger] s.skip(1)[j2],
                ) != Cmp::Greater by {
                    assert(s.skip(1)[i2] == s[i2 + 1]);
                    assert(s.skip(1)[j2] == s[j2 + 1]);
                };
            };
            if s.len() > 1 {
                assert(s.skip(1)[0] == s[1]);
                assert(lex_cmp(s[0], s[1]) != Cmp::Greater);
            }
            lemma_insert_lex_window(s.skip(1), x, 0);
            assert(insert_lex(s, x) == seq![s[0]] + (s.skip(1).take(0) + seq![x] + s.skip(
                1,
            ).skip(0)));
            assert(seq![s[0]] + (s.skip(1).take(0) + seq![x] + s.skip(1).skip(0)) =~= s.take(0)
                + seq![x] + s.skip(0)) by {
                assert(s[0] == x);
                assert(s.skip(1).skip(0) =~= s.skip(1));
                assert(s.skip(1).take(0) =~= Seq::<Seq<char>>::empty());
            };
        }
    } else {
        assert(lex_cmp(x, s[0]) != Cmp::Less);
        assert(lex_sorted(s.skip(1))) by {
            assert forall|i2: int, j2: int|
                0 <= i2 <= j2 < s.skip(1).len() implies lex_cmp(
                #[trigger] s.skip(1)[i2],
                #[trigger] s.skip(1)[j2],
            ) != Cmp::Greater by {
                assert(s.skip(1)[i2] == s[i2 + 1]);
                assert(s.skip(1)[j2] == s[j2 + 1]);
            };
        };
        assert forall|m: int| 0 <= m < j - 1 implies lex_cmp(x, #[trigger] s.skip(1)[m])
            != Cmp::Less by {
            assert(s.skip(1)[m] == s[m + 1]);
        };
        if j - 1 < s.skip(1).len() {
            assert(s.skip(1)[j - 1] == s[j]);
        }
        lemma_insert_lex_window(s.skip(1), x, j - 1);
        assert(s.skip(1).take(j - 1) =~= s.take(j).skip(1));
        assert(seq![s[0]] + (s.skip(1).take(j - 1) + seq![x] + s.skip(1).skip(j - 1)) =~= s.take(j)
            + seq![x] + s.skip(j));
    }
}

/// `insert_lex` keeps a sorted sequence sorted.
proof fn lemma_insert_lex_sorted(s: Seq<Seq<char>>, x: Seq<char>)
    requires
        lex_sorted(s),
    ensures
        lex_sorted(insert_lex(s, x)),
{
    let p = first_less(s, x);
    lemma_first_less_props(s, x);
    lemma_insert_lex_window(s, x, p);
    let r = insert_lex(s, x);
    assert forall|i: int, j: int| 0 <= i <= j < r.len() implies lex_cmp(
        #[trigger] r[i],
        #[trigger] r[j],
    ) != Cmp::Greater by {
        let ri = if i < p {
            s[i]
        } else if i == p {
            x
        } else {
            s[i - 1]
        };
        let rj = if j < p {
            s[j]
        } else if j == p {
            x
        } else {
            s[j - 1]
        };
        assert(r[i] == ri);
        assert(r[j] == rj);
        if i == j {
            lemma_lex_refl(ri);
        } else if i < p && j < p {
        } else if i < p && j == p {
            assert(lex_cmp(x, s[i]) != Cmp::Less);
            if lex_cmp(x, s[i]) == Cmp::Equal {
                lemma_lex_eq(x, s[i]);
                lemma_lex_refl(x);
            } else {
                lemma_lex_flip(x, s[i]);
            }
        } else if i < p && j > p {
        } else if i == p && j > p {
            assert(lex_cmp(x, s[p]) == Cmp::Less);
            assert(lex_cmp(s[p], s[j - 1]) != Cmp::Greater);
            lemma_lex_trans_less(x, s[p], s[j - 1]);
        } else {
        }
    };
}

/// Inserts a word into a sorted group by binary search:
/// front and back checks first, then a shrinking bracket, and insertion
/// right after the bracket's final position.
pub fn sort_push(v: &mut Vec<String>, value: String)
    requires
        lex_sorted(old(v).deep_view()),
    ensures
        final(v).deep_view() == insert_lex(old(v).deep_view(), value@),
        lex_sorted(final(v).deep_view()),
{
    let ghost s = old(v).deep_view();
    let ghost x = value@;
    proof {
        lemma_insert_lex_sorted(s, x);
    }
    let n = v.len();
    if n == 0 {
        v.push(value);
        proof {
            lemma_insert_lex_window(s, x, 0);
            assert(v.deep_view() =~= s.take(0) + seq![x] + s.skip(0));
        }
        return;
    }
    proof {
        assert(v.deep_view()[0] == v@[0]@);
        assert(v.deep_view()[n - 1] == v@[n - 1]@);
    }
    let c0 = str_cmp(value.as_str(), v[0].as_str());
    if c0 == Cmp::Less || c0 == Cmp::Equal {
        proof {
            if c0 == Cmp::Equal {
                lemma_lex_eq(x, s[0]);
                lemma_lex_refl(x);
            }
            lemma_insert_lex_window(s, x, 0);
        }
        v.insert(0, value);
        proof {
            assert(v.deep_view() =~= s.take(0) + seq![x] + s.skip(0));
        }
        return;
    }
    let cl = str_cmp(value.as_str(), v[n - 1].as_str());
    if cl == Cmp::Greater {
        proof {
            assert forall|m: int| 0 <= m < n implies lex_cmp(x, #[trigger] s[m]) != Cmp::Less by {
                if lex_cmp(x, s[m]) == Cmp::Less {
                    assert(lex_cmp(s[m], s[n - 1]) != Cmp::Greater);
                    lemma_lex_trans_less(x, s[m], s[n - 1]);
                }
            };
            lemma_insert_lex_window(s, x, n as int);
        }
        v.push(value);
        proof {
            assert(s.skip(n as int) =~= Seq::<Seq<char>>::empty());
            assert(s.take(n as int) =~= s);
            assert(v.deep_view() =~= s.take(n as int) + seq![x] + s.skip(n as int));
        }
        return;
    }
    let mut left: usize = 0;
    let mut right: usize = n - 1;
    while left < right
        invariant
            n == v@.len(),
            n >= 1,
            x == value@,
            s == v.deep_view(),
            lex_sorted(s),
            left <= right < n,
            lex_cmp(x, s[left as int]) != Cmp::Less,
            forall|m: int| right < m < n ==> lex_cmp(x, #[trigger] s[m]) == Cmp::Less,
        ensures
            n == v@.len(),
            x == value@,
            s == v.deep_view(),
            left < n,
            lex_cmp(x, s[left as int]) != Cmp::Less,
            forall|m: int| right < m < n ==> lex_cmp(x, #[trigger] s[m]) == Cmp::Less,
            lex_cmp(x, s[left as int]) == Cmp::Equal || left >= right,
        decreases right - left,
    {
        let idx = left + (right - left + 1) / 2;
        proof {
            assert(idx == (left + right + 1) / 2) by (nonlinear_arith)
                requires
                    idx == left + (right - left + 1) / 2,
                    left <= right,
            ;
        }
        proof {
            assert(v.deep_view()[idx as int] == v@[idx as int]@);
        }
        let c = str_cmp(value.as_str(), v[idx].as_str());
        proof {
            assert(c == lex_cmp(x, s[idx as int]));
        }
        match c {
            Cmp::Equal => {
                left = idx;
                break ;
            },
            Cmp::Less => {
                proof {
                    assert forall|m: int| idx - 1 < m < n implies lex_cmp(x, #[trigger] s[m])
                        == Cmp::Less by {
                        if idx < m < n {
                            assert(lex_cmp(s[idx as int], s[m]) != Cmp::Greater);
                            lemma_lex_trans_less(x, s[idx as int], s[m]);
                        }
                    };
                }
                right = idx - 1;
            },
            Cmp::Greater => {
                proof {
                    lemma_lex_flip(x, s[idx as int]);
                }
                left = idx;
            },
        }
    }
    proof {
        assert forall|m: int| 0 <= m < left + 1 implies lex_cmp(x, #[trigger] s[m])
            != Cmp::Less by {
            if lex_cmp(x, s[m]) == Cmp::Less {
                assert(lex_cmp(s[m], s[left as int]) != Cmp::Greater);
                lemma_lex_trans_less(x, s[m], s[left as int]);
            }
        };
        if left + 1 < n {
            assert(lex_cmp(x, s[left + 1]) != Cmp::Greater) by {
                if lex_cmp(x, s[left as int]) == Cmp::Equal {
                    lemma_lex_eq(x, s[left as int]);
                    assert(lex_cmp(s[left as int], s[left + 1]) != Cmp::Greater);
                } else {
                    assert(left >= right);
                    assert(lex_cmp(x, s[left + 1]) == Cmp::Less);
                }
            };
        }
        lemma_insert_lex_window(s, x, left + 1);
    }
    v.insert(left + 1, value);
    proof {
        assert(v.deep_view() =~= s.take(left + 1) + seq![x] + s.skip(left + 1));
    }
}

/// A key row of the first pass: the sorted character key, the lowercased
/// form of the first word with that key, and how many words share it.
pub struct KeyRow {
    /// Sorted characters of the lowercased word.
    pub key: String,
    /// Lowercased form of the first word with this key.
    pub first: String,
    /// How many words share the key.
    pub count: usize,
}

/// One output group: the lowercased first word as its name, and the
/// group's words in sorted order.
pub struct Group {
    /// The group's name.
    pub key: String,
    /// The group's words, lexicographically sorted.
    pub members: Vec<String>,
}

/// The view of a key row.
pub open spec fn row_view(r: KeyRow) -> (Seq<char>, Seq<char>, nat) {
    (r.key@, r.first@, r.count as nat)
}

/// The view of a group.
pub open spec fn group_view(g: Group) -> (Seq<char>, Seq<Seq<char>>) {
    (g.key@, g.members.deep_view())
}

/// Index of a key in the table, or -1.
pub open spec fn tbl_find(t: Seq<(Seq<char>, Seq<char>, nat)>, key: Seq<char>) -> int
    decreases t.len(),
{
    if t.len() == 0 {
        -1
    } else if t[0].0 == key {
        0
    } else {
        let r = tbl_find(t.skip(1), key);
        if r < 0 {
            -1
        } else {
            1 + r
        }
    }
}

/// One word added to the key table.
pub open spec fn tbl_add(t: Seq<(Seq<char>, Seq<char>, nat)>, lw: Seq<char>) -> Seq<
    (Seq<char>, Seq<char>, nat),
> {
    let key = csort(lw);
    let i = tbl_find(t, key);
    if i < 0 {
        t.push((key, lw, 1))
    } else {
        t.update(i, (t[i].0, t[i].1, (t[i].2 + 1) as nat))
    }
}

/// The key table of a word list: for every distinct sorted-lowercase key,
/// the lowercased first word with it and the number of words sharing it.
pub open spec fn build_tbl(ws: Seq<Seq<char>>) -> Seq<(Seq<char>, Seq<char>, nat)>
    decreases ws.len(),
{
    if ws.len() == 0 {
        Seq::<(Seq<char>, Seq<char>, nat)>::empty()
    } else {
        tbl_add(build_tbl(ws.drop_last()), crate::unicode::lower_of(ws.last()))
    }
}

/// Index of a group by name, or -1.
pub open spec fn grp_find(g: Seq<(Seq<char>, Seq<Seq<char>>)>, rep: Seq<char>) -> int
    decreases g.len(),
{
    if g.len() == 0 {
        -1
    } else if g[0].0 == rep {
        0
    } else {
        let r = grp_find(g.skip(1), rep);
        if r < 0 {
            -1
        } else {
            1 + r
        }
    }
}

/// One word added to the groups, under the given name, in sorted order.
pub open spec fn grp_add(g: Seq<(Seq<char>, Seq<Seq<char>>)>, rep: Seq<char>, lw: Seq<char>) -> Seq<
    (Seq<char>, Seq<Seq<char>>),
> {
    let i = grp_find(g, rep);
    if i < 0 {
        g.push((rep, seq![lw]))
    } else {
        g.update(i, (g[i].0, insert_lex(g[i].1, lw)))
    }
}

/// The anagram groups of a word list under a key table: every word whose
/// key is shared joins the group named after the first word with its key.
pub open spec fn build_groups(
    ws: Seq<Seq<char>>,
    t: Seq<(Seq<char>, Seq<char>, nat)>,
) -> Seq<(Seq<char>, Seq<Seq<char>>)>
    decreases ws.len(),
{
    if ws.len() == 0 {
        Seq::<(Seq<char>, Seq<Seq<char>>)>::empty()
    } else {
        let g = build_groups(ws.drop_last(), t);
        let lw = crate::unicode::lower_of(ws.last());
        let i = tbl_find(t, csort(lw));
        if i < 0 || t[i].2 == 1 {
            g
        } else {
            grp_add(g, t[i].1, lw)
        }
    }
}

proof fn lemma_tbl_find_found(t: Seq<(Seq<char>, Seq<char>, nat)>, key: Seq<char>, k: int)
    requires
        0 <= k < t.len(),
        t[k].0 == key,
        forall|j: int| 0 <= j < k ==> (#[trigger] t[j]).0 != key,
    ensures
        tbl_find(t, key) == k,
    decreases t.len(),
{
    if k > 0 {
        lemma_tbl_find_found(t.skip(1), key, k - 1);
    }
}

proof fn lemma_tbl_find_none(t: Seq<(Seq<char>, Seq<char>, nat)>, key: Seq<char>)
    requires
        forall|j: int| 0 <= j < t.len() ==> (#[trigger] t[j]).0 != key,
    ensures
        tbl_find(t, key) == -1,
    decreases t.len(),
{
    if t.len() > 0 {
        lemma_tbl_find_none(t.skip(1), key);
    }
}

proof fn lemma_grp_find_found(g: Seq<(Seq<char>, Seq<Seq<char>>)>, rep: Seq<char>, k: int)
    requires
        0 <= k < g.len(),
        g[k].0 == rep,
        forall|j: int| 0 <= j < k ==> (#[trigger] g[j]).0 != rep,
    ensures
        grp_find(g, rep) == k,
    decreases g.len(),
{
    if k > 0 {
        lemma_grp_find_found(g.skip(1), rep, k - 1);
    }
}

proof fn lemma_grp_find_none(g: Seq<(Seq<char>, Seq<Seq<char>>)>, rep: Seq<char>)
    requires
        forall|j: int| 0 <= j < g.len() ==> (#[trigger] g[j]).0 != rep,
    ensures
        grp_find(g, rep) == -1,
    decreases g.len(),
{
    if g.len() > 0 {
        lemma_grp_find_none(g.skip(1), rep);
    }
}

/// Groups the words that are anagrams of one another, ignoring case: a
/// word's key is its lowercased form with the characters sorted; every
/// key shared by at least two words yields a group, named after the
/// lowercased first word with that key and holding all its words sorted.
pub fn anagrams(words: &Vec<String>) -> (r: Vec<Group>)
    requires
        words@.len() < usize::MAX,
    ensures
        r@.map_values(|g: Group| group_view(g)) == build_groups(
            words.deep_view(),
            build_tbl(words.deep_view()),
        ),
{
    let ghost ws = words.deep_view();
    let n = words.len();
    let mut table: Vec<KeyRow> = Vec::new();
    let mut i: usize = 0;
    proof {
        assert(ws.take(0) =~= Seq::<Seq<char>>::empty());
        assert(table@.map_values(|r: KeyRow| row_view(r)) =~= build_tbl(ws.take(0)));
    }
    while i < n
        invariant
            n == words@.len(),
            n < usize::MAX,
            ws == words.deep_view(),
            i <= n,
            table@.map_values(|r: KeyRow| row_view(r)) == build_tbl(ws.take(i as int)),
            forall|j: int| 0 <= j < table@.len() ==> (#[trigger] table@[j]).count >= 1,
            forall|j: int| 0 <= j < table@.len() ==> (#[trigger] table@[j]).count <= i,
        decreases n - i,
    {
        let ghost tv = table@.map_values(|r: KeyRow| row_view(r));
        proof {
            assert(ws[i as int] == words@[i as int]@);
            assert(ws.take(i + 1).drop_last() =~= ws.take(i as int));
            assert(ws.take(i + 1).last() == ws[i as int]);
        }
        let lw = crate::unicode::lowercase(words[i].as_str());
        let key = sorted_chars(lw.as_str());
        let m = table.len();
        let mut j: usize = 0;
        while j < m && !table[j].key.eq(&key)
            invariant
                m == table@.len(),
                j <= m,
                forall|t2: int| 0 <= t2 < j ==> (#[trigger] table@[t2]).key@ != key@,
            decreases m - j,
        {
            j = j + 1;
        }
        if j < m {
            proof {
                assert(tv[j as int] == row_view(table@[j as int]));
                assert forall|t2: int| 0 <= t2 < j implies (#[trigger] tv[t2]).0 != key@ by {
                    assert(tv[t2] == row_view(table@[t2]));
                };
                lemma_tbl_find_found(tv, key@, j as int);
            }
            let row = table.remove(j);
            let newrow = KeyRow { key: row.key, first: row.first, count: row.count + 1 };
            table.insert(j, newrow);
            proof {
                assert(table@.map_values(|r: KeyRow| row_view(r)) =~= tbl_add(tv, lw@));
            }
        } else {
            proof {
                assert forall|t2: int| 0 <= t2 < tv.len() implies (#[trigger] tv[t2]).0
                    != key@ by {
                    assert(tv[t2] == row_view(table@[t2]));
                };
                lemma_tbl_find_none(tv, key@);
            }
            table.push(KeyRow { key, first: lw, count: 1 });
            proof {
                assert(table@.map_values(|r: KeyRow| row_view(r)) =~= tbl_add(tv, lw@));
            }
        }
        i = i + 1;
    }
    proof {
        assert(ws.take(n as int) =~= ws);
    }
    let ghost tv = table@.map_values(|r: KeyRow| row_view(r));
    let mut groups: Vec<Group> = Vec::new();
    let mut i2: usize = 0;
    proof {
        assert(groups@.map_values(|g: Group| group_view(g)) =~= build_groups(ws.take(0), tv));
    }
    while i2 < n
        invariant
            n == words@.len(),
            ws == words.deep_view(),
            tv == table@.map_values(|r: KeyRow| row_view(r)),
            forall|j: int| 0 <= j < table@.len() ==> (#[trigger] table@[j]).count >= 1,
            i2 <= n,
            groups@.map_values(|g: Group| group_view(g)) == build_groups(ws.take(i2 as int), tv),
            forall|e: int|
                0 <= e < groups@.len() ==> lex_sorted((#[trigger] groups@[e]).members.deep_view()),
        decreases n - i2,
    {
        let ghost gv = groups@.map_values(|g: Group| group_view(g));
        proof {
            assert(ws[i2 as int] == words@[i2 as int]@);
            assert(ws.take(i2 + 1).drop_last() =~= ws.take(i2 as int));
            assert(ws.take(i2 + 1).last() == ws[i2 as int]);
        }
        let lw = crate::unicode::lowercase(words[i2].as_str());
        let key = sorted_chars(lw.as_str());
        let m = table.len();
        let mut j: usize = 0;
        while j < m && !table[j].key.eq(&key)
            invariant
                m == table@.len(),
                j <= m,
                forall|t2: int| 0 <= t2 < j ==> (#[trigger] table@[t2]).key@ != key@,
            decreases m - j,
        {
            j = j + 1;
        }
        if j < m {
            proof {
                assert(tv[j as int] == row_view(table@[j as int]));
                assert forall|t2: int| 0 <= t2 < j implies (#[trigger] tv[t2]).0 != key@ by {
                    assert(tv[t2] == row_view(table@[t2]));
                };
                lemma_tbl_find_found(tv, key@, j as int);
            }
            if table[j].count > 1 {
                let rep = table[j].first.clone();
                let gm = groups.len();
                let mut k: usize = 0;
                while k < gm && !groups[k].key.eq(&rep)
                    invariant
                        gm == groups@.len(),
                        k <= gm,
                        forall|t2: int| 0 <= t2 < k ==> (#[trigger] groups@[t2]).key@ != rep@,
                    decreases gm - k,
                {
                    k = k + 1;
                }
                if k < gm {
                    proof {
                        assert(gv[k as int] == group_view(groups@[k as int]));
                        assert forall|t2: int| 0 <= t2 < k implies (#[trigger] gv[t2]).0
                            != rep@ by {
                            assert(gv[t2] == group_view(groups@[t2]));
                        };
                        lemma_grp_find_found(gv, rep@, k as int);
                    }
                    let mut grp = groups.remove(k);
                    sort_push(&mut grp.members, lw);
                    groups.insert(k, grp);
                    proof {
                        assert(groups@.map_values(|g: Group| group_view(g)) =~= grp_add(
                            gv,
                            rep@,
                            lw@,
                        ));
                    }
                } else {
                    proof {
                        assert forall|t2: int| 0 <= t2 < gv.len() implies (#[trigger] gv[t2]).0
                            != rep@ by {
                            assert(gv[t2] == group_view(groups@[t2]));
                        };
                        lemma_grp_find_none(gv, rep@);
                    }
                    let mut members: Vec<String> = Vec::new();
                    members.push(lw);
                    proof {
                        assert(members.deep_view() =~= seq![lw@]);
                        lemma_lex_refl(lw@);
                        assert(lex_sorted(members.deep_view()));
                    }
                    groups.push(Group { key: rep, members });
                    proof {
                        assert(groups@.map_values(|g: Group| group_view(g)) =~= grp_add(
                            gv,
                            rep@,
                            lw@,
                        ));
                    }
                }
            }
        } else {
            proof {
                assert forall|t2: int| 0 <= t2 < tv.len() implies (#[trigger] tv[t2]).0
                    != key@ by {
                    assert(tv[t2] == row_view(table@[t2]));
                };
                lemma_tbl_find_none(tv, key@);
            }
        }
        i2 = i2 + 1;
    }
    proof {
        assert(ws.take(n as int) =~= ws);
    }
    groups
}

} // verus!
