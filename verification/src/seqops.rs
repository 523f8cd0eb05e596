//! Sequence utilities: interleaving two streams, intersecting slices,
//! removing an index, and binary search.

use vstd::prelude::*;

verus! {

/// Alternates the elements of two sequences, one from each in turn, and
/// appends whatever is left of the longer one.
pub open spec fn interleave(a: Seq<i32>, b: Seq<i32>) -> Seq<i32>
    decreases a.len() + b.len(),
{
    if a.len() == 0 {
        b
    } else if b.len() == 0 {
        a
    } else {
        seq![a[0], b[0]] + interleave(a.skip(1), b.skip(1))
    }
}

/// Merges two buffered streams the way one loop polls two channels: one
/// element from each per turn, until both are exhausted.
pub fn merge(a: &Vec<i32>, b: &Vec<i32>) -> (r: Vec<i32>)
    ensures
        r@ == interleave(a@, b@),
{
    let la = a.len();
    let lb = b.len();
    let mut r: Vec<i32> = Vec::new();
    let mut ia: usize = 0;
    let mut ib: usize = 0;
    proof {
        assert(a@.skip(0) =~= a@);
        assert(b@.skip(0) =~= b@);
        assert(r@ + interleave(a@, b@) =~= interleave(a@, b@));
    }
    while ia < la || ib < lb
        invariant
            la == a@.len(),
            lb == b@.len(),
            ia <= la,
            ib <= lb,
            ia == ib || (ia == la && ia <= ib) || (ib == lb && ib <= ia),
            r@ + interleave(a@.skip(ia as int), b@.skip(ib as int)) == interleave(a@, b@),
        decreases (la - ia) + (lb - ib),
    {
        let ghost sa = a@.skip(ia as int);
        let ghost sb = b@.skip(ib as int);
        if ia < la && ib < lb {
            proof {
                assert(sa.skip(1) =~= a@.skip(ia + 1));
                assert(sb.skip(1) =~= b@.skip(ib + 1));
                assert(interleave(sa, sb) == seq![sa[0], sb[0]] + interleave(
                    sa.skip(1),
                    sb.skip(1),
                ));
                assert(r@ + interleave(sa, sb) =~= (r@ + seq![sa[0], sb[0]]) + interleave(
                    a@.skip(ia + 1),
                    b@.skip(ib + 1),
                ));
                assert(r@ + seq![sa[0], sb[0]] =~= r@.push(a@[ia as int]).push(b@[ib as int]));
            }
            r.push(a[ia]);
            r.push(b[ib]);
            ia = ia + 1;
            ib = ib + 1;
        } else if ia < la {
            proof {
                assert(sb.len() == 0);
                assert(interleave(sa, sb) == sa);
                assert(sa =~= seq![sa[0]] + a@.skip(ia + 1));
                assert(a@.skip(ia + 1).len() == 0 || interleave(a@.skip(ia + 1), sb) == a@.skip(
                    ia + 1,
                ));
                assert(interleave(a@.skip(ia + 1), sb) == a@.skip(ia + 1));
                assert(r@ + sa =~= r@.push(a@[ia as int]) + a@.skip(ia + 1));
            }
            r.push(a[ia]);
            ia = ia + 1;
        } else {
            proof {
                assert(sa.len() == 0);
                assert(interleave(sa, sb) == sb);
                assert(sb =~= seq![sb[0]] + b@.skip(ib + 1));
                assert(interleave(sa, b@.skip(ib + 1)) == b@.skip(ib + 1));
                assert(r@ + sb =~= r@.push(b@[ib as int]) + b@.skip(ib + 1));
            }
            r.push(b[ib]);
            ib = ib + 1;
        }
    }
    proof {
        assert(a@.skip(la as int).len() == 0);
        assert(b@.skip(lb as int).len() == 0);
        assert(interleave(a@.skip(la as int), b@.skip(lb as int)) =~= Seq::<i32>::empty());
        assert(r@ =~= r@ + Seq::<i32>::empty());
    }
    r
}

/// Whether a vector holds an element.
pub fn contains_elem(v: &Vec<i32>, x: i32) -> (r: bool)
    ensures
        r == v@.contains(x),
{
    let n = v.len();
    let mut i: usize = 0;
    while i < n
        invariant
            n == v@.len(),
            i <= n,
            forall|j: int| 0 <= j < i ==> v@[j] != x,
        decreases n - i,
    {
        if v[i] == x {
            return true;
        }
        i = i + 1;
    }
    false
}

/// The elements of `other` that also occur in `this`, in the order and
/// multiplicity `other` has them.
pub fn intersection(this: &Vec<i32>, other: &Vec<i32>) -> (r: Vec<i32>)
    ensures
        r@ == other@.filter(|x: i32| this@.contains(x)),
{
    let n = other.len();
    let mut r: Vec<i32> = Vec::new();
    proof {
        reveal(Seq::filter);
        assert(other@.take(0) =~= Seq::<i32>::empty());
    }
    let mut i: usize = 0;
    while i < n
        invariant
            n == other@.len(),
            i <= n,
            r@ == other@.take(i as int).filter(|x: i32| this@.contains(x)),
        decreases n - i,
    {
        let x = other[i];
        proof {
            reveal(Seq::filter);
            assert(other@.take(i + 1).drop_last() =~= other@.take(i as int));
            assert(other@.take(i + 1).last() == other@[i as int]);
        }
        if contains_elem(this, x) {
            r.push(x);
        }
        i = i + 1;
    }
    proof {
        assert(other@.take(n as int) =~= other@);
    }
    r
}

/// Copies a vector with the element at `index` removed, keeping the order
/// of the rest; an index past the end removes nothing.
pub fn remove_at<T: Copy>(v: &Vec<T>, index: usize) -> (r: Vec<T>)
    ensures
        index < v@.len() ==> r@ == v@.subrange(0, index as int) + v@.subrange(
            index + 1,
            v@.len() as int,
        ),
        index >= v@.len() ==> r@ == v@,
{
    let n = v.len();
    let mut r: Vec<T> = Vec::new();
    let mut i: usize = 0;
    while i < n
        invariant
            n == v@.len(),
            i <= n,
            r@ =~= if index < i {
                v@.subrange(0, index as int) + v@.subrange(index + 1, i as int)
            } else {
                v@.subrange(0, i as int)
            },
        decreases n - i,
    {
        if i != index {
            r.push(v[i]);
        }
        i = i + 1;
    }
    proof {
        if index < n {
            assert(r@ =~= v@.subrange(0, index as int) + v@.subrange(index + 1, v@.len() as int));
        } else {
            assert(r@ =~= v@);
        }
    }
    r
}

/// Sorted in non-decreasing order.
pub open spec fn sorted(s: Seq<i32>) -> bool {
    forall|i: int, j: int| 0 <= i <= j < s.len() ==> s[i] <= s[j]
}

/// Binary search over `v[l..r]`, recursing on halves. `Ok(i)` holds an
/// index of the target; `Err(i)` is the index the target would occupy.
/// A target above every element would run the recursion past the end;
/// those inputs are excluded.
pub fn bin_search(v: &Vec<i32>, l: usize, r: usize, target: i32) -> (res: Result<usize, usize>)
    requires
        sorted(v@),
        v@.len() > 0,
        l <= r <= v@.len(),
        l < v@.len(),
        target <= v@[v@.len() - 1],
        forall|j: int| 0 <= j < l ==> v@[j] < target,
        forall|j: int| r <= j < v@.len() ==> v@[j] > target,
    ensures
        res matches Ok(i) ==> i < v@.len() && v@[i as int] == target,
        res matches Err(i) ==> i < v@.len() && (forall|j: int|
            0 <= j < v@.len() ==> v@[j] != target) && v@[i as int] > target && (i == 0 || v@[
            i - 1] < target),
    decreases r - l,
{
    if l >= r {
        if v[l] == target {
            return Ok(l);
        } else {
            proof {
                assert(v@[l as int] > target);
                assert forall|j: int| 0 <= j < v@.len() implies v@[j] != target by {
                    if j < l {
                        assert(v@[j] < target);
                    } else {
                        assert(v@[j] >= v@[l as int]);
                    }
                };
            }
            return Err(l);
        }
    }
    let m = l + (r - l) / 2;
    if v[m] == target {
        Ok(m)
    } else if v[m] < target {
        proof {
            if m + 1 == v@.len() {
                assert(v@[v@.len() - 1] < target);
                assert(false);
            }
        }
        bin_search(v, m + 1, r, target)
    } else {
        bin_search(v, l, m, target)
    }
}

} // verus!
