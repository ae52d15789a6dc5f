//! Sorting pairs of numbers by their first and then by their second
//! component.

use vstd::prelude::*;
use vstd::slice::slice_to_vec;

verus! {

/// The pair `a` stands before the pair `b`: its first component is
/// smaller, or the first components are equal and its second is smaller.
pub open spec fn precedes(a: (usize, usize), b: (usize, usize)) -> bool {
    a.0 < b.0 || (a.0 == b.0 && a.1 < b.1)
}

/// Each pair stands before every later pair.
pub open spec fn ascending(pairs: Seq<(usize, usize)>) -> bool {
    forall|i: int, j: int| 0 <= i < j < pairs.len() ==> precedes(pairs[i], pairs[j])
}

/// Whether `a` stands before `b`.
fn stands_before(a: (usize, usize), b: (usize, usize)) -> (yes: bool)
    ensures
        yes == precedes(a, b),
{
    a.0 < b.0 || (a.0 == b.0 && a.1 < b.1)
}

/// Merges two ascending runs that share no pair into one ascending run.
fn merge(left: &Vec<(usize, usize)>, right: &Vec<(usize, usize)>) -> (out: Vec<(usize, usize)>)
    requires
        ascending(left@),
        ascending(right@),
        forall|i: int, j: int|
            0 <= i < left@.len() && 0 <= j < right@.len() ==> left@[i] != right@[j],
    ensures
        ascending(out@),
        out@.len() == left@.len() + right@.len(),
        forall|x: (usize, usize)| out@.contains(x) <==> left@.contains(x) || right@.contains(x),
{
    let mut out: Vec<(usize, usize)> = Vec::new();
    let mut i: usize = 0;
    let mut j: usize = 0;
    while i < left.len() || j < right.len()
        invariant
            i <= left@.len(),
            j <= right@.len(),
            out@.len() == i + j,
            ascending(left@),
            ascending(right@),
            forall|a: int, b: int|
                0 <= a < left@.len() && 0 <= b < right@.len() ==> left@[a] != right@[b],
            ascending(out@),
            forall|k: int, m: int|
                0 <= k < out@.len() && i <= m < left@.len() ==> precedes(out@[k], left@[m]),
            forall|k: int, m: int|
                0 <= k < out@.len() && j <= m < right@.len() ==> precedes(out@[k], right@[m]),
            forall|x: (usize, usize)|
                out@.contains(x) <==> left@.take(i as int).contains(x) || right@.take(
                    j as int,
                ).contains(x),
        decreases left@.len() - i + right@.len() - j,
    {
        let ghost before = out@;
        let from_left = if j == right.len() {
            true
        } else if i == left.len() {
            false
        } else {
            stands_before(left[i], right[j])
        };
        if from_left {
            let next = left[i];
            out.push(next);
            proof {
                assert(left@.take(i + 1) =~= left@.take(i as int).push(next));
                assert forall|k: int, m: int|
                    0 <= k < out@.len() && j <= m < right@.len() implies precedes(
                    out@[k],
                    right@[m],
                ) by {
                    if k == before.len() && j < m {
                        assert(precedes(right@[j as int], right@[m]));
                    }
                }
                assert forall|x: (usize, usize)|
                    out@.contains(x) <==> left@.take(i + 1).contains(x) || right@.take(
                        j as int,
                    ).contains(x) by {
                    lemma_contains_after_push(before, next, x);
                    lemma_contains_after_push(left@.take(i as int), next, x);
                }
            }
            i += 1;
        } else {
            let next = right[j];
            out.push(next);
            proof {
                assert(right@.take(j + 1) =~= right@.take(j as int).push(next));
                assert forall|k: int, m: int|
                    0 <= k < out@.len() && i <= m < left@.len() implies precedes(
                    out@[k],
                    left@[m],
                ) by {
                    if k == before.len() {
                        if i < m {
                            assert(precedes(left@[i as int], left@[m]));
                        }
                    }
                }
                assert forall|x: (usize, usize)|
                    out@.contains(x) <==> left@.take(i as int).contains(x) || right@.take(
                        j + 1,
                    ).contains(x) by {
                    lemma_contains_after_push(before, next, x);
                    lemma_contains_after_push(right@.take(j as int), next, x);
                }
            }
            j += 1;
        }
    }
    proof {
        assert(left@.take(i as int) =~= left@);
        assert(right@.take(j as int) =~= right@);
    }
    out
}

/// A sequence with one more element holds what it held before and that
/// element.
proof fn lemma_contains_after_push(s: Seq<(usize, usize)>, last: (usize, usize), x: (usize, usize))
    ensures
        s.push(last).contains(x) <==> s.contains(x) || x == last,
{
    if s.contains(x) {
        let i = choose|i: int| 0 <= i < s.len() && s[i] == x;
        assert(s.push(last)[i] == x);
    }
    if x == last {
        assert(s.push(last)[s.len() as int] == x);
    }
}

/// The pairs in ascending order. No pair may be given twice.
pub fn sort_pairs(pairs: &[(usize, usize)]) -> (sorted: Vec<(usize, usize)>)
    requires
        pairs@.no_duplicates(),
    ensures
        ascending(sorted@),
        sorted@.len() == pairs@.len(),
        forall|x: (usize, usize)| sorted@.contains(x) <==> pairs@.contains(x),
    decreases pairs@.len(),
{
    if pairs.len() <= 1 {
        return slice_to_vec(pairs);
    }
    let middle: usize = pairs.len() / 2;
    let (front, back) = pairs.split_at(middle);
    proof {
        assert(pairs@ =~= front@ + back@);
    }
    let left = sort_pairs(front);
    let right = sort_pairs(back);
    proof {
        assert forall|i: int, j: int| 0 <= i < left@.len() && 0 <= j < right@.len() implies left@[i]
            != right@[j] by {
            assert(left@.contains(left@[i]));
            assert(right@.contains(right@[j]));
        }
    }
    merge(&left, &right)
}

} // verus!
