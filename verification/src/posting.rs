//! Posting lists: strictly increasing lists of file identifiers, and the
//! adaptive merge that intersects two of them.

use vstd::prelude::*;

verus! {

/// A list of file identifiers is a posting list when it is strictly increasing.
pub open spec fn strictly_increasing(s: Seq<usize>) -> bool {
    forall|i: int, j: int| 0 <= i < j < s.len() ==> s[i] < s[j]
}

/// The identifiers of `a` that also occur in `b`, in the order of `a`.
pub open spec fn intersection(a: Seq<usize>, b: Seq<usize>) -> Seq<usize> {
    a.filter(|x: usize| b.contains(x))
}

/// The intersection holds exactly the identifiers that both lists hold.
pub proof fn lemma_intersection_contains(a: Seq<usize>, b: Seq<usize>, x: usize)
    ensures
        intersection(a, b).contains(x) <==> a.contains(x) && b.contains(x),
{
    let p = |y: usize| b.contains(y);
    if intersection(a, b).contains(x) {
        a.lemma_filter_contains_rev(p, x);
    }
}

/// Keeping some elements of a strictly increasing list leaves it strictly
/// increasing.
pub proof fn lemma_filter_increasing(a: Seq<usize>, p: spec_fn(usize) -> bool)
    requires
        strictly_increasing(a),
    ensures
        strictly_increasing(a.filter(p)),
        forall|k: int| 0 <= k < a.filter(p).len() ==> a.contains(#[trigger] a.filter(p)[k]),
        a.len() > 0 && a.filter(p).len() > 0 ==> a.filter(p).last() <= a.last(),
    decreases a.len(),
{
    reveal(Seq::filter);
    if a.len() > 0 {
        let front = a.drop_last();
        lemma_filter_increasing(front, p);
    }
}

/// The intersection of a posting list with any list is a posting list.
pub proof fn lemma_intersection_increasing(a: Seq<usize>, b: Seq<usize>)
    requires
        strictly_increasing(a),
    ensures
        strictly_increasing(intersection(a, b)),
{
    lemma_filter_increasing(a, |x: usize| b.contains(x));
}

/// A posting list is determined by the identifiers that it holds.
pub proof fn lemma_increasing_unique(a: Seq<usize>, b: Seq<usize>)
    requires
        strictly_increasing(a),
        strictly_increasing(b),
        forall|x: usize| a.contains(x) <==> b.contains(x),
    ensures
        a == b,
    decreases a.len(),
{
    if a.len() == 0 {
        if b.len() > 0 {
            assert(b.contains(b[0]));
        }
    } else {
        assert(a.contains(a.last()));
        assert(b.contains(b.last()));
        let a0 = a.drop_last();
        let b0 = b.drop_last();
        assert forall|x: usize| a0.contains(x) <==> b0.contains(x) by {
            if a0.contains(x) {
                assert(a.contains(x));
                let j = choose|j: int| 0 <= j < b.len() && b[j] == x;
                assert(b0[j] == x);
            }
            if b0.contains(x) {
                assert(b.contains(x));
                let i = choose|i: int| 0 <= i < a.len() && a[i] == x;
                assert(a0[i] == x);
            }
        }
        lemma_increasing_unique(a0, b0);
        assert(a =~= a0.push(a.last()));
    }
}

/// Where no element from position `i` on satisfies `p`, filtering the whole
/// sequence gives what filtering its first `i` elements gives.
pub proof fn lemma_filter_rest_rejected<A>(a: Seq<A>, i: int, p: spec_fn(A) -> bool)
    requires
        0 <= i <= a.len(),
        forall|n: int| i <= n < a.len() ==> !p(#[trigger] a[n]),
    ensures
        a.filter(p) == a.take(i).filter(p),
{
    let rest = a.skip(i);
    rest.lemma_all_neg_filter_empty(p);
    assert(a =~= a.take(i) + rest);
}

/// Filtering one element more either appends that element or changes nothing.
pub proof fn lemma_filter_take_next<A>(a: Seq<A>, i: int, p: spec_fn(A) -> bool)
    requires
        0 <= i < a.len(),
    ensures
        a.take(i + 1).filter(p) == if p(a[i]) {
            a.take(i).filter(p).push(a[i])
        } else {
            a.take(i).filter(p)
        },
{
    reveal(Seq::filter);
    assert(a.take(i + 1).drop_last() =~= a.take(i));
}

/// The last position of `s` whose identifier does not exceed `x`, found by
/// jumps whose length halves.
fn gallop(s: &[usize], x: usize) -> (k: usize)
    requires
        strictly_increasing(s@),
        s@.len() > 0,
        s@[0] <= x,
    ensures
        k < s@.len(),
        s@[k as int] <= x,
        forall|m: int| k < m < s@.len() ==> s@[m] > x,
{
    let n: usize = s.len();
    let mut k: usize = 0;
    let mut step: usize = n / 2;
    while step > 0
        invariant
            n == s@.len(),
            strictly_increasing(s@),
            k < n,
            s@[k as int] <= x,
            step <= n / 2,
            step == 0 ==> forall|m: int| k < m < n ==> s@[m] > x,
        decreases step,
    {
        while step < n - k && s[k + step] <= x
            invariant
                n == s@.len(),
                k < n,
                s@[k as int] <= x,
                0 < step <= n / 2,
            decreases n - k,
        {
            k += step;
        }
        step /= 2;
    }
    k
}

/// Intersects two posting lists.
///
/// Lists whose ranges do not overlap are answered at once. Otherwise the
/// list that starts lower is advanced by galloping to the other list's first
/// identifier, and the two are merged from there.
pub fn intersect(a: &[usize], b: &[usize]) -> (out: Vec<usize>)
    requires
        strictly_increasing(a@),
        strictly_increasing(b@),
    ensures
        out@ == intersection(a@, b@),
{
    let ghost p = |x: usize| b@.contains(x);
    if a.len() == 0 || b.len() == 0 {
        proof {
            lemma_filter_rest_rejected(a@, 0, p);
        }
        return Vec::new();
    }
    if a[a.len() - 1] < b[0] || a[0] > b[b.len() - 1] {
        proof {
            lemma_filter_rest_rejected(a@, 0, p);
        }
        return Vec::new();
    }
    let mut i: usize = 0;
    let mut j: usize = 0;
    if a[0] > b[0] {
        j = gallop(b, a[0]);
    } else {
        i = gallop(a, b[0]);
    }
    let mut out: Vec<usize> = Vec::with_capacity(a.len());
    proof {
        lemma_filter_rest_rejected(a@.take(i as int), 0, p);
    }
    while i < a.len() && j < b.len()
        invariant
            strictly_increasing(a@),
            strictly_increasing(b@),
            i <= a@.len(),
            j <= b@.len(),
            p == (|x: usize| b@.contains(x)),
            out@ == a@.take(i as int).filter(p),
            forall|m: int, n: int| 0 <= m < j && i <= n < a@.len() ==> b@[m] < a@[n],
            forall|m: int, n: int| 0 <= m < i && j <= n < b@.len() ==> a@[m] < b@[n],
        decreases a@.len() - i + b@.len() - j,
    {
        let x: usize = a[i];
        let y: usize = b[j];
        if x == y {
            proof {
                lemma_filter_take_next(a@, i as int, p);
            }
            out.push(x);
            i += 1;
            j += 1;
        } else if x < y {
            proof {
                lemma_filter_take_next(a@, i as int, p);
            }
            i += 1;
        } else {
            j += 1;
        }
    }
    proof {
        lemma_filter_rest_rejected(a@, i as int, p);
    }
    out
}

/// Whether the list is a posting list.
pub fn is_posting_list(list: &[usize]) -> (yes: bool)
    ensures
        yes == strictly_increasing(list@),
{
    let mut i: usize = 1;
    while i < list.len()
        invariant
            1 <= i,
            forall|a: int, b: int| 0 <= a < b < i && b < list@.len() ==> list@[a] < list@[b],
        decreases list@.len() - i,
    {
        if list[i - 1] >= list[i] {
            return false;
        }
        i += 1;
    }
    true
}

} // verus!
