//! The constraint solver: a conjunctive query is a sequence of posting lists,
//! and its answer is what the lists have in common.
//!
//! In strict mode every list takes part, so one empty list empties the
//! answer. In nonstrict mode a list that would empty the answer is set aside
//! instead, and the answer so far is kept.

use crate::posting::{
    intersect, intersection, is_posting_list, lemma_increasing_unique,
    lemma_intersection_contains, lemma_intersection_increasing, strictly_increasing,
};
use vstd::prelude::*;
use vstd::slice::slice_to_vec;

verus! {

/// The lists of a query, as sequences.
pub open spec fn constraint_lists(constraints: Seq<&[usize]>) -> Seq<Seq<usize>> {
    constraints.map_values(|c: &[usize]| c@)
}

/// Every list of the query is a posting list.
pub open spec fn all_increasing(lists: Seq<Seq<usize>>) -> bool {
    forall|i: int| 0 <= i < lists.len() ==> strictly_increasing(#[trigger] lists[i])
}

/// What all lists of a query with at least one list have in common, in the
/// order of the first list.
pub open spec fn strict_solution(lists: Seq<Seq<usize>>) -> Seq<usize>
    decreases lists.len(),
{
    if lists.len() == 0 {
        Seq::empty()
    } else if lists.len() == 1 {
        lists[0]
    } else {
        intersection(strict_solution(lists.drop_last()), lists.last())
    }
}

/// One step of the nonstrict fold. An empty answer so far is replaced by the
/// next list; otherwise the next list narrows the answer unless that would
/// leave nothing, in which case the list is set aside.
pub open spec fn nonstrict_step(so_far: Seq<usize>, next: Seq<usize>) -> Seq<usize> {
    if so_far.len() == 0 {
        next
    } else if intersection(so_far, next).len() == 0 {
        so_far
    } else {
        intersection(so_far, next)
    }
}

/// The nonstrict answer to a query: the fold of `nonstrict_step` over its
/// lists, from the first to the last.
pub open spec fn nonstrict_solution(lists: Seq<Seq<usize>>) -> Seq<usize>
    decreases lists.len(),
{
    if lists.len() == 0 {
        Seq::empty()
    } else {
        nonstrict_step(nonstrict_solution(lists.drop_last()), lists.last())
    }
}

/// The strict answer, where `None` stands for a query without lists, which
/// constrains nothing.
pub open spec fn strict_result(lists: Seq<Seq<usize>>) -> Option<Seq<usize>> {
    if lists.len() == 0 {
        None
    } else {
        Some(strict_solution(lists))
    }
}

/// The nonstrict answer, where `None` stands for a query without lists, which
/// constrains nothing.
pub open spec fn nonstrict_result(lists: Seq<Seq<usize>>) -> Option<Seq<usize>> {
    if lists.len() == 0 {
        None
    } else {
        Some(nonstrict_solution(lists))
    }
}

/// The first identifier of an answer: identifier 0 where nothing is
/// constrained, and none where the answer is empty.
pub open spec fn first_of(result: Option<Seq<usize>>) -> Option<usize> {
    match result {
        None => Some(0usize),
        Some(s) => if s.len() == 0 {
            None
        } else {
            Some(s[0])
        },
    }
}

/// An optional list of identifiers, as an optional sequence.
pub open spec fn answer_view(answer: Option<Vec<usize>>) -> Option<Seq<usize>> {
    match answer {
        None => None,
        Some(v) => Some(v@),
    }
}

/// Nothing is in common with an empty list.
proof fn lemma_intersection_empty(a: Seq<usize>, b: Seq<usize>)
    requires
        a.len() == 0 || b.len() == 0,
    ensures
        intersection(a, b).len() == 0,
{
    let c = intersection(a, b);
    if c.len() > 0 {
        lemma_intersection_contains(a, b, c[0]);
    }
}

/// Once the strict answer to the first `k` lists is empty, the answer to the
/// whole query is empty.
proof fn lemma_strict_stays_empty(lists: Seq<Seq<usize>>, k: int)
    requires
        1 <= k <= lists.len(),
        strict_solution(lists.take(k)).len() == 0,
    ensures
        strict_solution(lists).len() == 0,
    decreases lists.len() - k,
{
    if k == lists.len() {
        assert(lists.take(k) =~= lists);
    } else {
        assert(lists.take(k + 1).drop_last() =~= lists.take(k));
        lemma_strict_stays_empty(lists, k + 1);
    }
}

/// An answer of one identifier is not changed by a further nonstrict step.
proof fn lemma_nonstrict_step_single(so_far: Seq<usize>, next: Seq<usize>)
    requires
        so_far.len() == 1,
    ensures
        nonstrict_step(so_far, next) == so_far,
{
    let c = intersection(so_far, next);
    if c.len() == 1 {
        lemma_intersection_contains(so_far, next, c[0]);
    }
}

/// Once the nonstrict answer to the first `k` lists is one identifier, it is
/// the answer to the whole query.
proof fn lemma_nonstrict_single_is_final(lists: Seq<Seq<usize>>, k: int)
    requires
        0 <= k <= lists.len(),
        nonstrict_solution(lists.take(k)).len() == 1,
    ensures
        nonstrict_solution(lists) == nonstrict_solution(lists.take(k)),
    decreases lists.len() - k,
{
    if k == lists.len() {
        assert(lists.take(k) =~= lists);
    } else {
        assert(lists.take(k + 1).drop_last() =~= lists.take(k));
        lemma_nonstrict_step_single(nonstrict_solution(lists.take(k)), lists[k]);
        lemma_nonstrict_single_is_final(lists, k + 1);
    }
}

/// The strict answer to a query of posting lists is the posting list of the
/// identifiers that every list holds.
pub proof fn lemma_strict_solution_is_intersection(lists: Seq<Seq<usize>>)
    requires
        lists.len() > 0,
        all_increasing(lists),
    ensures
        strictly_increasing(strict_solution(lists)),
        forall|x: usize|
            strict_solution(lists).contains(x) <==> (forall|i: int|
                0 <= i < lists.len() ==> (#[trigger] lists[i]).contains(x)),
    decreases lists.len(),
{
    if lists.len() > 1 {
        let front = lists.drop_last();
        lemma_strict_solution_is_intersection(front);
        lemma_intersection_increasing(strict_solution(front), lists.last());
        assert forall|x: usize|
            strict_solution(lists).contains(x) <==> (forall|i: int|
                0 <= i < lists.len() ==> (#[trigger] lists[i]).contains(x)) by {
            lemma_intersection_contains(strict_solution(front), lists.last(), x);
            if strict_solution(lists).contains(x) {
                assert forall|i: int| 0 <= i < lists.len() implies (#[trigger] lists[i]).contains(
                    x,
                ) by {
                    if i < front.len() {
                        assert(front[i] == lists[i]);
                    }
                }
            }
        }
    }
}

/// The strict answer does not depend on the order of the lists, nor on how
/// often one of them is given: two queries made of the same posting lists
/// have the same answer.
pub proof fn lemma_strict_solution_any_order(first: Seq<Seq<usize>>, second: Seq<Seq<usize>>)
    requires
        first.len() > 0,
        second.len() > 0,
        all_increasing(first),
        all_increasing(second),
        forall|i: int| 0 <= i < first.len() ==> second.contains(#[trigger] first[i]),
        forall|j: int| 0 <= j < second.len() ==> first.contains(#[trigger] second[j]),
    ensures
        strict_solution(first) == strict_solution(second),
{
    lemma_strict_solution_is_intersection(first);
    lemma_strict_solution_is_intersection(second);
    lemma_increasing_unique(strict_solution(first), strict_solution(second));
}

/// The nonstrict answer to a query of posting lists is a posting list, and
/// each of its identifiers occurs in one of the lists.
pub proof fn lemma_nonstrict_solution_increasing(lists: Seq<Seq<usize>>)
    requires
        all_increasing(lists),
    ensures
        strictly_increasing(nonstrict_solution(lists)),
        forall|x: usize|
            nonstrict_solution(lists).contains(x) ==> exists|i: int|
                0 <= i < lists.len() && (#[trigger] lists[i]).contains(x),
    decreases lists.len(),
{
    if lists.len() > 0 {
        let front = lists.drop_last();
        lemma_nonstrict_solution_increasing(front);
        lemma_intersection_increasing(nonstrict_solution(front), lists.last());
    }
}

/// Appending an empty list to a query that has at least one list does not
/// change its nonstrict answer.
pub proof fn lemma_nonstrict_empty_list_appended(lists: Seq<Seq<usize>>)
    requires
        lists.len() > 0,
    ensures
        nonstrict_result(lists.push(Seq::empty())) == nonstrict_result(lists),
{
    let empty = Seq::<usize>::empty();
    let so_far = nonstrict_solution(lists);
    assert(lists.push(empty).drop_last() =~= lists);
    lemma_intersection_empty(so_far, empty);
}

/// Appending a list that shares no identifier with a nonempty nonstrict
/// answer leaves that answer as it is: the list is set aside.
pub proof fn lemma_nonstrict_disjoint_list_appended(lists: Seq<Seq<usize>>, next: Seq<usize>)
    requires
        nonstrict_solution(lists).len() > 0,
        forall|x: usize| !(nonstrict_solution(lists).contains(x) && next.contains(x)),
    ensures
        nonstrict_result(lists.push(next)) == nonstrict_result(lists),
{
    let so_far = nonstrict_solution(lists);
    assert(lists.push(next).drop_last() =~= lists);
    let c = intersection(so_far, next);
    if c.len() > 0 {
        lemma_intersection_contains(so_far, next, c[0]);
    }
}

/// All identifiers that satisfy every list of the query, in increasing
/// order; `None` where the query has no list and so constrains nothing.
pub fn solve_constraints_strict(constraints: &[&[usize]]) -> (answer: Option<Vec<usize>>)
    requires
        all_increasing(constraint_lists(constraints@)),
    ensures
        answer_view(answer) == strict_result(constraint_lists(constraints@)),
        answer matches Some(solution) ==> strictly_increasing(solution@),
{
    let ghost lists = constraint_lists(constraints@);
    let n: usize = constraints.len();
    if n == 0 {
        return None;
    }
    let mut partial_solution: Vec<usize> = slice_to_vec(constraints[0]);
    let mut k: usize = 1;
    while k < n && partial_solution.len() > 0
        invariant
            n == constraints@.len(),
            lists == constraint_lists(constraints@),
            all_increasing(lists),
            1 <= k <= n,
            partial_solution@ == strict_solution(lists.take(k as int)),
            strictly_increasing(partial_solution@),
        decreases n - k,
    {
        let constraint: &[usize] = constraints[k];
        proof {
            assert(lists[k as int] == constraint@);
            assert(lists.take(k + 1).drop_last() =~= lists.take(k as int));
            lemma_intersection_increasing(partial_solution@, constraint@);
        }
        partial_solution = intersect(partial_solution.as_slice(), constraint);
        k += 1;
    }
    proof {
        if k < n {
            lemma_strict_stays_empty(lists, k as int);
        } else {
            assert(lists.take(k as int) =~= lists);
        }
    }
    Some(partial_solution)
}

/// The smallest identifier that satisfies every list of the query; `None`
/// where there is none, and identifier 0 where the query has no list.
pub fn first_value_strict(constraints: &[&[usize]]) -> (first: Option<usize>)
    requires
        all_increasing(constraint_lists(constraints@)),
    ensures
        first == first_of(strict_result(constraint_lists(constraints@))),
{
    match solve_constraints_strict(constraints) {
        None => Some(0),
        Some(solution) => if solution.len() == 0 {
            None
        } else {
            Some(solution[0])
        },
    }
}

/// The identifiers that the query narrows down to when every list that
/// cannot be satisfied together with the lists before it is set aside;
/// `None` where the query has no list and so constrains nothing.
pub fn solve_constraints_nonstrict(constraints: &[&[usize]]) -> (answer: Option<Vec<usize>>)
    requires
        all_increasing(constraint_lists(constraints@)),
    ensures
        answer_view(answer) == nonstrict_result(constraint_lists(constraints@)),
        answer matches Some(solution) ==> strictly_increasing(solution@),
{
    let ghost lists = constraint_lists(constraints@);
    let n: usize = constraints.len();
    if n == 0 {
        return None;
    }
    let mut partial_solution: Vec<usize> = Vec::new();
    let mut k: usize = 0;
    while k < n && partial_solution.len() != 1
        invariant
            n == constraints@.len(),
            lists == constraint_lists(constraints@),
            all_increasing(lists),
            k <= n,
            partial_solution@ == nonstrict_solution(lists.take(k as int)),
            strictly_increasing(partial_solution@),
        decreases n - k,
    {
        let constraint: &[usize] = constraints[k];
        proof {
            assert(lists[k as int] == constraint@);
            assert(lists.take(k + 1).drop_last() =~= lists.take(k as int));
            lemma_intersection_increasing(partial_solution@, constraint@);
        }
        if partial_solution.len() == 0 {
            partial_solution = slice_to_vec(constraint);
        } else {
            let next_partial_solution = intersect(partial_solution.as_slice(), constraint);
            if next_partial_solution.len() > 0 {
                partial_solution = next_partial_solution;
            }
        }
        k += 1;
    }
    proof {
        if k < n {
            lemma_nonstrict_single_is_final(lists, k as int);
        } else {
            assert(lists.take(k as int) =~= lists);
        }
    }
    Some(partial_solution)
}

/// The smallest identifier of the nonstrict answer; `None` where every list
/// of the query is empty, and identifier 0 where the query has no list.
pub fn first_value_nonstrict(constraints: &[&[usize]]) -> (first: Option<usize>)
    requires
        all_increasing(constraint_lists(constraints@)),
    ensures
        first == first_of(nonstrict_result(constraint_lists(constraints@))),
{
    match solve_constraints_nonstrict(constraints) {
        None => Some(0),
        Some(solution) => if solution.len() == 0 {
            None
        } else {
            Some(solution[0])
        },
    }
}

/// Whether every list of the query is a posting list, which the solver
/// asks of its queries.
pub fn is_query(constraints: &[&[usize]]) -> (yes: bool)
    ensures
        yes == all_increasing(constraint_lists(constraints@)),
{
    let ghost lists = constraint_lists(constraints@);
    let mut k: usize = 0;
    while k < constraints.len()
        invariant
            k <= constraints@.len(),
            lists == constraint_lists(constraints@),
            forall|i: int| 0 <= i < k ==> strictly_increasing(#[trigger] lists[i]),
        decreases constraints@.len() - k,
    {
        proof {
            assert(lists[k as int] == constraints@[k as int]@);
        }
        if !is_posting_list(constraints[k]) {
            return false;
        }
        k += 1;
    }
    true
}

} // verus!
