use tokenize_dir::posting::{intersect, is_posting_list};
use tokenize_dir::solver::is_query;
use tokenize_dir::{
    first_value_nonstrict, first_value_strict, solve_constraints_nonstrict,
    solve_constraints_strict,
};

const ODD: &[usize] = &[1, 3, 5, 7];
const MIXED: &[usize] = &[3, 5, 9];
const NONE: &[usize] = &[];

#[test]
fn strict_intersects_two_lists() {
    assert_eq!(solve_constraints_strict(&[ODD, MIXED]), Some(vec![3, 5]));
    assert_eq!(first_value_strict(&[ODD, MIXED]), Some(3));
}

#[test]
fn strict_with_an_empty_list_is_empty() {
    assert_eq!(solve_constraints_strict(&[ODD, NONE]), Some(vec![]));
    assert_eq!(solve_constraints_strict(&[NONE, ODD]), Some(vec![]));
    assert_eq!(first_value_strict(&[ODD, NONE]), None);
}

#[test]
fn nonstrict_skips_an_empty_list() {
    assert_eq!(solve_constraints_nonstrict(&[ODD, NONE]), Some(vec![1, 3, 5, 7]));
    assert_eq!(first_value_nonstrict(&[ODD, NONE]), Some(1));
}

#[test]
fn no_constraints_is_unconstrained() {
    assert_eq!(solve_constraints_strict(&[]), None);
    assert_eq!(solve_constraints_nonstrict(&[]), None);
    assert_eq!(first_value_strict(&[]), Some(0));
    assert_eq!(first_value_nonstrict(&[]), Some(0));
}

#[test]
fn strict_of_one_list_is_that_list() {
    assert_eq!(solve_constraints_strict(&[MIXED]), Some(vec![3, 5, 9]));
    assert_eq!(first_value_strict(&[MIXED]), Some(3));
}

#[test]
fn strict_does_not_depend_on_the_order_of_the_lists() {
    let a: &[usize] = &[0, 2, 4, 6, 8, 10, 12];
    let b: &[usize] = &[4, 5, 6, 7, 8, 12];
    let c: &[usize] = &[1, 4, 8, 9, 12, 13];
    let expected = Some(vec![4, 8, 12]);
    assert_eq!(solve_constraints_strict(&[a, b, c]), expected);
    assert_eq!(solve_constraints_strict(&[a, c, b]), expected);
    assert_eq!(solve_constraints_strict(&[b, a, c]), expected);
    assert_eq!(solve_constraints_strict(&[b, c, a]), expected);
    assert_eq!(solve_constraints_strict(&[c, a, b]), expected);
    assert_eq!(solve_constraints_strict(&[c, b, a]), expected);
    assert_eq!(solve_constraints_strict(&[c, b, a, b, c]), expected);
}

#[test]
fn strict_without_common_identifier_is_empty() {
    let low: &[usize] = &[1, 2, 3];
    let high: &[usize] = &[7, 8];
    let between: &[usize] = &[0, 4, 9];
    assert_eq!(solve_constraints_strict(&[low, high]), Some(vec![]));
    assert_eq!(solve_constraints_strict(&[high, low]), Some(vec![]));
    assert_eq!(solve_constraints_strict(&[low, between]), Some(vec![]));
    assert_eq!(first_value_strict(&[low, high, ODD]), None);
}

#[test]
fn nonstrict_sets_aside_a_list_that_shares_nothing() {
    let kept: &[usize] = &[1, 3, 5];
    let disjoint: &[usize] = &[2, 4];
    assert_eq!(solve_constraints_nonstrict(&[kept, disjoint]), Some(vec![1, 3, 5]));
    assert_eq!(solve_constraints_strict(&[kept, disjoint]), Some(vec![]));
    assert_eq!(first_value_nonstrict(&[kept, disjoint]), Some(1));
}

#[test]
fn nonstrict_is_not_changed_by_an_appended_empty_list() {
    assert_eq!(solve_constraints_nonstrict(&[ODD, MIXED]), Some(vec![3, 5]));
    assert_eq!(solve_constraints_nonstrict(&[ODD, MIXED, NONE]), Some(vec![3, 5]));
    assert_eq!(solve_constraints_nonstrict(&[NONE]), Some(vec![]));
    assert_eq!(solve_constraints_nonstrict(&[NONE, NONE]), Some(vec![]));
}

#[test]
fn nonstrict_of_empty_lists_only_is_empty() {
    assert_eq!(solve_constraints_nonstrict(&[NONE, NONE, NONE]), Some(vec![]));
    assert_eq!(first_value_nonstrict(&[NONE, NONE, NONE]), None);
}

#[test]
fn nonstrict_starts_from_the_first_list_that_is_not_empty() {
    let pair: &[usize] = &[2, 3];
    let single: &[usize] = &[3];
    assert_eq!(solve_constraints_nonstrict(&[NONE, pair, single]), Some(vec![3]));
    assert_eq!(solve_constraints_nonstrict(&[NONE, NONE, pair]), Some(vec![2, 3]));
    assert_eq!(first_value_nonstrict(&[NONE, pair, single]), Some(3));
}

#[test]
fn nonstrict_keeps_a_single_identifier_to_the_end() {
    let single: &[usize] = &[5];
    let other: &[usize] = &[1, 2];
    assert_eq!(solve_constraints_nonstrict(&[single, other, ODD, NONE]), Some(vec![5]));
    assert_eq!(solve_constraints_nonstrict(&[ODD, MIXED, single, other]), Some(vec![5]));
}

#[test]
fn nonstrict_narrows_list_by_list() {
    let a: &[usize] = &[1, 2, 3, 8];
    let b: &[usize] = &[2, 3, 8];
    let c: &[usize] = &[0, 4];
    let d: &[usize] = &[3, 8, 9];
    assert_eq!(solve_constraints_nonstrict(&[a, b, c, d]), Some(vec![3, 8]));
    assert_eq!(solve_constraints_strict(&[a, b, c, d]), Some(vec![]));
}

#[test]
fn nonstrict_depends_on_the_order_of_the_lists() {
    let a: &[usize] = &[1, 2];
    let b: &[usize] = &[3, 4];
    assert_eq!(solve_constraints_nonstrict(&[a, b]), Some(vec![1, 2]));
    assert_eq!(solve_constraints_nonstrict(&[b, a]), Some(vec![3, 4]));
}

#[test]
fn intersect_skips_ahead_in_the_longer_list() {
    let long: Vec<usize> = (0..1000).collect();
    let short: &[usize] = &[700, 701, 999];
    assert_eq!(intersect(&long, short), vec![700, 701, 999]);
    assert_eq!(intersect(short, &long), vec![700, 701, 999]);
    let even: Vec<usize> = (0..500).map(|i| 2 * i).collect();
    let wanted: &[usize] = &[301, 302, 303, 998, 999, 1000];
    assert_eq!(intersect(&even, wanted), vec![302, 998]);
    assert_eq!(intersect(wanted, &even), vec![302, 998]);
}

#[test]
fn intersect_handles_the_ends_of_the_lists() {
    let a: &[usize] = &[4];
    let b: &[usize] = &[1, 2, 3, 4];
    assert_eq!(intersect(a, b), vec![4]);
    assert_eq!(intersect(b, a), vec![4]);
    let c: &[usize] = &[4, 5, 6];
    assert_eq!(intersect(b, c), vec![4]);
    assert_eq!(intersect(c, b), vec![4]);
    assert_eq!(intersect(b, b), vec![1, 2, 3, 4]);
    assert_eq!(intersect(NONE, b), Vec::<usize>::new());
    assert_eq!(intersect(b, NONE), Vec::<usize>::new());
    let largest: &[usize] = &[0, usize::MAX];
    assert_eq!(intersect(largest, largest), vec![0, usize::MAX]);
}

#[test]
fn posting_lists_are_told_from_other_lists() {
    assert!(is_posting_list(ODD));
    assert!(is_posting_list(NONE));
    assert!(is_posting_list(&[7]));
    assert!(!is_posting_list(&[1, 1]));
    assert!(!is_posting_list(&[1, 3, 2]));
    assert!(!is_posting_list(&[0, 1, 2, 3, 3]));
    assert!(is_query(&[ODD, MIXED, NONE]));
    assert!(is_query(&[]));
    assert!(!is_query(&[ODD, &[2, 1]]));
}
