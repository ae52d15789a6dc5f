use tokenize_dir::{solve_constraints_strict, ToConstraints, ToIter};

const A: &[usize] = &[1, 3, 5, 7];
const B: &[usize] = &[3, 5, 9];
const C: &[usize] = &[5, 7, 9];

#[test]
fn one_list_is_one_constraint() {
    assert_eq!(A.to_constraints(), vec![A]);
}

#[test]
fn tuple_lists_its_members_in_order() {
    assert_eq!((A, B, C).to_constraints(), vec![A, B, C]);
    assert_eq!(().to_constraints(), Vec::<&[usize]>::new());
    assert_eq!((A,).to_constraints(), vec![A]);
}

#[test]
fn nested_collections_are_flattened() {
    let pair = [A, B];
    assert_eq!(pair.to_constraints(), vec![A, B]);
    assert_eq!((&pair).to_constraints(), vec![A, B]);
    assert_eq!((&pair[..]).to_constraints(), vec![A, B]);
    assert_eq!((pair, C).to_constraints(), vec![A, B, C]);
    assert_eq!(([A, B], (C, A)).to_constraints(), vec![A, B, C, A]);
}

#[test]
fn twelve_members_are_all_listed() {
    let all = (A, B, C, A, B, C, A, B, C, A, B, C).to_constraints();
    assert_eq!(all, vec![A, B, C, A, B, C, A, B, C, A, B, C]);
}

#[test]
fn tuple_feeds_the_solver() {
    let lists = (A, [B, C]).to_constraints();
    assert_eq!(solve_constraints_strict(&lists), Some(vec![5]));
}

#[test]
fn slices_of_lists_are_iterated_in_order() {
    let lists: &[&[usize]] = &[A, B];
    assert_eq!(lists.to_iter(), vec![A, B]);
    assert_eq!([A, B, C].to_iter(), vec![A, B, C]);
    assert_eq!((&[A, B, C]).to_iter(), vec![A, B, C]);
}

#[test]
fn collections_of_collections_are_iterated_in_order() {
    let inner: [&[&[usize]]; 2] = [&[A, B], &[C]];
    assert_eq!(inner.to_iter(), vec![A, B, C]);
    assert_eq!((&inner).to_iter(), vec![A, B, C]);
    assert_eq!((&inner[..]).to_iter(), vec![A, B, C]);
}
