use tokenize_dir::sorting::sort_pairs;

#[test]
fn pairs_are_sorted_by_first_and_then_by_second_component() {
    let pairs = [(5, 0), (1, 1), (5, 2), (0, 3), (1, 0)];
    assert_eq!(sort_pairs(&pairs), vec![(0, 3), (1, 0), (1, 1), (5, 0), (5, 2)]);
}

#[test]
fn short_runs_are_sorted_too() {
    assert_eq!(sort_pairs(&[]), vec![]);
    assert_eq!(sort_pairs(&[(3, 4)]), vec![(3, 4)]);
    assert_eq!(sort_pairs(&[(2, 0), (1, 9)]), vec![(1, 9), (2, 0)]);
}

#[test]
fn long_run_is_sorted_like_by_the_standard_sort() {
    let mut pairs: Vec<(usize, usize)> = Vec::new();
    let mut state: usize = 12345;
    for position in 0..2000 {
        state = (state * 1103515245 + 12345) % 2147483648;
        pairs.push((state % 97, position));
    }
    let mut expected = pairs.clone();
    expected.sort();
    assert_eq!(sort_pairs(&pairs), expected);
}
