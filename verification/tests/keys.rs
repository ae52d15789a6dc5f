use tokenize_dir::keys::{is_smaller, key_of, sort_by_key};

#[test]
fn key_holds_the_score_and_the_bytes_of_the_path() {
    assert_eq!(key_of(7, "a/b"), vec![7, 98, 0, 99]);
    assert_eq!(key_of(0, ""), vec![0]);
    assert_eq!(key_of(3, "é"), vec![3, 0xc3 + 1, 0xa9 + 1]);
    assert_eq!(key_of(usize::MAX, "/"), vec![usize::MAX, 0]);
}

#[test]
fn keys_are_compared_number_by_number() {
    assert!(is_smaller(&vec![1, 9, 9], &vec![2]));
    assert!(is_smaller(&vec![1], &vec![1, 0]));
    assert!(is_smaller(&vec![1, 0, 5], &vec![1, 1]));
    assert!(is_smaller(&vec![], &vec![0]));
    assert!(!is_smaller(&vec![1, 2], &vec![1, 2]));
    assert!(!is_smaller(&vec![2], &vec![1, 9]));
    assert!(!is_smaller(&vec![1, 0], &vec![1]));
    assert!(!is_smaller(&vec![], &vec![]));
}

#[test]
fn score_counts_before_the_path() {
    assert!(is_smaller(&key_of(1, "z"), &key_of(2, "a")));
    assert!(is_smaller(&key_of(1, "a"), &key_of(1, "b")));
    assert!(is_smaller(&key_of(1, "a/z"), &key_of(1, "a.z")));
}

#[test]
fn positions_are_sorted_by_their_keys() {
    let keys = vec![vec![2, 1], vec![1, 5], vec![2], vec![1, 5], vec![0, 9, 9]];
    assert_eq!(sort_by_key(&keys, &[0, 1, 2, 3, 4]), vec![4, 1, 3, 2, 0]);
    assert_eq!(sort_by_key(&keys, &[3, 0, 1]), vec![1, 3, 0]);
    assert_eq!(sort_by_key(&keys, &[]), Vec::<usize>::new());
    assert_eq!(sort_by_key(&keys, &[2]), vec![2]);
}
