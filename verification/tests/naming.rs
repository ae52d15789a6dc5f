use tokenize_dir::index::PostingList;
use tokenize_dir::naming::{identifier, sanitize_char};

#[test]
fn identifier_replaces_what_is_no_letter_or_digit() {
    assert_eq!(identifier("a-b.c"), "_a_b_c");
    assert_eq!(identifier("été9"), "_été9");
    assert_eq!(identifier(""), "_");
}

#[test]
fn sanitize_char_keeps_letters_and_digits() {
    assert_eq!(sanitize_char('x', true), 'x');
    assert_eq!(sanitize_char('-', false), '_');
}

#[test]
fn unnumbered_posting_has_no_suffix() {
    let list = PostingList { word: "icon".to_owned(), occurrence: 0, numbered: false, files: vec![] };
    assert_eq!(list.name(), "_icon");
}

#[test]
fn numbered_posting_has_its_number_as_suffix() {
    let first = PostingList { word: "a".to_owned(), occurrence: 0, numbered: true, files: vec![] };
    assert_eq!(first.name(), "_a_0");
    let later = PostingList { word: "a b".to_owned(), occurrence: 120, numbered: true, files: vec![] };
    assert_eq!(later.name(), "_a_b_120");
}

#[test]
fn directory_is_named_like_a_word() {
    let directory = tokenize_dir::index::DirectoryIndex {
        name: "my dir.v2".to_owned(),
        files: vec![],
        stem_words: vec![],
        exts: vec![],
        sub_dirs: vec![],
    };
    assert_eq!(directory.module_name(), "_my_dir_v2");
}

#[test]
fn number_is_written_in_decimal() {
    for (occurrence, expected) in [(0, "_w_0"), (9, "_w_9"), (10, "_w_10"), (4096, "_w_4096")] {
        let list = PostingList { word: "w".to_owned(), occurrence, numbered: true, files: vec![] };
        assert_eq!(list.name(), expected);
    }
    let list = PostingList { word: "w".to_owned(), occurrence: usize::MAX, numbered: true, files: vec![] };
    assert_eq!(list.name(), format!("_w_{}", usize::MAX));
}
