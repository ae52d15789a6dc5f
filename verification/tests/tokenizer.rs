use tokenize_dir::tokenizer::{
    directory_tokens, number_occurrences, split_at_dots, tokenize_name, word_tokens, BuildError,
    Delimiters, Token,
};

fn strings(words: &[&str]) -> Vec<String> {
    words.iter().map(|word| (*word).to_owned()).collect()
}

fn pairs(tokens: &[Token]) -> Vec<(String, usize)> {
    tokens.iter().map(|token| (token.word.clone(), token.occurrence)).collect()
}

fn expected(tokens: &[(&str, usize)]) -> Vec<(String, usize)> {
    tokens.iter().map(|(word, occurrence)| ((*word).to_owned(), *occurrence)).collect()
}

fn stem_of(name: &str, delimiters: &[&str]) -> Vec<(String, usize)> {
    let delimiters = Delimiters::new(&strings(delimiters)).unwrap();
    pairs(&tokenize_name(name, &delimiters).stem_words)
}

fn extensions_of(name: &str) -> Vec<(String, usize)> {
    let delimiters = Delimiters::new(&strings(&["_"])).unwrap();
    pairs(&tokenize_name(name, &delimiters).extensions)
}

#[test]
fn name_is_cut_at_every_dot() {
    assert_eq!(split_at_dots("a.tar.gz"), strings(&["a", "tar", "gz"]));
    assert_eq!(split_at_dots("plain"), strings(&["plain"]));
    assert_eq!(split_at_dots("a."), strings(&["a", ""]));
    assert_eq!(split_at_dots(".hidden"), strings(&["", "hidden"]));
    assert_eq!(split_at_dots("a..b"), strings(&["a", "", "b"]));
    assert_eq!(split_at_dots(""), strings(&[""]));
    assert_eq!(split_at_dots("."), strings(&["", ""]));
}

#[test]
fn repeated_word_is_numbered() {
    assert_eq!(stem_of("a_a.txt", &["_"]), expected(&[("a", 0), ("a", 1)]));
    assert_eq!(stem_of("a_b_a_a_b.txt", &["_"]), expected(&[
        ("a", 0),
        ("b", 0),
        ("a", 1),
        ("a", 2),
        ("b", 1),
    ]));
    assert_eq!(extensions_of("a_a.txt"), expected(&[("txt", 0)]));
}

#[test]
fn tokenizing_twice_gives_the_same_tokens() {
    let delimiters = Delimiters::new(&strings(&["_", "-"])).unwrap();
    let first = tokenize_name("hero_idle-hero.sprite.png", &delimiters);
    let second = tokenize_name("hero_idle-hero.sprite.png", &delimiters);
    assert_eq!(pairs(&first.stem_words), pairs(&second.stem_words));
    assert_eq!(pairs(&first.extensions), pairs(&second.extensions));
    assert_eq!(pairs(&first.stem_words), expected(&[("hero", 0), ("idle", 0), ("hero", 1)]));
}

#[test]
fn adjacent_delimiters_leave_no_empty_word() {
    assert_eq!(stem_of("a__b", &["_"]), expected(&[("a", 0), ("b", 0)]));
    assert_eq!(stem_of("_a_", &["_"]), expected(&[("a", 0)]));
    assert_eq!(stem_of("___", &["_"]), expected(&[]));
}

#[test]
fn every_delimiter_cuts() {
    assert_eq!(stem_of("a_b-c d", &["_", "-", " "]), expected(&[
        ("a", 0),
        ("b", 0),
        ("c", 0),
        ("d", 0),
    ]));
    assert_eq!(stem_of("a--b-c", &["--"]), expected(&[("a", 0), ("b-c", 0)]));
}

#[test]
fn delimiter_is_taken_literally() {
    assert_eq!(stem_of("a+b+a", &["+"]), expected(&[("a", 0), ("b", 0), ("a", 1)]));
    assert_eq!(stem_of("a|b", &["|"]), expected(&[("a", 0), ("b", 0)]));
    assert_eq!(stem_of("axb", &["."]), expected(&[("axb", 0)]));
    assert_eq!(stem_of("a(b)c", &["(", ")"]), expected(&[("a", 0), ("b", 0), ("c", 0)]));
    assert_eq!(stem_of("a\\b", &["\\"]), expected(&[("a", 0), ("b", 0)]));
}

#[test]
fn stem_without_delimiters_is_one_word() {
    assert_eq!(stem_of("abca.txt", &[]), expected(&[("abca", 0)]));
    assert_eq!(stem_of(".txt", &[]), expected(&[]));
}

#[test]
fn empty_delimiter_cuts_between_all_characters() {
    assert_eq!(stem_of("abca", &[""]), expected(&[("a", 0), ("b", 0), ("c", 0), ("a", 1)]));
}

#[test]
fn words_may_hold_any_letters() {
    assert_eq!(stem_of("été_ça_été.txt", &["_"]), expected(&[("été", 0), ("ça", 0), ("été", 1)]));
}

#[test]
fn each_extension_segment_is_a_token() {
    assert_eq!(extensions_of("a.tar.gz"), expected(&[("tar", 0), ("gz", 0)]));
    assert_eq!(extensions_of("a.gz.gz"), expected(&[("gz", 0), ("gz", 1)]));
    assert_eq!(extensions_of("a_b.tar_x.gz"), expected(&[("tar_x", 0), ("gz", 0)]));
}

#[test]
fn name_without_dot_has_no_extension() {
    assert_eq!(extensions_of("README"), expected(&[]));
    assert_eq!(stem_of("README", &["_"]), expected(&[("README", 0)]));
}

#[test]
fn empty_stem_has_no_word() {
    assert_eq!(stem_of(".gitignore", &["_"]), expected(&[]));
    assert_eq!(extensions_of(".gitignore"), expected(&[("gitignore", 0)]));
}

#[test]
fn dot_at_the_end_gives_an_empty_extension_word() {
    assert_eq!(extensions_of("a."), expected(&[("", 0)]));
    assert_eq!(extensions_of("a..b"), expected(&[("", 0), ("b", 0)]));
}

#[test]
fn parts_become_numbered_words() {
    let parts = strings(&["", "a", "", "b", "a", ""]);
    assert_eq!(pairs(&word_tokens(&parts)), expected(&[("a", 0), ("b", 0), ("a", 1)]));
    assert_eq!(pairs(&word_tokens(&strings(&[]))), expected(&[]));
    assert_eq!(pairs(&word_tokens(&strings(&["", ""]))), expected(&[]));
}

#[test]
fn numbers_of_a_word_have_no_gap() {
    let words = strings(&["x", "y", "x", "x", "z", "y", "x"]);
    let tokens = pairs(&number_occurrences(&words));
    assert_eq!(tokens, expected(&[
        ("x", 0),
        ("y", 0),
        ("x", 1),
        ("x", 2),
        ("z", 0),
        ("y", 1),
        ("x", 3),
    ]));
    for (word, occurrence) in &tokens {
        for lower in 0..*occurrence {
            assert!(tokens.contains(&(word.clone(), lower)));
        }
    }
}

#[test]
fn directory_chain_is_numbered_like_words() {
    let chain = strings(&["assets", "icons", "assets"]);
    assert_eq!(pairs(&directory_tokens(&chain)), expected(&[
        ("assets", 0),
        ("icons", 0),
        ("assets", 1),
    ]));
}

#[test]
fn pattern_that_is_too_large_is_refused() {
    let outcome = Delimiters::new(&vec!["ab".repeat(400_000)]);
    assert_eq!(outcome.err(), Some(BuildError::PatternRefused));
}

#[test]
fn delimiters_that_compile_are_accepted() {
    assert!(Delimiters::new(&strings(&[])).is_ok());
    assert!(Delimiters::new(&strings(&["_", "(", "\\", ""])).is_ok());
}

#[test]
fn token_copy_is_the_same_token() {
    let token = Token { word: "a".to_owned(), occurrence: 2 };
    let copy = token.duplicate();
    assert!(token.same_as(&copy));
    assert_eq!((copy.word.as_str(), copy.occurrence), ("a", 2));
    assert!(!token.same_as(&Token { word: "a".to_owned(), occurrence: 1 }));
    assert!(!token.same_as(&Token { word: "b".to_owned(), occurrence: 2 }));
}
