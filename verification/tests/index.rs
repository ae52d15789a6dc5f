use tokenize_dir::{build_index, build_with};
use tokenize_dir::directory::{index_directory, DirListing, File, FileEntry, TokenFiles};
use tokenize_dir::index::{materialize_directory, DirectoryIndex, Index, PostingList};
use tokenize_dir::ranker::rank_files;
use tokenize_dir::tokenizer::{BuildError, Delimiters, Token};

fn entry(dir: &str, name: &str) -> FileEntry {
    FileEntry { path: Some(format!("{}/{}", dir, name)), name: Some(name.to_owned()) }
}

fn listing(name: &str, files: Vec<FileEntry>, sub_dirs: Vec<DirListing>) -> DirListing {
    DirListing { name: Some(name.to_owned()), files, sub_dirs }
}

fn underscore() -> Vec<String> {
    vec!["_".to_owned()]
}

fn posting<'a>(lists: &'a [PostingList], word: &str, occurrence: usize) -> &'a PostingList {
    lists
        .iter()
        .find(|list| list.word == word && list.occurrence == occurrence)
        .unwrap()
}

fn positions<'a>(entries: &'a [TokenFiles], word: &str, occurrence: usize) -> &'a Vec<usize> {
    &entries
        .iter()
        .find(|entry| entry.token.word == word && entry.token.occurrence == occurrence)
        .unwrap()
        .files
}

fn paths_of(index: &[String], files: &[usize]) -> Vec<String> {
    files.iter().map(|g| index[*g].clone()).collect()
}

fn token(word: &str, occurrence: usize) -> Token {
    Token { word: word.to_owned(), occurrence }
}

fn token_files(word: &str, occurrence: usize, files: &[usize]) -> TokenFiles {
    TokenFiles { token: token(word, occurrence), files: files.to_vec() }
}

fn nested_tree() -> DirListing {
    let x = listing("x", vec![entry("root/x", "a.txt"), entry("root/x", "c.txt")], vec![]);
    let z = listing("z", vec![entry("root/y/z", "a_c.md")], vec![]);
    let y = listing("y", vec![], vec![z]);
    listing("root", vec![entry("root", "a_b.txt")], vec![x, y])
}

fn increasing(list: &[usize]) -> bool {
    list.windows(2).all(|pair| pair[0] < pair[1])
}

fn every_list_increases(tree: &DirectoryIndex) -> bool {
    increasing(&tree.files)
        && tree.stem_words.iter().all(|list| increasing(&list.files))
        && tree.exts.iter().all(|list| increasing(&list.files))
        && tree.sub_dirs.iter().all(every_list_increases)
}

#[test]
fn repeated_stem_word_gets_two_postings() {
    let root = listing(
        "root",
        vec![entry("root", "a_a.txt"), entry("root", "a_b.txt"), entry("root", "b.txt")],
        vec![],
    );
    let index = build_index(&vec![root], &underscore()).unwrap();
    assert_eq!(index.file_paths, vec!["root/b.txt", "root/a_b.txt", "root/a_a.txt"]);
    let tree: &DirectoryIndex = &index.roots[0];
    assert_eq!(tree.name, "root");
    assert_eq!(tree.files, vec![0, 1, 2]);
    let first = posting(&tree.stem_words, "a", 0);
    assert_eq!(paths_of(&index.file_paths, &first.files), vec!["root/a_b.txt", "root/a_a.txt"]);
    assert!(first.numbered);
    let second = posting(&tree.stem_words, "a", 1);
    assert_eq!(paths_of(&index.file_paths, &second.files), vec!["root/a_a.txt"]);
    assert!(second.numbered);
    let b = posting(&tree.stem_words, "b", 0);
    assert_eq!(b.files, vec![0, 1]);
    assert!(!b.numbered);
    let txt = posting(&tree.exts, "txt", 0);
    assert_eq!(txt.files, vec![0, 1, 2]);
    assert!(!txt.numbered);
    assert_eq!(tree.stem_words.len(), 3);
    assert_eq!(tree.exts.len(), 1);
}

#[test]
fn parent_extension_posting_joins_its_children() {
    let x = listing("x", vec![entry("root/x", "one.png")], vec![]);
    let y = listing("y", vec![entry("root/y", "two.png")], vec![]);
    let root = listing("root", vec![], vec![x, y]);
    let index = build_index(&vec![root], &underscore()).unwrap();
    let tree = &index.roots[0];
    assert_eq!(posting(&tree.exts, "png", 0).files, vec![0, 1]);
    assert_eq!(tree.files, vec![0, 1]);
    assert_eq!(tree.sub_dirs.len(), 2);
    let in_x = &posting(&tree.sub_dirs[0].exts, "png", 0).files;
    let in_y = &posting(&tree.sub_dirs[1].exts, "png", 0).files;
    assert_eq!(in_x.len(), 1);
    assert_eq!(in_y.len(), 1);
    assert_ne!(in_x, in_y);
    assert_eq!(index.file_paths[in_x[0]], "root/x/one.png");
    assert_eq!(index.file_paths[in_y[0]], "root/y/two.png");
}

#[test]
fn directory_lists_its_subtree_with_its_own_files_first() {
    let directory = index_directory(&nested_tree(), &Delimiters::new(&underscore()).unwrap()).unwrap();
    let paths: Vec<&str> = directory.files.iter().map(|file| file.path.as_str()).collect();
    assert_eq!(paths, vec!["root/a_b.txt", "root/x/a.txt", "root/x/c.txt", "root/y/z/a_c.md"]);
    let siblings: Vec<usize> = directory.files.iter().map(|file| file.num_files_in_dir).collect();
    assert_eq!(siblings, vec![1, 2, 2, 1]);
    assert_eq!(directory.name, "root");
    assert_eq!(positions(&directory.stem_word_tokens, "a", 0), &vec![0, 1, 3]);
    assert_eq!(positions(&directory.stem_word_tokens, "b", 0), &vec![0]);
    assert_eq!(positions(&directory.stem_word_tokens, "c", 0), &vec![2, 3]);
    assert_eq!(positions(&directory.ext_tokens, "txt", 0), &vec![0, 1, 2]);
    assert_eq!(positions(&directory.ext_tokens, "md", 0), &vec![3]);
    let stem_order: Vec<&str> =
        directory.stem_word_tokens.iter().map(|entry| entry.token.word.as_str()).collect();
    assert_eq!(stem_order, vec!["a", "b", "c"]);
    let ext_order: Vec<&str> =
        directory.ext_tokens.iter().map(|entry| entry.token.word.as_str()).collect();
    assert_eq!(ext_order, vec!["txt", "md"]);
    let y = &directory.sub_dirs[1];
    assert_eq!(y.name, "y");
    assert_eq!(y.files.len(), 1);
    assert_eq!(positions(&y.stem_word_tokens, "c", 0), &vec![0]);
    assert_eq!(y.sub_dirs[0].name, "z");
    assert_eq!(y.sub_dirs[0].files[0].path, "root/y/z/a_c.md");
    let stem: Vec<(&str, usize)> = directory.files[3]
        .stem_word_tokens
        .iter()
        .map(|token| (token.word.as_str(), token.occurrence))
        .collect();
    assert_eq!(stem, vec![("a", 0), ("c", 0)]);
}

#[test]
fn posting_of_a_directory_is_the_union_over_its_tree() {
    let index = build_index(&vec![nested_tree()], &underscore()).unwrap();
    assert_eq!(index.file_paths, vec![
        "root/x/a.txt",
        "root/x/c.txt",
        "root/a_b.txt",
        "root/y/z/a_c.md",
    ]);
    assert_eq!(index.file_to_index, vec![2, 0, 1, 3]);
    assert_eq!(index.index_to_file, vec![1, 2, 0, 3]);
    let root = &index.roots[0];
    let x = &root.sub_dirs[0];
    let y = &root.sub_dirs[1];
    let z = &y.sub_dirs[0];
    assert_eq!(root.files, vec![0, 1, 2, 3]);
    assert_eq!(posting(&root.stem_words, "a", 0).files, vec![0, 2, 3]);
    assert_eq!(posting(&root.stem_words, "b", 0).files, vec![2]);
    assert_eq!(posting(&root.stem_words, "c", 0).files, vec![1, 3]);
    assert_eq!(posting(&root.exts, "txt", 0).files, vec![0, 1, 2]);
    assert_eq!(posting(&root.exts, "md", 0).files, vec![3]);
    assert_eq!(x.files, vec![0, 1]);
    assert_eq!(posting(&x.stem_words, "a", 0).files, vec![0]);
    assert_eq!(posting(&x.stem_words, "c", 0).files, vec![1]);
    assert_eq!(posting(&x.exts, "txt", 0).files, vec![0, 1]);
    assert_eq!(x.stem_words.len(), 2);
    assert_eq!(y.files, vec![3]);
    assert_eq!(posting(&y.stem_words, "a", 0).files, vec![3]);
    assert_eq!(posting(&y.stem_words, "c", 0).files, vec![3]);
    assert_eq!(posting(&y.exts, "md", 0).files, vec![3]);
    assert_eq!(z.files, vec![3]);
    assert_eq!(posting(&z.stem_words, "a", 0).files, vec![3]);
    let mut union: Vec<usize> = vec![2];
    union.extend(&posting(&x.stem_words, "a", 0).files);
    union.extend(&posting(&y.stem_words, "a", 0).files);
    union.sort();
    assert_eq!(posting(&root.stem_words, "a", 0).files, union);
    assert!(every_list_increases(root));
}

#[test]
fn global_indices_are_all_numbers_below_the_file_count() {
    let index = build_index(&vec![nested_tree(), nested_tree()], &underscore()).unwrap();
    assert_eq!(index.file_paths.len(), 8);
    let mut indices = index.file_to_index.clone();
    indices.sort();
    assert_eq!(indices, vec![0, 1, 2, 3, 4, 5, 6, 7]);
    for (file, global) in index.file_to_index.iter().enumerate() {
        assert_eq!(index.index_to_file[*global], file);
    }
    assert!(index.roots.iter().all(every_list_increases));
}

#[test]
fn each_root_is_indexed_by_itself() {
    let a = listing("a", vec![entry("a", "x.png")], vec![]);
    let b = listing("b", vec![entry("b", "x.png"), entry("b", "y.jpg")], vec![]);
    let index: Index = build_index(&vec![a, b], &underscore()).unwrap();
    assert_eq!(index.file_paths, vec!["b/x.png", "b/y.jpg", "a/x.png"]);
    assert_eq!(index.file_to_index, vec![2, 0, 1]);
    assert_eq!(index.roots.len(), 2);
    assert_eq!(index.roots[0].name, "a");
    assert_eq!(index.roots[0].files, vec![2]);
    assert_eq!(posting(&index.roots[0].stem_words, "x", 0).files, vec![2]);
    assert_eq!(posting(&index.roots[0].exts, "png", 0).files, vec![2]);
    assert_eq!(index.roots[1].name, "b");
    assert_eq!(index.roots[1].files, vec![0, 1]);
    assert_eq!(posting(&index.roots[1].stem_words, "x", 0).files, vec![0]);
    assert_eq!(posting(&index.roots[1].stem_words, "y", 0).files, vec![1]);
    assert_eq!(posting(&index.roots[1].exts, "png", 0).files, vec![0]);
    assert_eq!(posting(&index.roots[1].exts, "jpg", 0).files, vec![1]);
}

#[test]
fn surprisal_adds_the_rarity_of_each_token_and_of_the_directory() {
    let file = File {
        path: "root/a_a.txt".to_owned(),
        stem_word_tokens: vec![token("a", 0), token("a", 1)],
        ext_tokens: vec![token("txt", 0)],
        num_files_in_dir: 3,
    };
    let stems = vec![
        token_files("a", 0, &[0, 1]),
        token_files("a", 1, &[0]),
        token_files("b", 0, &[1, 2]),
    ];
    let exts = vec![token_files("txt", 0, &[0, 1, 2])];
    assert_eq!(file.negative_log_likelihood(&stems, &exts, 3), 3);
    assert_eq!(file.negative_log_likelihood(&stems, &exts, 10), 31);
    assert_eq!(file.negative_log_likelihood(&vec![], &vec![], 10), 37);
}

#[test]
fn surprisal_does_not_go_below_zero_nor_above_the_largest_number() {
    let file = File {
        path: "f".to_owned(),
        stem_word_tokens: vec![token("a", 0)],
        ext_tokens: vec![token("e", 0)],
        num_files_in_dir: 5,
    };
    let stems = vec![token_files("a", 0, &[0, 1, 2])];
    let exts = vec![token_files("e", 0, &[0])];
    assert_eq!(file.negative_log_likelihood(&stems, &exts, 2), 1);
    assert_eq!(file.negative_log_likelihood(&stems, &exts, 0), 0);
    assert_eq!(file.negative_log_likelihood(&vec![], &vec![], usize::MAX), usize::MAX);
}

fn strings(words: &[&str]) -> Vec<String> {
    words.iter().map(|word| (*word).to_owned()).collect()
}

#[test]
fn files_are_ranked_by_score_and_ties_by_path() {
    let (order, rank) = rank_files(&vec![5, 1, 5, 0], &strings(&["r/d", "r/c", "r/b", "r/a"]));
    assert_eq!(order, vec![3, 1, 2, 0]);
    assert_eq!(rank, vec![3, 1, 2, 0]);
    let (order, rank) = rank_files(&vec![], &vec![]);
    assert!(order.is_empty() && rank.is_empty());
    let (order, rank) = rank_files(&vec![7, 7, 7], &strings(&["b", "c", "a"]));
    assert_eq!(order, vec![2, 0, 1]);
    assert_eq!(rank, vec![1, 2, 0]);
}

#[test]
fn paths_are_compared_name_by_name() {
    let paths = strings(&["root/z.txt", "root/a.txt", "root/a/z.txt", "root/a-b/c", "root/a"]);
    let (order, _) = rank_files(&vec![1, 1, 1, 1, 1], &paths);
    let ranked: Vec<&str> = order.iter().map(|d| paths[*d].as_str()).collect();
    assert_eq!(ranked, vec!["root/a", "root/a/z.txt", "root/a-b/c", "root/a.txt", "root/z.txt"]);
}

#[test]
fn files_of_one_path_keep_their_order() {
    let (order, rank) = rank_files(&vec![2, 2, 1, 2], &strings(&["p", "p", "q", "p"]));
    assert_eq!(order, vec![2, 0, 1, 3]);
    assert_eq!(rank, vec![1, 2, 0, 3]);
}

#[test]
fn file_paths_do_not_depend_on_the_order_of_the_listing() {
    let a = || listing("a", vec![entry("root/a", "same"), entry("root/a", "z.txt")], vec![]);
    let b = || listing("b", vec![entry("root/b", "same")], vec![]);
    let own = || vec![entry("root", "z.txt"), entry("root", "b.txt")];
    let mut reversed = own();
    reversed.reverse();
    let first = build_index(&vec![listing("root", own(), vec![a(), b()])], &vec![]).unwrap();
    let second = build_index(&vec![listing("root", reversed, vec![b(), a()])], &vec![]).unwrap();
    assert_eq!(first.file_paths, second.file_paths);
    let same: Vec<&String> =
        first.file_paths.iter().filter(|path| path.ends_with("same")).collect();
    assert_eq!(same, vec!["root/a/same", "root/b/same"]);
    let z = |path: &str| first.file_paths.iter().position(|p| p == path).unwrap();
    assert!(z("root/a/z.txt") < z("root/z.txt"));
    let posting_of_same = |index: &Index| posting(&index.roots[0].stem_words, "same", 0).files.clone();
    assert_eq!(posting_of_same(&first), posting_of_same(&second));
}

#[test]
fn materialized_directory_starts_at_its_base() {
    let directory = index_directory(&nested_tree(), &Delimiters::new(&underscore()).unwrap()).unwrap();
    let rank = vec![9, 8, 3, 2, 1, 0, 7];
    let tree = materialize_directory(&directory, 2, &rank);
    assert_eq!(tree.files, vec![0, 1, 2, 3]);
    assert_eq!(posting(&tree.stem_words, "a", 0).files, vec![0, 2, 3]);
    assert_eq!(posting(&tree.stem_words, "c", 0).files, vec![0, 1]);
    assert_eq!(tree.sub_dirs[0].files, vec![1, 2]);
    assert_eq!(tree.sub_dirs[1].files, vec![0]);
    assert_eq!(tree.sub_dirs[1].sub_dirs[0].files, vec![0]);
}

#[test]
fn name_that_is_not_text_aborts_the_build() {
    let broken = FileEntry { path: Some("root/?".to_owned()), name: None };
    let root = listing("root", vec![entry("root", "a.txt"), broken], vec![]);
    assert_eq!(build_index(&vec![root], &underscore()).err(), Some(BuildError::NotText));
}

#[test]
fn path_that_is_not_text_aborts_the_build() {
    let broken = FileEntry { path: None, name: Some("a.txt".to_owned()) };
    let inner = listing("inner", vec![broken], vec![]);
    let root = listing("root", vec![entry("root", "a.txt")], vec![inner]);
    assert!(!root.check_text());
    let good = listing("good", vec![entry("good", "a.txt")], vec![]);
    assert!(good.check_text());
    assert_eq!(build_index(&vec![good, root], &underscore()).err(), Some(BuildError::NotText));
}

#[test]
fn directory_name_that_is_not_text_aborts_the_build() {
    let inner = DirListing { name: None, files: vec![], sub_dirs: vec![] };
    let root = listing("root", vec![], vec![inner]);
    assert_eq!(build_index(&vec![root], &vec![]).err(), Some(BuildError::NotText));
}

#[test]
fn refused_pattern_aborts_the_build() {
    let root = listing("root", vec![entry("root", "a.txt")], vec![]);
    let outcome = build_index(&vec![root], &vec!["ab".repeat(400_000)]);
    assert_eq!(outcome.err(), Some(BuildError::PatternRefused));
}

#[test]
fn forest_without_files_has_an_empty_index() {
    let root = listing("root", vec![], vec![listing("inner", vec![], vec![])]);
    let index = build_index(&vec![root], &underscore()).unwrap();
    assert!(index.file_paths.is_empty());
    assert_eq!(index.roots.len(), 1);
    assert_eq!(index.roots[0].sub_dirs[0].name, "inner");
    assert!(index.roots[0].files.is_empty());
    let none = build_index(&vec![], &underscore()).unwrap();
    assert!(none.roots.is_empty() && none.file_paths.is_empty());
}

#[test]
fn text_is_asked_for_before_the_pattern() {
    let broken = FileEntry { path: None, name: None };
    let root = listing("root", vec![broken], vec![]);
    let outcome = build_index(&vec![root], &vec!["ab".repeat(400_000)]);
    assert_eq!(outcome.err(), Some(BuildError::NotText));
    let empty = listing("root", vec![], vec![]);
    let outcome = build_index(&vec![empty], &vec!["ab".repeat(400_000)]);
    assert_eq!(outcome.err(), Some(BuildError::PatternRefused));
}

#[test]
fn directory_is_indexed_exactly_where_its_listing_is_text() {
    let delimiters = Delimiters::new(&underscore()).unwrap();
    assert!(index_directory(&nested_tree(), &delimiters).is_ok());
    let deep = listing(
        "root",
        vec![entry("root", "a.txt")],
        vec![listing("x", vec![], vec![DirListing { name: None, files: vec![], sub_dirs: vec![] }])],
    );
    assert_eq!(index_directory(&deep, &delimiters).err(), Some(BuildError::NotText));
    let nameless = FileEntry { path: Some("root/?".to_owned()), name: None };
    let flat = listing("root", vec![entry("root", "a.txt"), nameless], vec![]);
    assert_eq!(index_directory(&flat, &delimiters).err(), Some(BuildError::NotText));
}

#[test]
fn build_with_compiled_delimiters_is_the_build() {
    let delimiters = Delimiters::new(&underscore()).unwrap();
    let built = build_with(&vec![nested_tree()], &delimiters).unwrap();
    let whole = build_index(&vec![nested_tree()], &underscore()).unwrap();
    assert_eq!(built.file_paths, whole.file_paths);
    assert_eq!(built.file_to_index, whole.file_to_index);
    assert_eq!(built.roots[0].files, whole.roots[0].files);
    let broken = DirListing { name: None, files: vec![], sub_dirs: vec![] };
    assert_eq!(build_with(&vec![nested_tree(), broken], &delimiters).err(), Some(BuildError::NotText));
}

#[test]
fn no_file_carries_a_token_twice() {
    let directory =
        index_directory(&nested_tree(), &Delimiters::new(&underscore()).unwrap()).unwrap();
    for file in &directory.files {
        for (i, token) in file.stem_word_tokens.iter().enumerate() {
            assert!(file.stem_word_tokens[..i].iter().all(|earlier| !earlier.same_as(token)));
        }
        for (i, token) in file.ext_tokens.iter().enumerate() {
            assert!(file.ext_tokens[..i].iter().all(|earlier| !earlier.same_as(token)));
        }
    }
}

#[test]
fn file_copy_is_the_same_file() {
    let file = File {
        path: "p".to_owned(),
        stem_word_tokens: vec![token("a", 0), token("a", 1)],
        ext_tokens: vec![token("e", 0)],
        num_files_in_dir: 4,
    };
    let copy = file.duplicate();
    assert_eq!(copy.path, "p");
    assert_eq!(copy.num_files_in_dir, 4);
    assert_eq!(copy.stem_word_tokens.len(), 2);
    assert!(copy.stem_word_tokens[1].same_as(&token("a", 1)));
    assert!(copy.ext_tokens[0].same_as(&token("e", 0)));
}

#[test]
fn postings_stand_in_the_order_in_which_their_tokens_appear() {
    let inner = listing("inner", vec![entry("root/inner", "z_b_y.txt")], vec![]);
    let root = listing(
        "root",
        vec![entry("root", "b_a.png"), entry("root", "c_b.txt")],
        vec![inner],
    );
    let index = build_index(&vec![root], &underscore()).unwrap();
    let tree = &index.roots[0];
    let names: Vec<String> = tree.stem_words.iter().map(|list| list.name()).collect();
    assert_eq!(names, vec!["_b", "_a", "_c", "_z", "_y"]);
    let names: Vec<String> = tree.exts.iter().map(|list| list.name()).collect();
    assert_eq!(names, vec!["_png", "_txt"]);
    let names: Vec<String> = tree.sub_dirs[0].stem_words.iter().map(|list| list.name()).collect();
    assert_eq!(names, vec!["_z", "_b", "_y"]);
}
