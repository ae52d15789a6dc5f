//! The index materializer: every file gets a global index by its rank, and
//! every posting becomes the increasing list of the global indices of its
//! files.

use crate::directory::{
    ext_lists, file_views, index_directory, is_inverted_index, lemma_inverted_index_bounds,
    lemma_positions_with, lemma_positions_with_concat, lemma_posting_of_entry, positions_with,
    posting_of, shifted, stem_lists, subtree_files, DirListing, Directory, FileView,
    TokenFiles,
};
use crate::posting::strictly_increasing;
use crate::keys::{lex_before, path_key};
use crate::ranker::{
    capped, is_ranking, lemma_global_indices_are_a_bijection, lemma_ranking_ascends,
    mutually_inverse, rank_files, surprisal,
};
use crate::sorting::{precedes, sort_pairs};
use crate::tokenizer::{texts, BuildError, Delimiters, TokenView};
use vstd::prelude::*;

verus! {

/// The posting list of one token in one directory.
#[derive(Debug)]
pub struct PostingList {
    pub word: String,
    pub occurrence: usize,
    /// Whether the word has a token with a number above zero in the same
    /// directory, so that its tokens are told apart by their numbers.
    pub numbered: bool,
    /// The global indices of the files that carry the token, increasing.
    pub files: Vec<usize>,
}

/// One directory of the materialized index.
#[derive(Debug)]
pub struct DirectoryIndex {
    pub name: String,
    /// The global indices of the files of the subtree, increasing.
    pub files: Vec<usize>,
    pub stem_words: Vec<PostingList>,
    pub exts: Vec<PostingList>,
    pub sub_dirs: Vec<DirectoryIndex>,
}

/// The index of a forest: one tree for each root that was given.
#[derive(Debug)]
pub struct Index {
    /// The directory trees, with their files in order of discovery.
    pub directories: Vec<Directory>,
    /// For each global index, the discovery position of its file.
    pub index_to_file: Vec<usize>,
    /// For each discovery position, the global index of its file.
    pub file_to_index: Vec<usize>,
    /// For each global index, the path of its file.
    pub file_paths: Vec<String>,
    /// The materialized trees.
    pub roots: Vec<DirectoryIndex>,
}

/// The global indices of the files at the given positions of a directory
/// whose files start at discovery position `base`.
pub open spec fn ranked(positions: Seq<usize>, base: int, rank: Seq<usize>) -> Seq<usize> {
    positions.map_values(|p: usize| rank[base + p])
}

/// `list` is `of` in increasing order.
pub open spec fn is_sorted_form(list: Seq<usize>, of: Seq<usize>) -> bool {
    &&& strictly_increasing(list)
    &&& forall|g: usize| list.contains(g) <==> of.contains(g)
}

/// The positions `0..n`.
pub open spec fn all_positions(n: nat) -> Seq<usize> {
    Seq::new(n, |p: int| p as usize)
}

/// Some entry is for a token of this word with a number above zero.
pub open spec fn word_repeats(entries: Seq<TokenFiles>, word: Seq<char>) -> bool {
    exists|a: int|
        0 <= a < entries.len() && (#[trigger] entries[a]).token.word@ == word
            && entries[a].token.occurrence > 0
}

/// The posting list is the materialized form of the entry.
pub open spec fn posting_matches(
    list: PostingList,
    entry: TokenFiles,
    entries: Seq<TokenFiles>,
    base: int,
    rank: Seq<usize>,
) -> bool {
    &&& list.word@ == entry.token.word@
    &&& list.occurrence == entry.token.occurrence
    &&& list.numbered == word_repeats(entries, entry.token.word@)
    &&& is_sorted_form(list.files@, ranked(entry.files@, base, rank))
}

/// The posting lists are the materialized forms of the entries, in order.
pub open spec fn postings_match(
    lists: Seq<PostingList>,
    entries: Seq<TokenFiles>,
    base: int,
    rank: Seq<usize>,
) -> bool {
    &&& lists.len() == entries.len()
    &&& forall|m: int|
        0 <= m < lists.len() ==> posting_matches(#[trigger] lists[m], entries[m], entries, base, rank)
}

/// Every list is strictly increasing.
pub open spec fn lists_increasing(lists: Seq<PostingList>) -> bool {
    forall|m: int| 0 <= m < lists.len() ==> strictly_increasing((#[trigger] lists[m]).files@)
}

/// The score of each file of a directory tree among `num_files` files.
pub open spec fn tree_scores(directory: Directory, num_files: nat) -> Seq<usize> {
    Seq::new(
        directory.files@.len(),
        |i: int|
            capped(
                surprisal(
                    directory.files@[i]@,
                    directory.stem_word_tokens@,
                    directory.ext_tokens@,
                    num_files,
                ),
            ),
    )
}

/// The scores of the files of the trees, one tree after the other.
pub open spec fn forest_scores_of(directories: Seq<Directory>, num_files: nat) -> Seq<usize>
    decreases directories.len(),
{
    if directories.len() == 0 {
        Seq::empty()
    } else {
        forest_scores_of(directories.drop_last(), num_files) + tree_scores(
            directories.last(),
            num_files,
        )
    }
}

/// The score of each file of a forest, by discovery position.
pub open spec fn forest_scores(directories: Seq<Directory>) -> Seq<usize> {
    forest_scores_of(directories, subtree_files(directories).len())
}

/// Every name and every path in the listings is text.
pub open spec fn all_text(listings: Seq<DirListing>) -> bool {
    forall|r: int| 0 <= r < listings.len() ==> (#[trigger] listings[r]).is_text()
}

/// No two discovery positions have the same global index.
pub open spec fn injective(rank: Seq<usize>) -> bool {
    forall|a: int, b: int| 0 <= a < b < rank.len() ==> rank[a] != rank[b]
}

impl DirectoryIndex {
    /// This is the materialized form of `directory`, whose files start at
    /// discovery position `base`: the same names and tokens, and in place
    /// of positions the global indices that `rank` gives, in increasing
    /// order.
    pub open spec fn describes(&self, directory: &Directory, base: int, rank: Seq<usize>) -> bool
        decreases self,
    {
        &&& self.name@ == directory.name@
        &&& is_sorted_form(
            self.files@,
            ranked(all_positions(directory.files@.len()), base, rank),
        )
        &&& postings_match(self.stem_words@, directory.stem_word_tokens@, base, rank)
        &&& postings_match(self.exts@, directory.ext_tokens@, base, rank)
        &&& self.sub_dirs@.len() == directory.sub_dirs@.len()
        &&& forall|k: int|
            0 <= k < self.sub_dirs@.len() ==> (#[trigger] self.sub_dirs@[k]).describes(
                &directory.sub_dirs@[k],
                base + directory.own_count() + subtree_files(directory.sub_dirs@.take(k)).len(),
                rank,
            )
    }

    /// Every list of global indices in this tree is strictly increasing.
    pub open spec fn postings_increasing(&self) -> bool
        decreases self,
    {
        &&& strictly_increasing(self.files@)
        &&& lists_increasing(self.stem_words@)
        &&& lists_increasing(self.exts@)
        &&& forall|k: int|
            0 <= k < self.sub_dirs@.len() ==> (#[trigger] self.sub_dirs@[k]).postings_increasing()
    }
}

impl Index {
    /// The number of files of the forest.
    pub open spec fn num_files(&self) -> nat {
        subtree_files(self.directories@).len()
    }

    /// The index is well formed: its trees are well formed, its files are
    /// ranked by their scores and, where scores are equal, by their paths,
    /// the paths stand at the global indices of their files, and each
    /// materialized tree is the form of its directory tree under that
    /// ranking.
    pub open spec fn wf(&self) -> bool {
        &&& forall|r: int|
            0 <= r < self.directories@.len() ==> (#[trigger] self.directories@[r]).wf()
        &&& is_ranking(
            self.index_to_file@,
            self.file_to_index@,
            forest_scores(self.directories@),
            paths_of(subtree_files(self.directories@)),
        )
        &&& self.file_paths@.len() == self.num_files()
        &&& forall|g: int|
            0 <= g < self.file_paths@.len() ==> (#[trigger] self.file_paths@[g])@ == subtree_files(
                self.directories@,
            )[self.index_to_file@[g] as int].path
        &&& self.roots@.len() == self.directories@.len()
        &&& forall|r: int|
            0 <= r < self.roots@.len() ==> (#[trigger] self.roots@[r]).describes(
                &self.directories@[r],
                subtree_files(self.directories@.take(r)).len() as int,
                self.file_to_index@,
            )
    }

    /// The index is built from the listings under the delimiters.
    pub open spec fn describes(&self, listings: Seq<DirListing>, delimiters: Seq<Seq<char>>) -> bool {
        &&& self.directories@.len() == listings.len()
        &&& forall|r: int|
            0 <= r < listings.len() ==> (#[trigger] self.directories@[r]).describes(
                &listings[r],
                delimiters,
            )
    }

    /// Every list of global indices in the index is strictly increasing.
    pub open spec fn postings_increasing(&self) -> bool {
        forall|r: int| 0 <= r < self.roots@.len() ==> (#[trigger] self.roots@[r]).postings_increasing()
    }
}

/// The scores of a forest are as many as its files.
pub proof fn lemma_forest_scores_len(directories: Seq<Directory>, num_files: nat)
    ensures
        forest_scores_of(directories, num_files).len() == subtree_files(directories).len(),
    decreases directories.len(),
{
    if directories.len() > 0 {
        lemma_forest_scores_len(directories.drop_last(), num_files);
    }
}

/// The files of the first directories of a forest are the first files of
/// the forest.
pub proof fn lemma_subtree_files_prefix(directories: Seq<Directory>, k: int)
    requires
        0 <= k <= directories.len(),
    ensures
        subtree_files(directories.take(k)).len() <= subtree_files(directories).len(),
        subtree_files(directories.take(k)) == subtree_files(directories).take(
            subtree_files(directories.take(k)).len() as int,
        ),
        k < directories.len() ==> subtree_files(directories.take(k)).len()
            + directories[k].files@.len() <= subtree_files(directories).len(),
        k < directories.len() ==> subtree_files(directories).subrange(
            subtree_files(directories.take(k)).len() as int,
            (subtree_files(directories.take(k)).len() + directories[k].files@.len()) as int,
        ) == file_views(directories[k].files@),
    decreases directories.len() - k,
{
    if k == directories.len() {
        assert(directories.take(k) =~= directories);
    } else {
        lemma_subtree_files_prefix(directories, k + 1);
        assert(directories.take(k + 1).drop_last() =~= directories.take(k));
        let shorter = subtree_files(directories.take(k));
        let longer = subtree_files(directories.take(k + 1));
        let all = subtree_files(directories);
        let arrived = file_views(directories[k].files@);
        assert(all.subrange(shorter.len() as int, (shorter.len() + arrived.len()) as int)
            =~= arrived) by {
            assert forall|i: int| 0 <= i < arrived.len() implies all[shorter.len() + i]
                == arrived[i] by {
                assert(longer[shorter.len() + i] == arrived[i]);
            }
        }
    }
}

/// A list that is the increasing form of another is strictly increasing;
/// so every list of a materialized tree is.
pub proof fn lemma_described_postings_increasing(
    index: DirectoryIndex,
    directory: Directory,
    base: int,
    rank: Seq<usize>,
)
    requires
        index.describes(&directory, base, rank),
    ensures
        index.postings_increasing(),
    decreases index,
{
    assert forall|k: int| 0 <= k < index.sub_dirs@.len() implies (
    #[trigger] index.sub_dirs@[k]).postings_increasing() by {
        lemma_described_postings_increasing(
            index.sub_dirs@[k],
            directory.sub_dirs@[k],
            base + directory.own_count() + subtree_files(directory.sub_dirs@.take(k)).len(),
            rank,
        );
    }
}

/// The global indices of the files at the given positions, in increasing
/// order.
fn global_identifiers(positions: &Vec<usize>, base: usize, rank: &Vec<usize>) -> (identifiers: Vec<
    usize,
>)
    requires
        forall|j: int| 0 <= j < positions@.len() ==> base + (#[trigger] positions@[j]) < rank@.len(),
        positions@.no_duplicates(),
        injective(rank@),
    ensures
        is_sorted_form(identifiers@, ranked(positions@, base as int, rank@)),
{
    let ghost wanted = ranked(positions@, base as int, rank@);
    let limit: usize = rank.len();
    let mut unsorted: Vec<(usize, usize)> = Vec::new();
    let mut j: usize = 0;
    while j < positions.len()
        invariant
            j <= positions@.len(),
            limit == rank@.len(),
            wanted == ranked(positions@, base as int, rank@),
            forall|m: int|
                0 <= m < positions@.len() ==> base + (#[trigger] positions@[m]) < rank@.len(),
            unsorted@.len() == j,
            forall|m: int| 0 <= m < j ==> (#[trigger] unsorted@[m]) == (wanted[m], positions@[m]),
        decreases positions@.len() - j,
    {
        unsorted.push((rank[base + positions[j]], positions[j]));
        j += 1;
    }
    let sorted = sort_pairs(unsorted.as_slice());
    proof {
        assert forall|m: int| 0 <= m < sorted@.len() implies (#[trigger] sorted@[m]).0 == rank@[base
            + sorted@[m].1] && base + sorted@[m].1 < rank@.len() by {
            assert(sorted@.contains(sorted@[m]));
        }
    }
    let mut identifiers: Vec<usize> = Vec::new();
    let mut m: usize = 0;
    while m < sorted.len()
        invariant
            m <= sorted@.len(),
            identifiers@.len() == m,
            forall|k: int| 0 <= k < m ==> (#[trigger] identifiers@[k]) == sorted@[k].0,
        decreases sorted@.len() - m,
    {
        identifiers.push(sorted[m].0);
        m += 1;
    }
    proof {
        assert forall|a: int, b: int| 0 <= a < b < identifiers@.len() implies identifiers@[a]
            < identifiers@[b] by {
            assert(precedes(sorted@[a], sorted@[b]));
        }
        assert forall|g: usize| identifiers@.contains(g) <==> wanted.contains(g) by {
            if identifiers@.contains(g) {
                let k = choose|k: int| 0 <= k < identifiers@.len() && identifiers@[k] == g;
                assert(sorted@.contains(sorted@[k]));
            }
            if wanted.contains(g) {
                let a = choose|a: int| 0 <= a < wanted.len() && wanted[a] == g;
                assert(unsorted@.contains(unsorted@[a]));
                let k = choose|k: int| 0 <= k < sorted@.len() && sorted@[k] == unsorted@[a];
                assert(identifiers@[k] == g);
            }
        }
    }
    identifiers
}

/// The words that have a token with a number above zero among the entries.
fn repeated_words(entries: &Vec<TokenFiles>) -> (words: Vec<String>)
    ensures
        forall|word: Seq<char>| texts(words@).contains(word) <==> word_repeats(entries@, word),
{
    let mut words: Vec<String> = Vec::new();
    let mut a: usize = 0;
    while a < entries.len()
        invariant
            a <= entries@.len(),
            forall|word: Seq<char>|
                texts(words@).contains(word) <==> word_repeats(entries@.take(a as int), word),
        decreases entries@.len() - a,
    {
        let ghost next = entries@.take(a + 1);
        let ghost before = texts(words@);
        if entries[a].token.occurrence > 0 {
            words.push(entries[a].token.word.clone());
        }
        proof {
            let added = entries@[a as int];
            assert forall|word: Seq<char>|
                texts(words@).contains(word) <==> word_repeats(next, word) by {
                if added.token.occurrence > 0 {
                    assert(texts(words@) =~= before.push(added.token.word@));
                    if before.contains(word) {
                        let i = choose|i: int| 0 <= i < before.len() && before[i] == word;
                        assert(texts(words@)[i] == word);
                    }
                    if word == added.token.word@ {
                        assert(texts(words@)[before.len() as int] == word);
                        assert(next[a as int].token.word@ == word);
                    }
                }
            }
        }
        a += 1;
    }
    proof {
        assert(entries@.take(a as int) =~= entries@);
    }
    words
}

/// Whether the word is among the words.
fn holds_word(words: &Vec<String>, word: &String) -> (found: bool)
    ensures
        found == texts(words@).contains(word@),
{
    let mut i: usize = 0;
    while i < words.len()
        invariant
            i <= words@.len(),
            forall|m: int| 0 <= m < i ==> texts(words@)[m] != word@,
        decreases words@.len() - i,
    {
        if words[i] == *word {
            proof {
                assert(texts(words@)[i as int] == word@);
            }
            return true;
        }
        i += 1;
    }
    false
}

/// The posting lists of the entries of a directory whose files start at
/// discovery position `base`.
pub fn materialize_postings(entries: &Vec<TokenFiles>, base: usize, rank: &Vec<usize>) -> (lists:
    Vec<PostingList>)
    requires
        forall|m: int, j: int|
            0 <= m < entries@.len() && 0 <= j < entries@[m].files@.len() ==> base + (
            #[trigger] entries@[m].files@[j]) < rank@.len(),
        forall|m: int| 0 <= m < entries@.len() ==> (#[trigger] entries@[m]).files@.no_duplicates(),
        injective(rank@),
    ensures
        postings_match(lists@, entries@, base as int, rank@),
{
    let repeated = repeated_words(entries);
    let mut lists: Vec<PostingList> = Vec::new();
    let mut m: usize = 0;
    while m < entries.len()
        invariant
            m <= entries@.len(),
            lists@.len() == m,
            injective(rank@),
            forall|a: int, j: int|
                0 <= a < entries@.len() && 0 <= j < entries@[a].files@.len() ==> base + (
                #[trigger] entries@[a].files@[j]) < rank@.len(),
            forall|a: int|
                0 <= a < entries@.len() ==> (#[trigger] entries@[a]).files@.no_duplicates(),
            forall|word: Seq<char>|
                texts(repeated@).contains(word) <==> word_repeats(entries@, word),
            forall|a: int|
                0 <= a < m ==> posting_matches(
                    #[trigger] lists@[a],
                    entries@[a],
                    entries@,
                    base as int,
                    rank@,
                ),
        decreases entries@.len() - m,
    {
        let entry = &entries[m];
        let files = global_identifiers(&entry.files, base, rank);
        let numbered = holds_word(&repeated, &entry.token.word);
        lists.push(
            PostingList {
                word: entry.token.word.clone(),
                occurrence: entry.token.occurrence,
                numbered,
                files,
            },
        );
        m += 1;
    }
    lists
}

/// The positions `0..n`.
fn positions_up_to(n: usize) -> (positions: Vec<usize>)
    ensures
        positions@ == all_positions(n as nat),
{
    let mut positions: Vec<usize> = Vec::new();
    let mut p: usize = 0;
    while p < n
        invariant
            p <= n,
            positions@ == all_positions(p as nat),
        decreases n - p,
    {
        positions.push(p);
        p += 1;
    }
    positions
}

/// What the materializer needs to know of the postings of a well-formed
/// directory.
proof fn lemma_entries_fit(
    entries: Seq<TokenFiles>,
    lists: Seq<Seq<TokenView>>,
    base: int,
    limit: int,
)
    requires
        is_inverted_index(entries, lists),
        lists.len() <= usize::MAX,
        base + lists.len() <= limit,
    ensures
        forall|m: int, j: int|
            0 <= m < entries.len() && 0 <= j < entries[m].files@.len() ==> base + (
            #[trigger] entries[m].files@[j]) < limit,
        forall|m: int| 0 <= m < entries.len() ==> (#[trigger] entries[m]).files@.no_duplicates(),
{
    assert forall|m: int, j: int|
        0 <= m < entries.len() && 0 <= j < entries[m].files@.len() implies base + (
    #[trigger] entries[m].files@[j]) < limit by {
        lemma_inverted_index_bounds(entries, lists, m);
    }
    assert forall|m: int| 0 <= m < entries.len() implies (
    #[trigger] entries[m]).files@.no_duplicates() by {
        lemma_inverted_index_bounds(entries, lists, m);
    }
}

/// The materialized form of a directory tree whose files start at
/// discovery position `base`.
pub fn materialize_directory(directory: &Directory, base: usize, rank: &Vec<usize>) -> (index:
    DirectoryIndex)
    requires
        directory.wf(),
        base + directory.files@.len() <= rank@.len(),
        injective(rank@),
    ensures
        index.describes(directory, base as int, rank@),
    decreases directory,
{
    let n: usize = directory.files.len();
    let positions = positions_up_to(n);
    let files = global_identifiers(&positions, base, rank);
    proof {
        let views = file_views(directory.files@);
        lemma_entries_fit(
            directory.stem_word_tokens@,
            stem_lists(views),
            base as int,
            rank@.len() as int,
        );
        lemma_entries_fit(
            directory.ext_tokens@,
            ext_lists(views),
            base as int,
            rank@.len() as int,
        );
    }
    let stem_words = materialize_postings(&directory.stem_word_tokens, base, rank);
    let exts = materialize_postings(&directory.ext_tokens, base, rank);
    let limit: usize = rank.len();
    let mut below: usize = 0;
    let mut k: usize = 0;
    while k < directory.sub_dirs.len()
        invariant
            k <= directory.sub_dirs@.len(),
            directory.wf(),
            n == directory.files@.len(),
            below == subtree_files(directory.sub_dirs@.take(k as int)).len(),
            below <= subtree_files(directory.sub_dirs@).len(),
        decreases directory.sub_dirs@.len() - k,
    {
        proof {
            lemma_subtree_files_prefix(directory.sub_dirs@, k + 1);
            assert(directory.sub_dirs@.take(k + 1).drop_last() =~= directory.sub_dirs@.take(
                k as int,
            ));
        }
        below = below + directory.sub_dirs[k].files.len();
        k += 1;
    }
    proof {
        assert(directory.sub_dirs@.take(k as int) =~= directory.sub_dirs@);
    }
    let own: usize = n - below;
    let mut sub_dirs: Vec<DirectoryIndex> = Vec::new();
    let mut offset: usize = own;
    let mut k: usize = 0;
    while k < directory.sub_dirs.len()
        invariant
            k <= directory.sub_dirs@.len(),
            directory.wf(),
            injective(rank@),
            n == directory.files@.len(),
            base + n <= rank@.len(),
            limit == rank@.len(),
            own == directory.own_count(),
            offset == own + subtree_files(directory.sub_dirs@.take(k as int)).len(),
            sub_dirs@.len() == k,
            forall|m: int|
                0 <= m < k ==> (#[trigger] sub_dirs@[m]).describes(
                    &directory.sub_dirs@[m],
                    base + directory.own_count() + subtree_files(directory.sub_dirs@.take(m)).len(),
                    rank@,
                ),
        decreases directory.sub_dirs@.len() - k,
    {
        proof {
            lemma_subtree_files_prefix(directory.sub_dirs@, k as int);
            assert(directory.sub_dirs@.take(k + 1).drop_last() =~= directory.sub_dirs@.take(
                k as int,
            ));
        }
        let child = materialize_directory(&directory.sub_dirs[k], base + offset, rank);
        sub_dirs.push(child);
        offset = offset + directory.sub_dirs[k].files.len();
        k += 1;
    }
    DirectoryIndex { name: directory.name.clone(), files, stem_words, exts, sub_dirs }
}

/// The paths of the files.
pub open spec fn paths_of(files: Seq<FileView>) -> Seq<Seq<char>> {
    files.map_values(|f: FileView| f.path)
}

/// The paths of the files of a forest, in order of discovery.
fn discovered_paths(directories: &Vec<Directory>) -> (paths: Vec<String>)
    ensures
        texts(paths@) == paths_of(subtree_files(directories@)),
{
    let mut paths: Vec<String> = Vec::new();
    let mut r: usize = 0;
    while r < directories.len()
        invariant
            r <= directories@.len(),
            texts(paths@) == paths_of(subtree_files(directories@.take(r as int))),
        decreases directories@.len() - r,
    {
        let directory = &directories[r];
        let ghost before = subtree_files(directories@.take(r as int));
        let ghost arrived = file_views(directory.files@);
        let mut j: usize = 0;
        while j < directory.files.len()
            invariant
                j <= directory.files@.len(),
                arrived == file_views(directory.files@),
                texts(paths@) == paths_of(before + arrived.take(j as int)),
            decreases directory.files@.len() - j,
        {
            let path = directory.files[j].path.clone();
            paths.push(path);
            proof {
                assert(paths_of(before + arrived.take(j + 1)) =~= paths_of(
                    before + arrived.take(j as int),
                ).push(arrived[j as int].path));
            }
            j += 1;
        }
        proof {
            assert(directories@.take(r + 1).drop_last() =~= directories@.take(r as int));
        }
        r += 1;
    }
    proof {
        assert(directories@.take(r as int) =~= directories@);
    }
    paths
}

/// The score of each file of a forest of `num_files` files, in order of
/// discovery.
fn discovered_scores(directories: &Vec<Directory>, num_files: usize) -> (scores: Vec<usize>)
    ensures
        scores@ == forest_scores_of(directories@, num_files as nat),
{
    let mut scores: Vec<usize> = Vec::new();
    let mut r: usize = 0;
    while r < directories.len()
        invariant
            r <= directories@.len(),
            scores@ == forest_scores_of(directories@.take(r as int), num_files as nat),
        decreases directories@.len() - r,
    {
        let directory = &directories[r];
        let ghost before = scores@;
        let ghost arrived = tree_scores(*directory, num_files as nat);
        let mut j: usize = 0;
        while j < directory.files.len()
            invariant
                j <= directory.files@.len(),
                arrived == tree_scores(*directory, num_files as nat),
                scores@ == before + arrived.take(j as int),
            decreases directory.files@.len() - j,
        {
            let score = directory.files[j].negative_log_likelihood(
                &directory.stem_word_tokens,
                &directory.ext_tokens,
                num_files,
            );
            scores.push(score);
            j += 1;
        }
        proof {
            assert(directories@.take(r + 1).drop_last() =~= directories@.take(r as int));
        }
        r += 1;
    }
    proof {
        assert(directories@.take(r as int) =~= directories@);
    }
    scores
}

/// Builds the index of a forest from the listings of its roots.
///
/// The build fails with `NotText` exactly where a name or a path in the
/// listings is not text. Otherwise the delimiters are compiled, and the only
/// failure is that the `regex` crate refuses their pattern, for which it is
/// not asked where there is no delimiter. With the delimiters compiled, the
/// index is that of `build_with`.
pub fn build_index(listings: &Vec<DirListing>, delimiters: &Vec<String>) -> (outcome: Result<
    Index,
    BuildError,
>)
    ensures
        !all_text(listings@) ==> (outcome matches Err(e) && e == BuildError::NotText),
        all_text(listings@) ==> match outcome {
            Ok(index) => index.wf() && index.postings_increasing() && index.describes(
                listings@,
                texts(delimiters@),
            ),
            Err(e) => e == BuildError::PatternRefused,
        },
        all_text(listings@) && delimiters@.len() == 0 ==> outcome is Ok,
{
    let mut r: usize = 0;
    while r < listings.len()
        invariant
            r <= listings@.len(),
            forall|m: int| 0 <= m < r ==> (#[trigger] listings@[m]).is_text(),
        decreases listings@.len() - r,
    {
        if !listings[r].check_text() {
            return Err(BuildError::NotText);
        }
        r += 1;
    }
    match Delimiters::new(delimiters) {
        Ok(cuts) => build_with(listings, &cuts),
        Err(e) => Err(e),
    }
}

/// Builds the index of a forest from the listings of its roots, with the
/// delimiters compiled.
///
/// The index is built exactly where every name and every path in the
/// listings is text: every root is indexed, the files are ranked by their
/// surprisal and their paths, and every posting is materialized.
pub fn build_with(listings: &Vec<DirListing>, delimiters: &Delimiters) -> (outcome: Result<
    Index,
    BuildError,
>)
    ensures
        outcome is Ok <==> all_text(listings@),
        outcome matches Ok(index) ==> index.wf() && index.postings_increasing() && index.describes(
            listings@,
            delimiters@,
        ),
        outcome matches Err(e) ==> e == BuildError::NotText,
{
    let mut directories: Vec<Directory> = Vec::new();
    let mut r: usize = 0;
    while r < listings.len()
        invariant
            r <= listings@.len(),
            directories@.len() == r,
            forall|m: int| 0 <= m < r ==> (#[trigger] listings@[m]).is_text(),
            forall|m: int|
                0 <= m < r ==> (#[trigger] directories@[m]).wf() && directories@[m].describes(
                    &listings@[m],
                    delimiters@,
                ),
        decreases listings@.len() - r,
    {
        match index_directory(&listings[r], delimiters) {
            Ok(directory) => {
                directories.push(directory);
            },
            Err(e) => {
                proof {
                    assert(!listings@[r as int].is_text());
                }
                return Err(e);
            },
        }
        r += 1;
    }
    let paths = discovered_paths(&directories);
    let num_files: usize = paths.len();
    let scores = discovered_scores(&directories, num_files);
    proof {
        assert(texts(paths@).len() == paths@.len());
        lemma_forest_scores_len(directories@, num_files as nat);
    }
    let (index_to_file, file_to_index) = rank_files(&scores, &paths);
    let mut file_paths: Vec<String> = Vec::new();
    let mut g: usize = 0;
    while g < num_files
        invariant
            g <= num_files,
            num_files == paths@.len(),
            num_files == index_to_file@.len(),
            num_files == subtree_files(directories@).len(),
            mutually_inverse(index_to_file@, file_to_index@),
            texts(paths@) == paths_of(subtree_files(directories@)),
            file_paths@.len() == g,
            forall|h: int|
                0 <= h < g ==> (#[trigger] file_paths@[h])@ == subtree_files(
                    directories@,
                )[index_to_file@[h] as int].path,
        decreases num_files - g,
    {
        let position: usize = index_to_file[g];
        proof {
            assert(paths_of(subtree_files(directories@))[position as int] == subtree_files(
                directories@,
            )[position as int].path);
        }
        file_paths.push(paths[position].clone());
        g += 1;
    }
    let mut roots: Vec<DirectoryIndex> = Vec::new();
    let mut base: usize = 0;
    let mut r: usize = 0;
    while r < directories.len()
        invariant
            r <= directories@.len(),
            num_files == subtree_files(directories@).len(),
            num_files == file_to_index@.len(),
            injective(file_to_index@),
            base == subtree_files(directories@.take(r as int)).len(),
            forall|m: int| 0 <= m < directories@.len() ==> (#[trigger] directories@[m]).wf(),
            roots@.len() == r,
            forall|m: int|
                0 <= m < r ==> (#[trigger] roots@[m]).describes(
                    &directories@[m],
                    subtree_files(directories@.take(m)).len() as int,
                    file_to_index@,
                ) && roots@[m].postings_increasing(),
        decreases directories@.len() - r,
    {
        proof {
            lemma_subtree_files_prefix(directories@, r as int);
            assert(directories@.take(r + 1).drop_last() =~= directories@.take(r as int));
        }
        let root = materialize_directory(&directories[r], base, &file_to_index);
        proof {
            lemma_described_postings_increasing(
                root,
                directories@[r as int],
                base as int,
                file_to_index@,
            );
        }
        roots.push(root);
        base = base + directories[r].files.len();
        r += 1;
    }
    Ok(Index { directories, index_to_file, file_to_index, file_paths, roots })
}

/// The stem-word token lists of the files, or their extension token lists.
pub open spec fn token_lists(files: Seq<FileView>, stem: bool) -> Seq<Seq<TokenView>> {
    if stem {
        stem_lists(files)
    } else {
        ext_lists(files)
    }
}

/// The stem-word postings of the directory, or its extension postings.
pub open spec fn postings(directory: Directory, stem: bool) -> Seq<TokenFiles> {
    if stem {
        directory.stem_word_tokens@
    } else {
        directory.ext_tokens@
    }
}

/// The stem-word posting lists of the materialized directory, or its
/// extension posting lists.
pub open spec fn posting_lists(index: DirectoryIndex, stem: bool) -> Seq<PostingList> {
    if stem {
        index.stem_words@
    } else {
        index.exts@
    }
}

/// The set of the global indices of the files at the given positions of a
/// directory whose files start at discovery position `base`.
pub open spec fn identifiers(positions: Seq<usize>, base: int, rank: Seq<usize>) -> Set<usize> {
    ranked(positions, base, rank).to_set()
}

/// The global indices of the files that stand in the directory itself and
/// carry the token.
pub open spec fn own_identifiers(
    directory: Directory,
    stem: bool,
    token: TokenView,
    base: int,
    rank: Seq<usize>,
) -> Set<usize> {
    identifiers(
        positions_with(
            token_lists(file_views(directory.files@).take(directory.own_count()), stem),
            token,
        ),
        base,
        rank,
    )
}

/// The union of the posting sets that the given directories have for the
/// token, where the files of the first of them start at discovery position
/// `base`.
pub open spec fn posting_sets_of(
    directories: Seq<Directory>,
    stem: bool,
    token: TokenView,
    base: int,
    rank: Seq<usize>,
) -> Set<usize>
    decreases directories.len(),
{
    if directories.len() == 0 {
        Set::empty()
    } else {
        posting_sets_of(directories.drop_last(), stem, token, base, rank).union(
            identifiers(
                posting_of(postings(directories.last(), stem), token),
                base + subtree_files(directories.drop_last()).len(),
                rank,
            ),
        )
    }
}

/// The global indices of two runs of positions are those of the one run
/// together with those of the other.
proof fn lemma_identifiers_concat(
    first: Seq<usize>,
    second: Seq<usize>,
    base: int,
    rank: Seq<usize>,
)
    ensures
        identifiers(first + second, base, rank) == identifiers(first, base, rank).union(
            identifiers(second, base, rank),
        ),
{
    let all = ranked(first + second, base, rank);
    let a = ranked(first, base, rank);
    let b = ranked(second, base, rank);
    assert(all =~= a + b);
    vstd::seq_lib::seq_to_set_distributes_over_add(a, b);
}

/// Positions shifted by an offset name the files that the positions name
/// from a base that is higher by the offset.
proof fn lemma_ranked_shifted(positions: Seq<usize>, offset: int, base: int, rank: Seq<usize>)
    requires
        0 <= offset,
        forall|j: int| 0 <= j < positions.len() ==> positions[j] + offset <= usize::MAX,
    ensures
        ranked(shifted(positions, offset), base, rank) == ranked(positions, base + offset, rank),
{
}

/// The token lists of two runs of files are those of the one run followed
/// by those of the other.
proof fn lemma_token_lists_concat(first: Seq<FileView>, second: Seq<FileView>, stem: bool)
    ensures
        token_lists(first + second, stem) == token_lists(first, stem) + token_lists(second, stem),
{
}

/// Among the files of well-formed directories put one after the other, the
/// files that carry a token are those that the postings of the directories
/// name for it.
proof fn lemma_posting_sets_of(
    directories: Seq<Directory>,
    stem: bool,
    token: TokenView,
    base: int,
    rank: Seq<usize>,
)
    requires
        forall|k: int| 0 <= k < directories.len() ==> (#[trigger] directories[k]).wf(),
        subtree_files(directories).len() <= usize::MAX,
    ensures
        identifiers(
            positions_with(token_lists(subtree_files(directories), stem), token),
            base,
            rank,
        ) == posting_sets_of(directories, stem, token, base, rank),
    decreases directories.len(),
{
    if directories.len() > 0 {
        let front = directories.drop_last();
        let last = directories.last();
        let before = subtree_files(front);
        let arrived = file_views(last.files@);
        lemma_posting_sets_of(front, stem, token, base, rank);
        lemma_token_lists_concat(before, arrived, stem);
        let first = token_lists(before, stem);
        let second = token_lists(arrived, stem);
        lemma_positions_with_concat(first, second, token);
        lemma_positions_with(second, token);
        let found = positions_with(second, token);
        lemma_identifiers_concat(
            positions_with(first, token),
            shifted(found, first.len() as int),
            base,
            rank,
        );
        assert forall|j: int| 0 <= j < found.len() implies found[j] + first.len()
            <= usize::MAX by {
            assert(found.contains(found[j]));
        }
        lemma_ranked_shifted(found, first.len() as int, base, rank);
    }
}

/// The posting set of a directory for a token is the union of the files of
/// the directory itself that carry the token and of the posting sets of its
/// sub-directories for that token.
pub proof fn lemma_tree_union(
    directory: Directory,
    stem: bool,
    token: TokenView,
    base: int,
    rank: Seq<usize>,
)
    requires
        directory.wf(),
    ensures
        identifiers(posting_of(postings(directory, stem), token), base, rank) == own_identifiers(
            directory,
            stem,
            token,
            base,
            rank,
        ).union(
            posting_sets_of(directory.sub_dirs@, stem, token, base + directory.own_count(), rank),
        ),
{
    let files = file_views(directory.files@);
    let own = files.take(directory.own_count());
    let below = subtree_files(directory.sub_dirs@);
    assert(directory.files.len() == directory.files@.len());
    assert(files =~= own + below);
    lemma_posting_sets_of(directory.sub_dirs@, stem, token, base + directory.own_count(), rank);
    lemma_token_lists_concat(own, below, stem);
    let first = token_lists(own, stem);
    let second = token_lists(below, stem);
    lemma_positions_with_concat(first, second, token);
    lemma_positions_with(second, token);
    let found = positions_with(second, token);
    lemma_identifiers_concat(
        positions_with(first, token),
        shifted(found, first.len() as int),
        base,
        rank,
    );
    assert forall|j: int| 0 <= j < found.len() implies found[j] + first.len() <= usize::MAX by {
        assert(found.contains(found[j]));
    }
    lemma_ranked_shifted(found, first.len() as int, base, rank);
}

/// The posting list that a materialized directory has for a token holds
/// exactly the files of the directory itself that carry the token and the
/// posting sets of its sub-directories for that token.
pub proof fn lemma_posting_list_is_tree_union(
    index: DirectoryIndex,
    directory: Directory,
    stem: bool,
    m: int,
    base: int,
    rank: Seq<usize>,
)
    requires
        directory.wf(),
        index.describes(&directory, base, rank),
        0 <= m < postings(directory, stem).len(),
    ensures
        posting_lists(index, stem)[m].word@ == postings(directory, stem)[m].token@.0,
        posting_lists(index, stem)[m].occurrence == postings(directory, stem)[m].token@.1,
        posting_lists(index, stem)[m].files@.to_set() == own_identifiers(
            directory,
            stem,
            postings(directory, stem)[m].token@,
            base,
            rank,
        ).union(
            posting_sets_of(
                directory.sub_dirs@,
                stem,
                postings(directory, stem)[m].token@,
                base + directory.own_count(),
                rank,
            ),
        ),
{
    let entries = postings(directory, stem);
    let token = entries[m].token@;
    lemma_tree_union(directory, stem, token, base, rank);
    lemma_posting_of_entry(entries, m);
}

/// The global indices of a well-formed index are exactly `0..n` for its `n`
/// files, each given to one file.
pub proof fn lemma_index_is_a_bijection(index: Index)
    requires
        index.wf(),
    ensures
        index.file_to_index@.len() == index.num_files(),
        index.file_to_index@.no_duplicates(),
        index.file_to_index@.to_set() =~= Set::new(|g: usize| g < index.num_files()),
{
    lemma_forest_scores_len(index.directories@, index.num_files());
    lemma_global_indices_are_a_bijection(index.index_to_file@, index.file_to_index@);
}

/// In a well-formed index the files stand by ascending score, and files of
/// equal score stand in the order of their paths.
pub proof fn lemma_file_paths_stand_by_score_and_path(index: Index, g: int, h: int)
    requires
        index.wf(),
        0 <= g < h < index.file_paths@.len(),
    ensures
        forest_scores(index.directories@)[index.index_to_file@[g] as int] <= forest_scores(
            index.directories@,
        )[index.index_to_file@[h] as int],
        forest_scores(index.directories@)[index.index_to_file@[g] as int] == forest_scores(
            index.directories@,
        )[index.index_to_file@[h] as int] ==> !lex_before(
            path_key(index.file_paths@[h]@),
            path_key(index.file_paths@[g]@),
        ),
{
    let files = subtree_files(index.directories@);
    lemma_forest_scores_len(index.directories@, index.num_files());
    lemma_ranking_ascends(
        index.index_to_file@,
        index.file_to_index@,
        forest_scores(index.directories@),
        paths_of(files),
        g,
        h,
    );
    assert(paths_of(files)[index.index_to_file@[g] as int] == index.file_paths@[g]@);
    assert(paths_of(files)[index.index_to_file@[h] as int] == index.file_paths@[h]@);
}

} // verus!
