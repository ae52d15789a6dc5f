//! The file ranker: the surprisal of a file, and the order in which files
//! get their global indices.
//!
//! A token that few files carry adds much to the surprisal of a file, a
//! token that nearly all files carry adds little. Files are ranked by
//! ascending surprisal; files of equal surprisal stand in the order of their
//! paths.

use crate::directory::{posting_of, File, FileView, TokenFiles};
use crate::keys::{
    in_key_order, key_before, key_of, key_views, lemma_key_before_is_an_order,
    lemma_lex_ascending_unique, lemma_lex_irreflexive, lemma_rank_key_before,
    lemma_rank_key_injective, lex_ascending, lex_before, path_key, rank_key, sort_by_key,
};
use crate::tokenizer::{texts, token_views, Token, TokenView};
use vstd::prelude::*;

verus! {

/// What a token that `carriers` of `num_files` files carry adds to the
/// surprisal of a file. Counts do not go below zero.
pub open spec fn rarity(num_files: nat, carriers: nat) -> nat {
    if carriers <= num_files {
        (num_files - carriers) as nat
    } else {
        0
    }
}

/// The sum of the rarities of the tokens.
pub open spec fn token_rarities(
    tokens: Seq<TokenView>,
    entries: Seq<TokenFiles>,
    num_files: nat,
) -> nat
    decreases tokens.len(),
{
    if tokens.len() == 0 {
        0
    } else {
        token_rarities(tokens.drop_last(), entries, num_files) + rarity(
            num_files,
            posting_of(entries, tokens.last()).len(),
        )
    }
}

/// The surprisal of a file among `num_files` files: the rarities of its
/// stem-word tokens and of its extension tokens, and the rarity of standing
/// in a directory with as many files as its own has.
pub open spec fn surprisal(
    file: FileView,
    stem_entries: Seq<TokenFiles>,
    ext_entries: Seq<TokenFiles>,
    num_files: nat,
) -> nat {
    token_rarities(file.stem_word_tokens, stem_entries, num_files) + token_rarities(
        file.ext_tokens,
        ext_entries,
        num_files,
    ) + rarity(num_files, file.num_files_in_dir)
}

/// A count as a `usize`: itself where it fits, and the largest `usize`
/// where it does not.
pub open spec fn capped(count: nat) -> usize {
    if count <= usize::MAX {
        count as usize
    } else {
        usize::MAX
    }
}

/// `order` and `rank` are inverse to each other on `0..n`: `order` lists
/// the discovery positions by global index, `rank` the global indices by
/// discovery position.
pub open spec fn mutually_inverse(order: Seq<usize>, rank: Seq<usize>) -> bool {
    &&& order.len() == rank.len()
    &&& forall|g: int| 0 <= g < order.len() ==> (#[trigger] order[g]) < rank.len()
    &&& forall|g: int| 0 <= g < order.len() ==> rank[(#[trigger] order[g]) as int] == g
    &&& forall|d: int| 0 <= d < rank.len() ==> (#[trigger] rank[d]) < order.len()
    &&& forall|d: int| 0 <= d < rank.len() ==> order[(#[trigger] rank[d]) as int] == d
}

/// The key of each file: its score and its path.
pub open spec fn rank_keys(scores: Seq<usize>, paths: Seq<Seq<char>>) -> Seq<Seq<usize>> {
    Seq::new(scores.len(), |d: int| rank_key(scores[d], paths[d]))
}

/// `order` ranks the files with the given scores and paths: it is inverse
/// to `rank`, and along it the scores ascend, the paths ascend where the
/// scores are equal, and the discovery positions ascend where a path is
/// given twice.
pub open spec fn is_ranking(
    order: Seq<usize>,
    rank: Seq<usize>,
    scores: Seq<usize>,
    paths: Seq<Seq<char>>,
) -> bool {
    &&& order.len() == scores.len()
    &&& mutually_inverse(order, rank)
    &&& in_key_order(rank_keys(scores, paths), order)
}

/// The global indices of `n` files are exactly `0..n`, each given once.
pub proof fn lemma_global_indices_are_a_bijection(order: Seq<usize>, rank: Seq<usize>)
    requires
        mutually_inverse(order, rank),
    ensures
        rank.no_duplicates(),
        forall|d: int| 0 <= d < rank.len() ==> 0 <= #[trigger] rank[d] < rank.len(),
        forall|g: usize| g < rank.len() ==> rank.contains(g),
        rank.to_set() =~= Set::new(|g: usize| g < rank.len()),
{
    assert forall|g: usize| g < rank.len() implies rank.contains(g) by {
        assert(rank[order[g as int] as int] == g);
    }
}

/// Two rankings of the same files are the same ranking.
pub proof fn lemma_ranking_unique(
    first: Seq<usize>,
    first_rank: Seq<usize>,
    second: Seq<usize>,
    second_rank: Seq<usize>,
    scores: Seq<usize>,
    paths: Seq<Seq<char>>,
)
    requires
        is_ranking(first, first_rank, scores, paths),
        is_ranking(second, second_rank, scores, paths),
    ensures
        first_rank == second_rank,
{
    assert forall|d: int| 0 <= d < first_rank.len() implies first_rank[d] == second_rank[d] by {
        lemma_rank_counts_predecessors(first, first_rank, scores, paths, d);
        lemma_rank_counts_predecessors(second, second_rank, scores, paths, d);
    }
    assert(first_rank =~= second_rank);
}

/// The files that rank before the file discovered at `d`.
pub open spec fn predecessors(scores: Seq<usize>, paths: Seq<Seq<char>>, d: int) -> Set<int> {
    Set::new(
        |e: int|
            0 <= e < scores.len() && key_before(
                rank_keys(scores, paths)[e],
                e,
                rank_keys(scores, paths)[d],
                d,
            ),
    )
}

/// In a ranking, the global index of a file is the number of files that
/// rank before it.
pub proof fn lemma_rank_counts_predecessors(
    order: Seq<usize>,
    rank: Seq<usize>,
    scores: Seq<usize>,
    paths: Seq<Seq<char>>,
    d: int,
)
    requires
        is_ranking(order, rank, scores, paths),
        0 <= d < rank.len(),
    ensures
        predecessors(scores, paths, d).finite(),
        predecessors(scores, paths, d).len() == rank[d],
{
    let keys = rank_keys(scores, paths);
    let g = rank[d] as int;
    let before = order.take(g).map_values(|e: usize| e as int);
    assert(order[g] == d);
    assert(before.no_duplicates()) by {
        assert forall|a: int, b: int| 0 <= a < b < before.len() implies before[a]
            != before[b] by {
            assert(rank[order[a] as int] == a);
            assert(rank[order[b] as int] == b);
        }
    }
    assert(before.to_set() =~= predecessors(scores, paths, d)) by {
        assert forall|e: int| before.to_set().contains(e) <==> predecessors(
            scores,
            paths,
            d,
        ).contains(e) by {
            if before.to_set().contains(e) {
                let a = choose|a: int| 0 <= a < before.len() && before[a] == e;
                assert(order[a] == e);
                assert(key_before(
                    keys[order[a] as int],
                    order[a] as int,
                    keys[order[g] as int],
                    order[g] as int,
                ));
            }
            if predecessors(scores, paths, d).contains(e) {
                let a = rank[e] as int;
                assert(order[a] == e);
                lemma_key_before_is_an_order(keys[e], e, keys[d], d, keys[d], d);
                if a > g {
                    assert(key_before(
                        keys[order[g] as int],
                        order[g] as int,
                        keys[order[a] as int],
                        order[a] as int,
                    ));
                }
                assert(a < g);
                assert(before[a] == e);
            }
        }
    }
    before.unique_seq_to_set();
}

/// Along a ranking the scores do not descend, and where two files have the
/// same score the path of the later one is not the smaller.
pub proof fn lemma_ranking_ascends(
    order: Seq<usize>,
    rank: Seq<usize>,
    scores: Seq<usize>,
    paths: Seq<Seq<char>>,
    g: int,
    h: int,
)
    requires
        is_ranking(order, rank, scores, paths),
        0 <= g < h < order.len(),
    ensures
        scores[order[g] as int] <= scores[order[h] as int],
        scores[order[g] as int] == scores[order[h] as int] ==> !lex_before(
            path_key(paths[order[h] as int]),
            path_key(paths[order[g] as int]),
        ),
{
    let d = order[g] as int;
    let e = order[h] as int;
    let keys = rank_keys(scores, paths);
    assert(key_before(keys[d], d, keys[e], e));
    lemma_rank_key_before(scores[d], paths[d], scores[e], paths[e]);
    lemma_rank_key_before(scores[e], paths[e], scores[d], paths[d]);
    lemma_key_before_is_an_order(keys[d], d, keys[e], e, keys[d], d);
    if keys[d] == keys[e] {
        lemma_rank_key_injective(scores[d], paths[d], scores[e], paths[e]);
        lemma_lex_irreflexive(path_key(paths[d]));
    }
}

/// The score and the path of the file at each global index.
pub open spec fn ranked_files(order: Seq<usize>, scores: Seq<usize>, paths: Seq<Seq<char>>) -> Seq<
    (usize, Seq<char>),
> {
    Seq::new(order.len(), |g: int| (scores[order[g] as int], paths[order[g] as int]))
}

/// A file with this score and this path is among the files.
pub open spec fn occurs_among(
    score: usize,
    path: Seq<char>,
    scores: Seq<usize>,
    paths: Seq<Seq<char>>,
) -> bool {
    exists|e: int| 0 <= e < scores.len() && scores[e] == score && #[trigger] paths[e] == path
}

/// The files are the same in both discoveries: they are as many, and each
/// file of the one occurs in the other.
pub open spec fn same_files(
    scores: Seq<usize>,
    paths: Seq<Seq<char>>,
    other_scores: Seq<usize>,
    other_paths: Seq<Seq<char>>,
) -> bool {
    &&& scores.len() == other_scores.len()
    &&& forall|d: int|
        0 <= d < scores.len() ==> #[trigger] occurs_among(
            scores[d],
            paths[d],
            other_scores,
            other_paths,
        )
}

/// No path is given twice.
pub open spec fn distinct_paths(paths: Seq<Seq<char>>) -> bool {
    forall|d: int, e: int| 0 <= d < e < paths.len() ==> paths[d] != paths[e]
}

/// The keys of the files along a ranking.
spec fn keys_along(order: Seq<usize>, scores: Seq<usize>, paths: Seq<Seq<char>>) -> Seq<
    Seq<usize>,
> {
    Seq::new(order.len(), |g: int| rank_key(scores[order[g] as int], paths[order[g] as int]))
}

/// Along a ranking of files with distinct paths the keys ascend.
proof fn lemma_keys_along_ascend(
    order: Seq<usize>,
    rank: Seq<usize>,
    scores: Seq<usize>,
    paths: Seq<Seq<char>>,
)
    requires
        is_ranking(order, rank, scores, paths),
        scores.len() == paths.len(),
        distinct_paths(paths),
    ensures
        lex_ascending(keys_along(order, scores, paths)),
{
    let along = keys_along(order, scores, paths);
    let keys = rank_keys(scores, paths);
    assert forall|g: int, h: int| 0 <= g < h < along.len() implies lex_before(
        along[g],
        along[h],
    ) by {
        let d = order[g] as int;
        let e = order[h] as int;
        assert(key_before(keys[d], d, keys[e], e));
        if keys[d] == keys[e] {
            lemma_rank_key_injective(scores[d], paths[d], scores[e], paths[e]);
            assert(rank[order[g] as int] == g);
            assert(rank[order[h] as int] == h);
            if d < e {
                assert(paths[d] != paths[e]);
            } else if e < d {
                assert(paths[e] != paths[d]);
            }
        }
    }
}

/// The ranked list of files does not depend on the order in which the
/// files were discovered: two rankings of the same files, none of which
/// shares its path with another, give every global index to the same file.
pub proof fn lemma_ranking_does_not_depend_on_discovery(
    order: Seq<usize>,
    rank: Seq<usize>,
    scores: Seq<usize>,
    paths: Seq<Seq<char>>,
    other_order: Seq<usize>,
    other_rank: Seq<usize>,
    other_scores: Seq<usize>,
    other_paths: Seq<Seq<char>>,
)
    requires
        is_ranking(order, rank, scores, paths),
        is_ranking(other_order, other_rank, other_scores, other_paths),
        scores.len() == paths.len(),
        other_scores.len() == other_paths.len(),
        distinct_paths(paths),
        distinct_paths(other_paths),
        same_files(scores, paths, other_scores, other_paths),
        same_files(other_scores, other_paths, scores, paths),
    ensures
        ranked_files(order, scores, paths) == ranked_files(other_order, other_scores, other_paths),
{
    let a = keys_along(order, scores, paths);
    let b = keys_along(other_order, other_scores, other_paths);
    lemma_keys_along_ascend(order, rank, scores, paths);
    lemma_keys_along_ascend(other_order, other_rank, other_scores, other_paths);
    assert forall|x: Seq<usize>| a.contains(x) <==> b.contains(x) by {
        if a.contains(x) {
            let g = choose|g: int| 0 <= g < a.len() && a[g] == x;
            let d = order[g] as int;
            assert(occurs_among(scores[d], paths[d], other_scores, other_paths));
            let e = choose|e: int|
                0 <= e < other_scores.len() && other_scores[e] == scores[d] && #[trigger] other_paths[e]
                    == paths[d];
            let h = other_rank[e] as int;
            assert(other_order[h] == e);
            assert(b[h] == x);
        }
        if b.contains(x) {
            let h = choose|h: int| 0 <= h < b.len() && b[h] == x;
            let e = other_order[h] as int;
            assert(occurs_among(other_scores[e], other_paths[e], scores, paths));
            let d = choose|d: int|
                0 <= d < scores.len() && scores[d] == other_scores[e] && #[trigger] paths[d]
                    == other_paths[e];
            let g = rank[d] as int;
            assert(order[g] == d);
            assert(a[g] == x);
        }
    }
    lemma_lex_ascending_unique(a, b);
    assert forall|g: int| 0 <= g < order.len() implies ranked_files(order, scores, paths)[g]
        == ranked_files(other_order, other_scores, other_paths)[g] by {
        assert(a[g] == b[g]);
        lemma_rank_key_injective(
            scores[order[g] as int],
            paths[order[g] as int],
            other_scores[other_order[g] as int],
            other_paths[other_order[g] as int],
        );
    }
    assert(ranked_files(order, scores, paths) =~= ranked_files(
        other_order,
        other_scores,
        other_paths,
    ));
}

impl File {
    /// The surprisal of this file among `num_files` files, given the
    /// postings of the directory tree that it stands in.
    pub fn negative_log_likelihood(
        &self,
        all_stem_word_tokens: &Vec<TokenFiles>,
        all_ext_tokens: &Vec<TokenFiles>,
        num_files: usize,
    ) -> (score: usize)
        ensures
            score == capped(
                surprisal(self@, all_stem_word_tokens@, all_ext_tokens@, num_files as nat),
            ),
    {
        let stems = sum_rarities(&self.stem_word_tokens, all_stem_word_tokens, num_files);
        let exts = sum_rarities(&self.ext_tokens, all_ext_tokens, num_files);
        let l = stems.saturating_add(exts);
        l.saturating_add(num_files.saturating_sub(self.num_files_in_dir))
    }
}

/// The number of files that the postings give for the token.
fn posting_len(entries: &Vec<TokenFiles>, token: &Token) -> (len: usize)
    ensures
        len == posting_of(entries@, token@).len(),
{
    let mut a: usize = entries.len();
    proof {
        assert(entries@.take(a as int) =~= entries@);
    }
    while a > 0
        invariant
            a <= entries@.len(),
            posting_of(entries@, token@) == posting_of(entries@.take(a as int), token@),
        decreases a,
    {
        proof {
            assert(entries@.take(a as int).drop_last() =~= entries@.take(a - 1));
        }
        if entries[a - 1].token.same_as(token) {
            return entries[a - 1].files.len();
        }
        a -= 1;
    }
    0
}

/// The sum of the rarities of the tokens, capped.
fn sum_rarities(tokens: &Vec<Token>, entries: &Vec<TokenFiles>, num_files: usize) -> (sum: usize)
    ensures
        sum == capped(token_rarities(token_views(tokens@), entries@, num_files as nat)),
{
    let ghost views = token_views(tokens@);
    let mut sum: usize = 0;
    let mut i: usize = 0;
    while i < tokens.len()
        invariant
            i <= tokens@.len(),
            views == token_views(tokens@),
            sum == capped(token_rarities(views.take(i as int), entries@, num_files as nat)),
        decreases tokens@.len() - i,
    {
        proof {
            assert(views.take(i + 1).drop_last() =~= views.take(i as int));
        }
        let carriers = posting_len(entries, &tokens[i]);
        sum = sum.saturating_add(num_files.saturating_sub(carriers));
        i += 1;
    }
    proof {
        assert(views.take(i as int) =~= views);
    }
    sum
}

/// Ranks files by ascending score; files of equal score stand in the order
/// of their paths. Returns the discovery positions by global index and the
/// global indices by discovery position.
pub fn rank_files(scores: &Vec<usize>, paths: &Vec<String>) -> (ranking: (Vec<usize>, Vec<usize>))
    requires
        scores@.len() == paths@.len(),
    ensures
        is_ranking(ranking.0@, ranking.1@, scores@, texts(paths@)),
{
    let n: usize = scores.len();
    let ghost wanted = rank_keys(scores@, texts(paths@));
    let mut keys: Vec<Vec<usize>> = Vec::new();
    let mut positions: Vec<usize> = Vec::new();
    let mut d: usize = 0;
    while d < n
        invariant
            d <= n,
            n == scores@.len(),
            n == paths@.len(),
            wanted == rank_keys(scores@, texts(paths@)),
            keys@.len() == d,
            positions@.len() == d,
            forall|i: int| 0 <= i < d ==> (#[trigger] keys@[i])@ == wanted[i],
            forall|i: int| 0 <= i < d ==> (#[trigger] positions@[i]) == i,
        decreases n - d,
    {
        keys.push(key_of(scores[d], paths[d].as_str()));
        positions.push(d);
        d += 1;
    }
    proof {
        assert(key_views(keys@) =~= wanted);
    }
    let order = sort_by_key(&keys, positions.as_slice());
    proof {
        assert forall|g: int| 0 <= g < n implies (#[trigger] order@[g]) < n by {
            assert(order@.contains(order@[g]));
            let i = choose|i: int| 0 <= i < positions@.len() && positions@[i] == order@[g];
        }
    }
    let mut rank: Vec<usize> = Vec::new();
    let mut g: usize = 0;
    while g < n
        invariant
            g <= n,
            rank@.len() == g,
        decreases n - g,
    {
        rank.push(0);
        g += 1;
    }
    let mut g: usize = 0;
    while g < n
        invariant
            g <= n,
            order@.len() == n,
            rank@.len() == n,
            wanted.len() == n,
            in_key_order(wanted, order@),
            forall|i: int| 0 <= i < n ==> (#[trigger] order@[i]) < n,
            forall|i: int| 0 <= i < g ==> rank@[(#[trigger] order@[i]) as int] == i,
        decreases n - g,
    {
        let position: usize = order[g];
        proof {
            assert forall|i: int| 0 <= i < g implies (#[trigger] order@[i]) != position by {
                let key = wanted[position as int];
                lemma_key_before_is_an_order(
                    key,
                    position as int,
                    key,
                    position as int,
                    key,
                    position as int,
                );
                assert(key_before(
                    wanted[order@[i] as int],
                    order@[i] as int,
                    wanted[order@[g as int] as int],
                    order@[g as int] as int,
                ));
            }
        }
        rank[position] = g;
        g += 1;
    }
    proof {
        assert forall|p: int| 0 <= p < n implies (#[trigger] rank@[p]) < n && order@[rank@[p] as int]
            == p by {
            assert(positions@[p] == p);
            assert(positions@.contains(p as usize));
            let i = choose|i: int| 0 <= i < order@.len() && order@[i] == p as usize;
            assert(rank@[order@[i] as int] == i);
        }
    }
    (order, rank)
}

} // verus!
