//! The keys by which files are ranked: the surprisal of a file, followed by
//! its path. Keys are compared number by number; in a path the separator
//! `/` stands before every other byte of the text, so that paths are
//! compared name by name.

use vstd::prelude::*;
use vstd::utf8::{encode_utf8, encode_utf8_decode_utf8};

verus! {

/// The number of a byte of a path in a key: 0 for the separator `/`, and
/// one more than the byte for every other byte.
pub open spec fn byte_key(byte: u8) -> usize {
    if byte == 0x2f {
        0
    } else {
        (byte + 1) as usize
    }
}

/// The key of a path: the numbers of the bytes of its text.
pub open spec fn path_key(path: Seq<char>) -> Seq<usize> {
    encode_utf8(path).map_values(|byte: u8| byte_key(byte))
}

/// The key of a file: its score, then the key of its path.
pub open spec fn rank_key(score: usize, path: Seq<char>) -> Seq<usize> {
    seq![score] + path_key(path)
}

/// The key `a` is smaller than the key `b`: at the first place where they
/// differ `a` has the smaller number, or `a` ends there and `b` goes on.
pub open spec fn lex_before(a: Seq<usize>, b: Seq<usize>) -> bool
    decreases a.len(),
{
    if b.len() == 0 {
        false
    } else if a.len() == 0 {
        true
    } else if a[0] != b[0] {
        a[0] < b[0]
    } else {
        lex_before(a.drop_first(), b.drop_first())
    }
}

/// The item with key `a` at position `i` stands before the item with key
/// `b` at position `j`: its key is smaller, or the keys are equal and it
/// comes first.
pub open spec fn key_before(a: Seq<usize>, i: int, b: Seq<usize>, j: int) -> bool {
    lex_before(a, b) || (a == b && i < j)
}

/// The keys of the items.
pub open spec fn key_views(keys: Seq<Vec<usize>>) -> Seq<Seq<usize>> {
    keys.map_values(|k: Vec<usize>| k@)
}

/// Each position stands before every later one.
pub open spec fn in_key_order(keys: Seq<Seq<usize>>, order: Seq<usize>) -> bool {
    forall|g: int, h: int|
        0 <= g < h < order.len() ==> key_before(
            keys[order[g] as int],
            order[g] as int,
            keys[order[h] as int],
            order[h] as int,
        )
}

/// No key is smaller than itself.
pub proof fn lemma_lex_irreflexive(a: Seq<usize>)
    ensures
        !lex_before(a, a),
    decreases a.len(),
{
    if a.len() > 0 {
        lemma_lex_irreflexive(a.drop_first());
    }
}

/// Smaller than something smaller is smaller.
pub proof fn lemma_lex_transitive(a: Seq<usize>, b: Seq<usize>, c: Seq<usize>)
    requires
        lex_before(a, b),
        lex_before(b, c),
    ensures
        lex_before(a, c),
    decreases a.len(),
{
    if a.len() > 0 && b.len() > 0 && c.len() > 0 && a[0] == b[0] && b[0] == c[0] {
        lemma_lex_transitive(a.drop_first(), b.drop_first(), c.drop_first());
    }
}

/// Of two keys one is smaller, or they are the same key.
pub proof fn lemma_lex_total(a: Seq<usize>, b: Seq<usize>)
    ensures
        lex_before(a, b) || lex_before(b, a) || a == b,
    decreases a.len(),
{
    if a.len() > 0 && b.len() > 0 && a[0] == b[0] {
        lemma_lex_total(a.drop_first(), b.drop_first());
        if a.drop_first() == b.drop_first() {
            assert(a =~= seq![a[0]] + a.drop_first());
            assert(b =~= seq![b[0]] + b.drop_first());
        }
    } else if a.len() == 0 && b.len() == 0 {
        assert(a =~= b);
    }
}

/// Standing before is an order on items: nothing stands before itself, of
/// two items one stands before the other, and what stands before an item
/// stands before all that the item stands before.
pub proof fn lemma_key_before_is_an_order(
    a: Seq<usize>,
    i: int,
    b: Seq<usize>,
    j: int,
    c: Seq<usize>,
    k: int,
)
    ensures
        !key_before(a, i, a, i),
        i != j ==> key_before(a, i, b, j) || key_before(b, j, a, i),
        !(key_before(a, i, b, j) && key_before(b, j, a, i)),
        key_before(a, i, b, j) && key_before(b, j, c, k) ==> key_before(a, i, c, k),
{
    lemma_lex_irreflexive(a);
    lemma_lex_irreflexive(b);
    lemma_lex_total(a, b);
    if lex_before(a, b) && lex_before(b, a) {
        lemma_lex_transitive(a, b, a);
    }
    if lex_before(a, b) && lex_before(b, c) {
        lemma_lex_transitive(a, b, c);
    }
}

/// Each key is smaller than every later key.
pub open spec fn lex_ascending(keys: Seq<Seq<usize>>) -> bool {
    forall|i: int, j: int| 0 <= i < j < keys.len() ==> lex_before(keys[i], keys[j])
}

/// A run of ascending keys is determined by the keys that it holds.
pub proof fn lemma_lex_ascending_unique(a: Seq<Seq<usize>>, b: Seq<Seq<usize>>)
    requires
        lex_ascending(a),
        lex_ascending(b),
        forall|x: Seq<usize>| a.contains(x) <==> b.contains(x),
    ensures
        a == b,
    decreases a.len(),
{
    if a.len() == 0 {
        if b.len() > 0 {
            assert(b.contains(b[0]));
        }
        assert(a =~= b);
    } else {
        assert(a.contains(a.last()));
        let n = choose|n: int| 0 <= n < b.len() && b[n] == a.last();
        assert(b.contains(b.last()));
        let m = choose|m: int| 0 <= m < a.len() && a[m] == b.last();
        lemma_lex_irreflexive(a.last());
        assert(a.last() == b.last()) by {
            if n < b.len() - 1 {
                assert(lex_before(b[n], b[b.len() - 1]));
                if m < a.len() - 1 {
                    assert(lex_before(a[m], a[a.len() - 1]));
                    lemma_lex_transitive(a.last(), b.last(), a.last());
                }
            } else if m < a.len() - 1 {
                assert(lex_before(a[m], a[a.len() - 1]));
            }
        }
        let a0 = a.drop_last();
        let b0 = b.drop_last();
        assert forall|x: Seq<usize>| a0.contains(x) <==> b0.contains(x) by {
            lemma_lex_irreflexive(x);
            if a0.contains(x) {
                let i = choose|i: int| 0 <= i < a0.len() && a0[i] == x;
                assert(lex_before(a[i], a[a.len() - 1]));
                assert(a.contains(x));
                let j = choose|j: int| 0 <= j < b.len() && b[j] == x;
                assert(b0[j] == x);
            }
            if b0.contains(x) {
                let j = choose|j: int| 0 <= j < b0.len() && b0[j] == x;
                assert(lex_before(b[j], b[b.len() - 1]));
                assert(b.contains(x));
                let i = choose|i: int| 0 <= i < a.len() && a[i] == x;
                assert(a0[i] == x);
            }
        }
        lemma_lex_ascending_unique(a0, b0);
        assert(a =~= a0.push(a.last()));
        assert(b =~= b0.push(b.last()));
    }
}

/// Two files have the same key only where they have the same score and
/// the same path.
pub proof fn lemma_rank_key_injective(
    score: usize,
    path: Seq<char>,
    other_score: usize,
    other_path: Seq<char>,
)
    requires
        rank_key(score, path) == rank_key(other_score, other_path),
    ensures
        score == other_score,
        path == other_path,
{
    let a = rank_key(score, path);
    let b = rank_key(other_score, other_path);
    assert(a[0] == score && b[0] == other_score);
    let x = encode_utf8(path);
    let y = encode_utf8(other_path);
    assert(path_key(path).len() == a.len() - 1);
    assert(path_key(other_path).len() == b.len() - 1);
    assert(x =~= y) by {
        assert forall|i: int| 0 <= i < x.len() implies x[i] == y[i] by {
            assert(a[i + 1] == byte_key(x[i]));
            assert(b[i + 1] == byte_key(y[i]));
        }
    }
    encode_utf8_decode_utf8(path);
    encode_utf8_decode_utf8(other_path);
}

/// Where the keys of two files differ, they are compared by score first
/// and by path where the scores are equal.
pub proof fn lemma_rank_key_before(
    score: usize,
    path: Seq<char>,
    other_score: usize,
    other_path: Seq<char>,
)
    ensures
        lex_before(rank_key(score, path), rank_key(other_score, other_path)) <==> score
            < other_score || (score == other_score && lex_before(
            path_key(path),
            path_key(other_path),
        )),
{
    let a = rank_key(score, path);
    let b = rank_key(other_score, other_path);
    assert(a[0] == score && b[0] == other_score);
    assert(a.drop_first() =~= path_key(path));
    assert(b.drop_first() =~= path_key(other_path));
}

/// The key of a file.
pub fn key_of(score: usize, path: &str) -> (key: Vec<usize>)
    ensures
        key@ == rank_key(score, path@),
{
    let bytes = path.as_bytes();
    let ghost numbers = path_key(path@);
    let mut key: Vec<usize> = Vec::new();
    key.push(score);
    let mut i: usize = 0;
    while i < bytes.len()
        invariant
            i <= bytes@.len(),
            bytes@ == encode_utf8(path@),
            numbers == path_key(path@),
            key@ == seq![score] + numbers.take(i as int),
        decreases bytes@.len() - i,
    {
        let byte: u8 = bytes[i];
        let number: usize = if byte == 0x2f {
            0
        } else {
            byte as usize + 1
        };
        key.push(number);
        proof {
            assert(numbers.take(i + 1) =~= numbers.take(i as int).push(numbers[i as int]));
        }
        i += 1;
    }
    proof {
        assert(numbers.take(i as int) =~= numbers);
    }
    key
}

/// Whether the key `a` is smaller than the key `b`.
pub fn is_smaller(a: &Vec<usize>, b: &Vec<usize>) -> (yes: bool)
    ensures
        yes == lex_before(a@, b@),
{
    let mut i: usize = 0;
    proof {
        assert(a@.skip(0) =~= a@);
        assert(b@.skip(0) =~= b@);
    }
    while i < a.len() && i < b.len() && a[i] == b[i]
        invariant
            i <= a@.len(),
            i <= b@.len(),
            lex_before(a@, b@) == lex_before(a@.skip(i as int), b@.skip(i as int)),
        decreases a@.len() - i,
    {
        proof {
            assert(a@.skip(i as int).drop_first() =~= a@.skip(i + 1));
            assert(b@.skip(i as int).drop_first() =~= b@.skip(i + 1));
        }
        i += 1;
    }
    if i == b.len() {
        false
    } else if i == a.len() {
        true
    } else {
        a[i] < b[i]
    }
}

/// Whether position `i` stands before position `j` under the keys.
fn stands_first(keys: &Vec<Vec<usize>>, i: usize, j: usize) -> (yes: bool)
    requires
        i < keys@.len(),
        j < keys@.len(),
    ensures
        yes == key_before(key_views(keys@)[i as int], i as int, key_views(keys@)[j as int], j as int),
{
    proof {
        lemma_lex_total(keys@[i as int]@, keys@[j as int]@);
        lemma_lex_irreflexive(keys@[i as int]@);
    }
    if is_smaller(&keys[i], &keys[j]) {
        true
    } else if is_smaller(&keys[j], &keys[i]) {
        proof {
            if keys@[i as int]@ == keys@[j as int]@ {
                lemma_lex_irreflexive(keys@[i as int]@);
            }
        }
        false
    } else {
        i < j
    }
}

/// Merges two runs of positions in key order that share no position into
/// one run in key order.
fn merge_by_key(keys: &Vec<Vec<usize>>, left: &Vec<usize>, right: &Vec<usize>) -> (out: Vec<usize>)
    requires
        forall|i: int| 0 <= i < left@.len() ==> left@[i] < keys@.len(),
        forall|j: int| 0 <= j < right@.len() ==> right@[j] < keys@.len(),
        in_key_order(key_views(keys@), left@),
        in_key_order(key_views(keys@), right@),
        forall|i: int, j: int|
            0 <= i < left@.len() && 0 <= j < right@.len() ==> left@[i] != right@[j],
    ensures
        in_key_order(key_views(keys@), out@),
        out@.len() == left@.len() + right@.len(),
        forall|x: usize| out@.contains(x) <==> left@.contains(x) || right@.contains(x),
{
    let ghost views = key_views(keys@);
    let mut out: Vec<usize> = Vec::new();
    let mut i: usize = 0;
    let mut j: usize = 0;
    while i < left.len() || j < right.len()
        invariant
            i <= left@.len(),
            j <= right@.len(),
            out@.len() == i + j,
            views == key_views(keys@),
            forall|a: int| 0 <= a < left@.len() ==> left@[a] < keys@.len(),
            forall|b: int| 0 <= b < right@.len() ==> right@[b] < keys@.len(),
            forall|k: int| 0 <= k < out@.len() ==> out@[k] < keys@.len(),
            in_key_order(views, left@),
            in_key_order(views, right@),
            forall|a: int, b: int|
                0 <= a < left@.len() && 0 <= b < right@.len() ==> left@[a] != right@[b],
            in_key_order(views, out@),
            forall|k: int, m: int|
                0 <= k < out@.len() && i <= m < left@.len() ==> key_before(
                    views[out@[k] as int],
                    out@[k] as int,
                    views[left@[m] as int],
                    left@[m] as int,
                ),
            forall|k: int, m: int|
                0 <= k < out@.len() && j <= m < right@.len() ==> key_before(
                    views[out@[k] as int],
                    out@[k] as int,
                    views[right@[m] as int],
                    right@[m] as int,
                ),
            forall|x: usize|
                out@.contains(x) <==> left@.take(i as int).contains(x) || right@.take(
                    j as int,
                ).contains(x),
        decreases left@.len() - i + right@.len() - j,
    {
        let ghost before = out@;
        let from_left = if j == right.len() {
            true
        } else if i == left.len() {
            false
        } else {
            stands_first(keys, left[i], right[j])
        };
        if from_left {
            let next = left[i];
            out.push(next);
            proof {
                assert(left@.take(i + 1) =~= left@.take(i as int).push(next));
                assert forall|k: int, m: int|
                    0 <= k < out@.len() && j <= m < right@.len() implies key_before(
                    views[out@[k] as int],
                    out@[k] as int,
                    views[right@[m] as int],
                    right@[m] as int,
                ) by {
                    if k == before.len() && j < m {
                        lemma_key_before_is_an_order(
                            views[next as int],
                            next as int,
                            views[right@[j as int] as int],
                            right@[j as int] as int,
                            views[right@[m] as int],
                            right@[m] as int,
                        );
                    }
                }
                assert forall|x: usize|
                    out@.contains(x) <==> left@.take(i + 1).contains(x) || right@.take(
                        j as int,
                    ).contains(x) by {
                    lemma_holds_after_push(before, next, x);
                    lemma_holds_after_push(left@.take(i as int), next, x);
                }
            }
            i += 1;
        } else {
            let next = right[j];
            out.push(next);
            proof {
                assert(right@.take(j + 1) =~= right@.take(j as int).push(next));
                assert forall|k: int, m: int|
                    0 <= k < out@.len() && i <= m < left@.len() implies key_before(
                    views[out@[k] as int],
                    out@[k] as int,
                    views[left@[m] as int],
                    left@[m] as int,
                ) by {
                    if k == before.len() {
                        let first = left@[i as int];
                        assert(first != next);
                        lemma_key_before_is_an_order(
                            views[next as int],
                            next as int,
                            views[first as int],
                            first as int,
                            views[left@[m] as int],
                            left@[m] as int,
                        );
                    }
                }
                assert forall|x: usize|
                    out@.contains(x) <==> left@.take(i as int).contains(x) || right@.take(
                        j + 1,
                    ).contains(x) by {
                    lemma_holds_after_push(before, next, x);
                    lemma_holds_after_push(right@.take(j as int), next, x);
                }
            }
            j += 1;
        }
    }
    proof {
        assert(left@.take(i as int) =~= left@);
        assert(right@.take(j as int) =~= right@);
    }
    out
}

/// A sequence with one more element holds what it held before and that
/// element.
proof fn lemma_holds_after_push(s: Seq<usize>, last: usize, x: usize)
    ensures
        s.push(last).contains(x) <==> s.contains(x) || x == last,
{
    if s.contains(x) {
        let i = choose|i: int| 0 <= i < s.len() && s[i] == x;
        assert(s.push(last)[i] == x);
    }
    if x == last {
        assert(s.push(last)[s.len() as int] == x);
    }
}

/// The positions in key order. Each position must have a key, and no
/// position may be given twice.
pub fn sort_by_key(keys: &Vec<Vec<usize>>, positions: &[usize]) -> (sorted: Vec<usize>)
    requires
        positions@.no_duplicates(),
        forall|i: int| 0 <= i < positions@.len() ==> positions@[i] < keys@.len(),
    ensures
        in_key_order(key_views(keys@), sorted@),
        sorted@.len() == positions@.len(),
        forall|x: usize| sorted@.contains(x) <==> positions@.contains(x),
    decreases positions@.len(),
{
    if positions.len() <= 1 {
        return vstd::slice::slice_to_vec(positions);
    }
    let middle: usize = positions.len() / 2;
    let (front, back) = positions.split_at(middle);
    proof {
        assert(positions@ =~= front@ + back@);
        assert forall|i: int| 0 <= i < front@.len() implies front@[i] < keys@.len() by {
            assert(front@[i] == positions@[i]);
        }
        assert forall|i: int| 0 <= i < back@.len() implies back@[i] < keys@.len() by {
            assert(back@[i] == positions@[middle + i]);
        }
    }
    let left = sort_by_key(keys, front);
    let right = sort_by_key(keys, back);
    proof {
        assert forall|i: int| 0 <= i < left@.len() implies left@[i] < keys@.len() by {
            assert(left@.contains(left@[i]));
        }
        assert forall|j: int| 0 <= j < right@.len() implies right@[j] < keys@.len() by {
            assert(right@.contains(right@[j]));
        }
        assert forall|i: int, j: int| 0 <= i < left@.len() && 0 <= j < right@.len() implies left@[i]
            != right@[j] by {
            assert(left@.contains(left@[i]));
            assert(right@.contains(right@[j]));
        }
    }
    merge_by_key(keys, &left, &right)
}

} // verus!
