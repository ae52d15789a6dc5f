//! The tokenizer: a file name becomes the tokens of its stem and of its
//! extensions.
//!
//! The stem is what stands before the first `.`; it is cut into words at the
//! delimiters. Each segment after a `.` is an extension word. A word that
//! occurs more than once in one name is numbered in order of appearance.

use crate::posting::lemma_filter_take_next;
use vstd::prelude::*;
use vstd::string::*;

verus! {

/// A word together with the number of earlier occurrences of that word in
/// the same name.
#[derive(Debug)]
pub struct Token {
    pub word: String,
    pub occurrence: usize,
}

/// A token as the contracts see it: its word and its number.
pub type TokenView = (Seq<char>, nat);

impl View for Token {
    type V = TokenView;

    open spec fn view(&self) -> TokenView {
        (self.word@, self.occurrence as nat)
    }
}

impl Token {
    /// A copy of this token.
    pub fn duplicate(&self) -> (copy: Token)
        ensures
            copy == *self,
    {
        Token { word: self.word.clone(), occurrence: self.occurrence }
    }

    /// Whether two tokens have the same word and the same number.
    pub fn same_as(&self, other: &Token) -> (same: bool)
        ensures
            same == (self@ == other@),
    {
        self.occurrence == other.occurrence && self.word == other.word
    }
}

/// Why an index could not be built.
#[derive(Clone, Copy, Debug, PartialEq, Eq)]
pub enum BuildError {
    /// The name or the path of a directory entry is not text.
    NotText,
    /// The delimiters make a pattern that the pattern compiler refuses.
    PatternRefused,
}

/// The texts of a sequence of strings.
pub open spec fn texts(strings: Seq<String>) -> Seq<Seq<char>> {
    strings.map_values(|s: String| s@)
}

/// The views of a sequence of tokens.
pub open spec fn token_views(tokens: Seq<Token>) -> Seq<TokenView> {
    tokens.map_values(|t: Token| t@)
}

/// The characters that stand for something other than themselves in a
/// pattern.
pub open spec fn is_meta_character(c: char) -> bool {
    c == '\\' || c == '.' || c == '+' || c == '*' || c == '?' || c == '(' || c == ')' || c == '|'
        || c == '[' || c == ']' || c == '{' || c == '}' || c == '^' || c == '$' || c == '#' || c
        == '&' || c == '-' || c == '~'
}

/// The text with a backslash put before each of its meta characters.
pub open spec fn escaped(text: Seq<char>) -> Seq<char>
    decreases text.len(),
{
    if text.len() == 0 {
        Seq::empty()
    } else if is_meta_character(text.last()) {
        escaped(text.drop_last()).push('\\').push(text.last())
    } else {
        escaped(text.drop_last()).push(text.last())
    }
}

/// The pattern that matches any one of the delimiters: the escaped
/// delimiters, joined by `|`.
pub open spec fn delimiter_pattern(delimiters: Seq<Seq<char>>) -> Seq<char>
    decreases delimiters.len(),
{
    if delimiters.len() == 0 {
        Seq::empty()
    } else if delimiters.len() == 1 {
        escaped(delimiters[0])
    } else {
        delimiter_pattern(delimiters.drop_last()).push('|') + escaped(delimiters.last())
    }
}

/// The parts into which the matches of a pattern cut a text, as the `regex`
/// crate finds them.
pub uninterp spec fn regex_split(pattern: Seq<char>, haystack: Seq<char>) -> Seq<Seq<char>>;

/// The position of the first `c` in the text, or the length of the text
/// where it holds none.
pub open spec fn first_index_of(text: Seq<char>, c: char) -> int
    decreases text.len(),
{
    if text.len() == 0 || text[0] == c {
        0
    } else {
        1 + first_index_of(text.drop_first(), c)
    }
}

/// The segments of a text between the occurrences of `c`. There is always
/// at least one segment, and a segment may be empty.
pub open spec fn split_on(text: Seq<char>, c: char) -> Seq<Seq<char>>
    decreases text.len(),
{
    let k = first_index_of(text, c);
    if 0 <= k < text.len() {
        seq![text.take(k)] + split_on(text.skip(k + 1), c)
    } else {
        seq![text]
    }
}

/// What stands before the first `.` of a name.
pub open spec fn stem_of(name: Seq<char>) -> Seq<char> {
    split_on(name, '.')[0]
}

/// The segments after the first `.` of a name, each taken by itself; none
/// where the name holds no `.`.
pub open spec fn extension_words(name: Seq<char>) -> Seq<Seq<char>> {
    split_on(name, '.').drop_first()
}

/// The parts that are not empty.
pub open spec fn nonempty_parts(parts: Seq<Seq<char>>) -> Seq<Seq<char>> {
    parts.filter(|part: Seq<char>| part.len() > 0)
}

/// How often `word` occurs among `words`.
pub open spec fn occurrences(words: Seq<Seq<char>>, word: Seq<char>) -> nat
    decreases words.len(),
{
    if words.len() == 0 {
        0
    } else if words.last() == word {
        occurrences(words.drop_last(), word) + 1
    } else {
        occurrences(words.drop_last(), word)
    }
}

/// Each word with the number of its earlier occurrences.
pub open spec fn numbered(words: Seq<Seq<char>>) -> Seq<TokenView> {
    Seq::new(words.len(), |i: int| (words[i], occurrences(words.take(i), words[i])))
}

/// The stem-word tokens of a name, given the parts into which the
/// delimiters cut its stem.
pub open spec fn stem_tokens_of_parts(parts: Seq<Seq<char>>) -> Seq<TokenView> {
    numbered(nonempty_parts(parts))
}

/// The parts into which the delimiters cut a stem. Without delimiters the
/// stem is left whole; otherwise the `regex` crate cuts it with the pattern
/// of the delimiters.
pub open spec fn stem_parts(delimiters: Seq<Seq<char>>, stem: Seq<char>) -> Seq<Seq<char>> {
    if delimiters.len() == 0 {
        seq![stem]
    } else {
        regex_split(delimiter_pattern(delimiters), stem)
    }
}

/// The stem-word tokens of a name under the delimiters.
pub open spec fn stem_tokens(delimiters: Seq<Seq<char>>, name: Seq<char>) -> Seq<TokenView> {
    stem_tokens_of_parts(stem_parts(delimiters, stem_of(name)))
}

/// The extension tokens of a name.
pub open spec fn extension_tokens(name: Seq<char>) -> Seq<TokenView> {
    numbered(extension_words(name))
}

/// A position before which no `c` stands, and at which a `c` stands where it
/// is inside the text, is the position that `first_index_of` gives.
proof fn lemma_first_index_of_is(text: Seq<char>, c: char, k: int)
    requires
        0 <= k <= text.len(),
        forall|i: int| 0 <= i < k ==> text[i] != c,
        k < text.len() ==> text[k] == c,
    ensures
        first_index_of(text, c) == k,
    decreases text.len(),
{
    if k > 0 {
        let rest = text.drop_first();
        lemma_first_index_of_is(rest, c, k - 1);
    }
}

/// Every number below the number of a token of `numbered(words)` belongs to
/// an earlier token of the same word: the numbers of a word are `0..k`
/// without a gap.
pub proof fn lemma_numbered_contiguous(words: Seq<Seq<char>>, i: int, k: nat)
    requires
        0 <= i < words.len(),
        k < numbered(words)[i].1,
    ensures
        exists|j: int| 0 <= j < i && #[trigger] numbered(words)[j] == (words[i], k),
    decreases i,
{
    let word = words[i];
    let before = words.take(i);
    assert(before.drop_last() =~= words.take(i - 1));
    if before.last() == word && occurrences(words.take(i - 1), word) == k {
        assert(numbered(words)[i - 1] == (word, k));
    } else {
        let shorter = words.take(i - 1).push(word);
        assert(shorter.take(i - 1) =~= words.take(i - 1));
        lemma_numbered_contiguous(shorter, i - 1, k);
        let j = choose|j: int| 0 <= j < i - 1 && #[trigger] numbered(shorter)[j] == (word, k);
        assert(shorter.take(j) =~= words.take(j));
        assert(numbered(words)[j] == (word, k));
    }
}

/// No token occurs twice in `numbered(words)`.
pub proof fn lemma_numbered_distinct(words: Seq<Seq<char>>)
    ensures
        numbered(words).no_duplicates(),
{
    assert forall|i: int, j: int|
        0 <= i < j < words.len() && numbered(words)[i] == numbered(words)[j] implies false by {
        lemma_occurrences_grow(words, i, j);
    }
}

/// Between two occurrences of a word the count of its earlier occurrences
/// grows.
proof fn lemma_occurrences_grow(words: Seq<Seq<char>>, i: int, j: int)
    requires
        0 <= i < j <= words.len(),
    ensures
        occurrences(words.take(i), words[i]) + 1 <= occurrences(words.take(j), words[i]),
    decreases j - i,
{
    assert(words.take(j).drop_last() =~= words.take(j - 1));
    if j > i + 1 {
        lemma_occurrences_grow(words, i, j - 1);
    }
}

/// The characters of a text.
fn chars_of(text: &str) -> (out: Vec<char>)
    ensures
        out@ == text@,
{
    let mut out: Vec<char> = Vec::new();
    for c in it: text.chars()
        invariant
            out@ == it.seq().take(it.index() as int),
            it.seq() == text@,
    {
        out.push(c);
    }
    out
}

/// The position of the first `c` at or after `start`, or the length of the
/// text where none follows.
fn find_char(chars: &Vec<char>, start: usize, c: char) -> (k: usize)
    requires
        start <= chars@.len(),
    ensures
        start <= k <= chars@.len(),
        k - start == first_index_of(chars@.skip(start as int), c),
{
    let mut k: usize = start;
    while k < chars.len() && chars[k] != c
        invariant
            start <= k <= chars@.len(),
            forall|i: int| start <= i < k ==> chars@[i] != c,
        decreases chars@.len() - k,
    {
        k += 1;
    }
    proof {
        lemma_first_index_of_is(chars@.skip(start as int), c, k - start);
    }
    k
}

/// The segments of a name between its dots.
pub fn split_at_dots(name: &str) -> (segments: Vec<String>)
    ensures
        texts(segments@) == split_on(name@, '.'),
{
    let chars = chars_of(name);
    let n: usize = chars.len();
    let mut segments: Vec<String> = Vec::new();
    let mut start: usize = 0;
    proof {
        assert(chars@.skip(0) =~= chars@);
    }
    loop
        invariant_except_break
            start <= n,
            texts(segments@) + split_on(chars@.skip(start as int), '.') == split_on(chars@, '.'),
        invariant
            n == chars@.len(),
            chars@ == name@,
        ensures
            texts(segments@) == split_on(name@, '.'),
        decreases n - start,
    {
        let k = find_char(&chars, start, '.');
        let segment = name.substring_char(start, k).to_owned();
        let ghost rest = chars@.skip(start as int);
        segments.push(segment);
        proof {
            assert(rest.take(k - start) =~= chars@.subrange(start as int, k as int));
        }
        if k >= n {
            break;
        }
        proof {
            assert(rest.skip(k - start + 1) =~= chars@.skip(k + 1));
        }
        start = k + 1;
    }
    segments
}

/// Numbers each word by its earlier occurrences among the words.
pub fn number_occurrences(words: &Vec<String>) -> (tokens: Vec<Token>)
    ensures
        token_views(tokens@) == numbered(texts(words@)),
{
    let ghost all = texts(words@);
    let mut tokens: Vec<Token> = Vec::new();
    let mut i: usize = 0;
    while i < words.len()
        invariant
            i <= words@.len(),
            all == texts(words@),
            tokens@.len() == i,
            forall|m: int| 0 <= m < i ==> (#[trigger] tokens@[m])@ == numbered(all)[m],
        decreases words@.len() - i,
    {
        let mut count: usize = 0;
        let mut j: usize = 0;
        while j < i
            invariant
                j <= i < words@.len(),
                all == texts(words@),
                count <= j,
                count == occurrences(all.take(j as int), all[i as int]),
            decreases i - j,
        {
            proof {
                assert(all.take(j + 1).drop_last() =~= all.take(j as int));
            }
            if words[j] == words[i] {
                count += 1;
            }
            j += 1;
        }
        tokens.push(Token { word: words[i].clone(), occurrence: count });
        i += 1;
    }
    tokens
}

/// The stem-word tokens that the parts of a stem give: the empty parts are
/// dropped and the others numbered.
pub fn word_tokens(parts: &Vec<String>) -> (tokens: Vec<Token>)
    ensures
        token_views(tokens@) == stem_tokens_of_parts(texts(parts@)),
{
    let ghost all = texts(parts@);
    let ghost keep = |part: Seq<char>| part.len() > 0;
    let mut words: Vec<String> = Vec::new();
    let mut i: usize = 0;
    while i < parts.len()
        invariant
            i <= parts@.len(),
            all == texts(parts@),
            keep == (|part: Seq<char>| part.len() > 0),
            texts(words@) == all.take(i as int).filter(keep),
        decreases parts@.len() - i,
    {
        proof {
            lemma_filter_take_next(all, i as int, keep);
        }
        if !parts[i].as_str().is_empty() {
            let word = parts[i].clone();
            words.push(word);
        }
        i += 1;
    }
    proof {
        assert(all.take(i as int) =~= all);
    }
    number_occurrences(&words)
}

/// The tokens of the names along a directory chain, one for each name,
/// numbered where a name repeats.
pub fn directory_tokens(chain: &Vec<String>) -> (tokens: Vec<Token>)
    ensures
        token_views(tokens@) == numbered(texts(chain@)),
{
    number_occurrences(chain)
}

/// The error with which the `regex` crate refuses a pattern; nothing is
/// known of what it holds.
#[verifier::external_type_specification]
#[verifier::external_body]
pub struct ExPatternError(regex::Error);

/// Calls `regex::escape`, which copies the text and puts a backslash before
/// each character for which `regex_syntax::is_meta_character` holds.
#[verifier::external_body]
fn escape(text: &str) -> (quoted: String)
    ensures
        quoted@ == escaped(text@),
{
    regex::escape(text)
}

/// A pattern as the `regex` crate compiles it; nothing is seen of what it
/// holds.
#[verifier::external_type_specification]
#[verifier::external_body]
pub struct ExCompiledPattern(regex::Regex);

/// The pattern from which `regex::Regex::new` made the compiled pattern,
/// which is what `Regex::as_str` gives for it; `None` for a compiled
/// pattern that was made in another way.
pub uninterp spec fn pattern_of(compiled: regex::Regex) -> Option<Seq<char>>;

/// Calls `regex::Regex::new`. Where the crate accepts the pattern, the
/// compiled pattern is made from this pattern; where it refuses it, its
/// error comes back and nothing is claimed.
#[verifier::external_body]
fn compile(pattern: &str) -> (outcome: Result<regex::Regex, regex::Error>)
    ensures
        outcome matches Ok(compiled) ==> pattern_of(compiled) == Some(pattern@),
{
    regex::Regex::new(pattern)
}

/// Calls `Regex::split` on a pattern that `Regex::new` compiled: the parts
/// are those that the crate finds for that pattern and this text.
#[verifier::external_body]
fn split_by_pattern(compiled: &regex::Regex, haystack: &str) -> (parts: Vec<String>)
    requires
        pattern_of(*compiled) is Some,
    ensures
        texts(parts@) == regex_split(pattern_of(*compiled)->0, haystack@),
{
    compiled.split(haystack).map(|part| part.to_owned()).collect()
}

/// The delimiters at which stems are cut into words, together with the
/// pattern that matches any one of them, compiled once.
pub struct Delimiters {
    delimiters: Vec<String>,
    pattern: String,
    compiled: Option<regex::Regex>,
}

impl View for Delimiters {
    type V = Seq<Seq<char>>;

    closed spec fn view(&self) -> Seq<Seq<char>> {
        texts(self.delimiters@)
    }
}

impl Delimiters {
    #[verifier::type_invariant]
    spec fn pattern_is_of_delimiters(self) -> bool {
        &&& self.pattern@ == delimiter_pattern(texts(self.delimiters@))
        &&& self.delimiters@.len() > 0 ==> self.compiled is Some && pattern_of(self.compiled->0)
            == Some(self.pattern@)
    }

    /// The given delimiters, with their pattern compiled. The only failure
    /// is that the `regex` crate refuses the pattern, and without
    /// delimiters it is not asked.
    pub fn new(delimiters: &Vec<String>) -> (outcome: Result<Delimiters, BuildError>)
        ensures
            outcome matches Ok(made) ==> made@ == texts(delimiters@),
            outcome matches Err(e) ==> e == BuildError::PatternRefused,
            delimiters@.len() == 0 ==> outcome is Ok,
    {
        let ghost all = texts(delimiters@);
        let mut kept: Vec<String> = Vec::new();
        let mut pattern = String::new();
        let mut i: usize = 0;
        while i < delimiters.len()
            invariant
                i <= delimiters@.len(),
                all == texts(delimiters@),
                texts(kept@) == all.take(i as int),
                pattern@ == delimiter_pattern(all.take(i as int)),
            decreases delimiters@.len() - i,
        {
            proof {
                assert(all.take(i + 1).drop_last() =~= all.take(i as int));
                reveal_strlit("|");
            }
            if i > 0 {
                pattern.append("|");
            }
            let quoted = escape(delimiters[i].as_str());
            pattern.append(quoted.as_str());
            kept.push(delimiters[i].clone());
            i += 1;
        }
        proof {
            assert(all.take(i as int) =~= all);
        }
        if kept.len() == 0 {
            return Ok(Delimiters { delimiters: kept, pattern, compiled: None });
        }
        match compile(pattern.as_str()) {
            Ok(compiled) => Ok(Delimiters { delimiters: kept, pattern, compiled: Some(compiled) }),
            Err(_) => Err(BuildError::PatternRefused),
        }
    }

    /// The parts into which the delimiters cut a stem.
    fn split(&self, stem: &String) -> (parts: Vec<String>)
        ensures
            texts(parts@) == stem_parts(self@, stem@),
    {
        proof {
            use_type_invariant(self);
        }
        match &self.compiled {
            Some(compiled) => {
                if self.delimiters.len() > 0 {
                    return split_by_pattern(compiled, stem.as_str());
                }
            },
            None => {},
        }
        let mut parts: Vec<String> = Vec::new();
        parts.push(stem.clone());
        parts
    }
}

/// The tokens of one file name.
pub struct NameTokens {
    pub stem_words: Vec<Token>,
    pub extensions: Vec<Token>,
}

impl NameTokens {
    /// These are the tokens of `name` under the delimiters.
    pub open spec fn describes(&self, delimiters: Seq<Seq<char>>, name: Seq<char>) -> bool {
        &&& token_views(self.stem_words@) == stem_tokens(delimiters, name)
        &&& token_views(self.extensions@) == extension_tokens(name)
    }
}

/// Tokenizes a file name: the stem is cut at the delimiters and its words
/// are numbered; so are the extension words.
pub fn tokenize_name(name: &str, delimiters: &Delimiters) -> (tokens: NameTokens)
    ensures
        tokens.describes(delimiters@, name@),
{
    let mut segments = split_at_dots(name);
    let suffixes = segments.split_off(1);
    proof {
        assert(texts(suffixes@) =~= extension_words(name@));
    }
    let parts = delimiters.split(&segments[0]);
    NameTokens { stem_words: word_tokens(&parts), extensions: number_occurrences(&suffixes) }
}

/// Two tokenizations of one name under the same delimiters hold the same
/// tokens.
pub proof fn lemma_tokens_determined(
    first: NameTokens,
    second: NameTokens,
    delimiters: Seq<Seq<char>>,
    name: Seq<char>,
)
    requires
        first.describes(delimiters, name),
        second.describes(delimiters, name),
    ensures
        token_views(first.stem_words@) == token_views(second.stem_words@),
        token_views(first.extensions@) == token_views(second.extensions@),
        token_views(first.stem_words@).to_multiset() == token_views(
            second.stem_words@,
        ).to_multiset(),
        token_views(first.extensions@).to_multiset() == token_views(
            second.extensions@,
        ).to_multiset(),
{
}

} // verus!
