//! The directory indexer: from the listing of a directory tree to a tree of
//! directories, each with the files of its whole subtree and, for every
//! token, the files of the subtree that carry it.
//!
//! A directory lists its own files first and then the files of each
//! sub-directory, in order. A posting names files by their positions in that
//! list, so the postings of a sub-directory enter its parent shifted by the
//! number of files that precede them there.

use crate::posting::strictly_increasing;
use crate::tokenizer::{
    extension_tokens, extension_words, lemma_numbered_distinct, nonempty_parts, stem_of,
    stem_parts, stem_tokens, token_views, tokenize_name, BuildError, Delimiters, Token,
    TokenView,
};
use vstd::prelude::*;

verus! {

/// One file of a listing: its path and its name, each `None` where it is not
/// text.
pub struct FileEntry {
    pub path: Option<String>,
    pub name: Option<String>,
}

/// What a walk found in one directory: its name (`None` where it is not
/// text), its plain files and its sub-directories.
pub struct DirListing {
    pub name: Option<String>,
    pub files: Vec<FileEntry>,
    pub sub_dirs: Vec<DirListing>,
}

/// One discovered file.
#[derive(Debug)]
pub struct File {
    pub path: String,
    pub stem_word_tokens: Vec<Token>,
    pub ext_tokens: Vec<Token>,
    pub num_files_in_dir: usize,
}

/// A file as the contracts see it.
pub struct FileView {
    pub path: Seq<char>,
    pub stem_word_tokens: Seq<TokenView>,
    pub ext_tokens: Seq<TokenView>,
    pub num_files_in_dir: nat,
}

impl View for File {
    type V = FileView;

    open spec fn view(&self) -> FileView {
        FileView {
            path: self.path@,
            stem_word_tokens: token_views(self.stem_word_tokens@),
            ext_tokens: token_views(self.ext_tokens@),
            num_files_in_dir: self.num_files_in_dir as nat,
        }
    }
}

/// A token and the files that carry it, as increasing positions in the file
/// list of the directory that holds the posting.
#[derive(Debug)]
pub struct TokenFiles {
    pub token: Token,
    pub files: Vec<usize>,
}

/// One directory of the index.
#[derive(Debug)]
pub struct Directory {
    pub files: Vec<File>,
    pub name: String,
    pub sub_dirs: Vec<Directory>,
    pub stem_word_tokens: Vec<TokenFiles>,
    pub ext_tokens: Vec<TokenFiles>,
}

/// The views of a sequence of files.
pub open spec fn file_views(files: Seq<File>) -> Seq<FileView> {
    files.map_values(|f: File| f@)
}

/// The stem-word tokens of each file.
pub open spec fn stem_lists(files: Seq<FileView>) -> Seq<Seq<TokenView>> {
    files.map_values(|f: FileView| f.stem_word_tokens)
}

/// The extension tokens of each file.
pub open spec fn ext_lists(files: Seq<FileView>) -> Seq<Seq<TokenView>> {
    files.map_values(|f: FileView| f.ext_tokens)
}

/// The positions, each moved up by `offset`.
pub open spec fn shifted(positions: Seq<usize>, offset: int) -> Seq<usize> {
    positions.map_values(|p: usize| (p + offset) as usize)
}

/// The positions of the token lists that hold `token`, in increasing order.
pub open spec fn positions_with(lists: Seq<Seq<TokenView>>, token: TokenView) -> Seq<
    usize,
>
    decreases lists.len(),
{
    if lists.len() == 0 {
        Seq::empty()
    } else if lists.last().contains(token) {
        positions_with(lists.drop_last(), token).push((lists.len() - 1) as usize)
    } else {
        positions_with(lists.drop_last(), token)
    }
}

/// The files that the postings give for `token`: those of the last entry
/// for it, and none where there is no entry.
pub open spec fn posting_of(entries: Seq<TokenFiles>, token: TokenView) -> Seq<usize>
    decreases entries.len(),
{
    if entries.len() == 0 {
        Seq::empty()
    } else if entries.last().token@ == token {
        entries.last().files@
    } else {
        posting_of(entries.drop_last(), token)
    }
}

/// No two entries are for the same token.
pub open spec fn distinct_tokens(entries: Seq<TokenFiles>) -> bool {
    forall|a: int, b: int|
        0 <= a < b < entries.len() ==> (#[trigger] entries[a]).token@ != (
        #[trigger] entries[b]).token@
}

/// Every entry names at least one file.
pub open spec fn no_empty_posting(entries: Seq<TokenFiles>) -> bool {
    forall|a: int| 0 <= a < entries.len() ==> (#[trigger] entries[a]).files@.len() > 0
}

/// The tokens of the entries, in the order of the entries.
pub open spec fn entry_tokens(entries: Seq<TokenFiles>) -> Seq<TokenView> {
    entries.map_values(|e: TokenFiles| e.token@)
}

/// The tokens `seen`, followed by those of `more` that are not among them,
/// each once and in the order in which it first appears.
pub open spec fn extended(seen: Seq<TokenView>, more: Seq<TokenView>) -> Seq<TokenView>
    decreases more.len(),
{
    if more.len() == 0 {
        seen
    } else if extended(seen, more.drop_last()).contains(more.last()) {
        extended(seen, more.drop_last())
    } else {
        extended(seen, more.drop_last()).push(more.last())
    }
}

/// The tokens, each once and in the order in which it first appears.
pub open spec fn first_appearances(tokens: Seq<TokenView>) -> Seq<TokenView> {
    extended(Seq::empty(), tokens)
}

/// The postings are the inverted index of the token lists: one entry for
/// each token that some list holds, naming exactly the lists that hold it;
/// the entries stand in the order in which their tokens first appear in the
/// lists.
pub open spec fn is_inverted_index(
    entries: Seq<TokenFiles>,
    lists: Seq<Seq<TokenView>>,
) -> bool {
    &&& distinct_tokens(entries)
    &&& no_empty_posting(entries)
    &&& entry_tokens(entries) == first_appearances(lists.flatten())
    &&& forall|token: TokenView| #[trigger]
        posting_of(entries, token) == positions_with(lists, token)
}

/// The files of the given directories, one directory after the other.
pub open spec fn subtree_files(dirs: Seq<Directory>) -> Seq<FileView>
    decreases dirs.len(),
{
    if dirs.len() == 0 {
        Seq::empty()
    } else {
        subtree_files(dirs.drop_last()) + file_views(dirs.last().files@)
    }
}

/// The file carries no stem-word token twice and no extension token twice.
pub open spec fn tokens_once(file: FileView) -> bool {
    file.stem_word_tokens.no_duplicates() && file.ext_tokens.no_duplicates()
}

/// The file is what the tokenizer makes of the entry, in a directory with
/// `siblings` files.
pub open spec fn describes_file(
    file: FileView,
    entry: FileEntry,
    delimiters: Seq<Seq<char>>,
    siblings: nat,
) -> bool {
    &&& entry.path is Some
    &&& entry.name is Some
    &&& file.path == entry.path->0@
    &&& file.stem_word_tokens == stem_tokens(delimiters, entry.name->0@)
    &&& file.ext_tokens == extension_tokens(entry.name->0@)
    &&& file.num_files_in_dir == siblings
}

impl FileEntry {
    /// Both the path and the name are text.
    pub open spec fn is_text(&self) -> bool {
        self.path is Some && self.name is Some
    }
}

impl DirListing {
    /// Every name and every path in the listing is text.
    pub open spec fn is_text(&self) -> bool
        decreases self,
    {
        &&& self.name is Some
        &&& forall|i: int| 0 <= i < self.files@.len() ==> (#[trigger] self.files@[i]).is_text()
        &&& forall|k: int|
            0 <= k < self.sub_dirs@.len() ==> (#[trigger] self.sub_dirs@[k]).is_text()
    }

    /// Whether every name and every path in the listing is text.
    pub fn check_text(&self) -> (ok: bool)
        ensures
            ok == self.is_text(),
        decreases self,
    {
        if self.name.is_none() {
            return false;
        }
        let mut i: usize = 0;
        while i < self.files.len()
            invariant
                i <= self.files@.len(),
                forall|m: int| 0 <= m < i ==> (#[trigger] self.files@[m]).is_text(),
            decreases self.files@.len() - i,
        {
            if self.files[i].path.is_none() || self.files[i].name.is_none() {
                return false;
            }
            i += 1;
        }
        let mut k: usize = 0;
        while k < self.sub_dirs.len()
            invariant
                k <= self.sub_dirs@.len(),
                forall|m: int| 0 <= m < k ==> (#[trigger] self.sub_dirs@[m]).is_text(),
            decreases self.sub_dirs@.len() - k,
        {
            if !self.sub_dirs[k].check_text() {
                return false;
            }
            k += 1;
        }
        true
    }
}

impl File {
    /// A copy of this file.
    pub fn duplicate(&self) -> (copy: File)
        ensures
            copy@ == self@,
    {
        let stem_word_tokens = duplicate_tokens(&self.stem_word_tokens);
        let ext_tokens = duplicate_tokens(&self.ext_tokens);
        File {
            path: self.path.clone(),
            stem_word_tokens,
            ext_tokens,
            num_files_in_dir: self.num_files_in_dir,
        }
    }
}

/// A copy of the tokens.
fn duplicate_tokens(tokens: &Vec<Token>) -> (copy: Vec<Token>)
    ensures
        copy@ == tokens@,
{
    let mut copy: Vec<Token> = Vec::new();
    let mut i: usize = 0;
    while i < tokens.len()
        invariant
            i <= tokens@.len(),
            copy@ == tokens@.take(i as int),
        decreases tokens@.len() - i,
    {
        copy.push(tokens[i].duplicate());
        i += 1;
    }
    copy
}

impl Directory {
    /// The number of files that stand in this directory itself.
    pub open spec fn own_count(&self) -> int {
        self.files@.len() - subtree_files(self.sub_dirs@).len()
    }

    /// The directory is well formed: its file list is its own files
    /// followed by the files of its sub-directories, each own file knows
    /// how many they are, no file carries a token twice, its postings are
    /// the inverted index of its file list, and its sub-directories are
    /// well formed.
    pub open spec fn wf(&self) -> bool
        decreases self,
    {
        &&& 0 <= self.own_count()
        &&& file_views(self.files@).skip(self.own_count()) == subtree_files(self.sub_dirs@)
        &&& forall|i: int|
            0 <= i < self.own_count() ==> (#[trigger] self.files@[i]).num_files_in_dir
                == self.own_count()
        &&& forall|i: int| 0 <= i < self.files@.len() ==> tokens_once((#[trigger] self.files@[i])@)
        &&& is_inverted_index(self.stem_word_tokens@, stem_lists(file_views(self.files@)))
        &&& is_inverted_index(self.ext_tokens@, ext_lists(file_views(self.files@)))
        &&& forall|k: int| 0 <= k < self.sub_dirs@.len() ==> (#[trigger] self.sub_dirs@[k]).wf()
    }

    /// The directory is the index of the listing under the delimiters: it has
    /// the listing's name, its own files are the listing's files, tokenized,
    /// and its sub-directories are the indexes of the listing's
    /// sub-directories, in order.
    pub open spec fn describes(&self, listing: &DirListing, delimiters: Seq<Seq<char>>) -> bool
        decreases self,
    {
        &&& listing.name is Some
        &&& self.name@ == listing.name->0@
        &&& self.own_count() == listing.files@.len()
        &&& forall|i: int|
            0 <= i < listing.files@.len() ==> describes_file(
                (#[trigger] self.files@[i])@,
                listing.files@[i],
                delimiters,
                listing.files@.len(),
            )
        &&& self.sub_dirs@.len() == listing.sub_dirs@.len()
        &&& forall|k: int|
            0 <= k < self.sub_dirs@.len() ==> (#[trigger] self.sub_dirs@[k]).describes(
                &listing.sub_dirs@[k],
                delimiters,
            )
    }
}

/// The positions that hold a token are increasing positions of the lists,
/// and they are exactly the positions of the lists that hold it.
pub proof fn lemma_positions_with(lists: Seq<Seq<TokenView>>, token: TokenView)
    requires
        lists.len() <= usize::MAX,
    ensures
        strictly_increasing(positions_with(lists, token)),
        positions_with(lists, token).len() <= lists.len(),
        forall|p: usize|
            positions_with(lists, token).contains(p) <==> (p < lists.len() && lists[p as int].contains(
                token,
            )),
    decreases lists.len(),
{
    if lists.len() > 0 {
        let front = lists.drop_last();
        lemma_positions_with(front, token);
        let before = positions_with(front, token);
        let all = positions_with(lists, token);
        let last = (lists.len() - 1) as usize;
        assert forall|p: usize| all.contains(p) <==> (p < lists.len() && lists[p as int].contains(
            token,
        )) by {
            if all.contains(p) {
                let i = choose|i: int| 0 <= i < all.len() && all[i] == p;
                if i < before.len() {
                    assert(before.contains(p));
                }
            }
            if p < lists.len() && lists[p as int].contains(token) {
                if p == last {
                    assert(all[all.len() - 1] == p);
                } else {
                    assert(before.contains(p));
                    let i = choose|i: int| 0 <= i < before.len() && before[i] == p;
                    assert(all[i] == p);
                }
            }
        }
        assert forall|i: int, j: int| 0 <= i < j < all.len() implies all[i] < all[j] by {
            assert(before.contains(before[i]));
        }
    }
}

/// The positions that hold a token in two runs of lists put together are
/// those of the first run followed by those of the second, shifted past the
/// first.
pub proof fn lemma_positions_with_concat(
    first: Seq<Seq<TokenView>>,
    second: Seq<Seq<TokenView>>,
    token: TokenView,
)
    requires
        first.len() + second.len() <= usize::MAX,
    ensures
        positions_with(first + second, token) == positions_with(first, token) + shifted(
            positions_with(second, token),
            first.len() as int,
        ),
    decreases second.len(),
{
    if second.len() > 0 {
        let front = second.drop_last();
        lemma_positions_with_concat(first, front, token);
        assert((first + second).drop_last() =~= first + front);
    }
}

/// Where no entry is for the token, the postings give no file for it.
pub proof fn lemma_posting_of_absent(entries: Seq<TokenFiles>, token: TokenView)
    requires
        forall|a: int| 0 <= a < entries.len() ==> (#[trigger] entries[a]).token@ != token,
    ensures
        posting_of(entries, token) == Seq::<usize>::empty(),
    decreases entries.len(),
{
    if entries.len() > 0 {
        let front = entries.drop_last();
        lemma_posting_of_absent(front, token);
    }
}

/// Where the entries are for distinct tokens, the postings give for the
/// token of an entry the files of that entry.
pub proof fn lemma_posting_of_entry(entries: Seq<TokenFiles>, e: int)
    requires
        distinct_tokens(entries),
        0 <= e < entries.len(),
    ensures
        posting_of(entries, entries[e].token@) == entries[e].files@,
    decreases entries.len(),
{
    if e < entries.len() - 1 {
        let front = entries.drop_last();
        lemma_posting_of_entry(front, e);
    }
}

/// Two runs of entries for the same tokens give the same files for a token
/// where their entries for that token name the same files.
proof fn lemma_posting_of_same(
    first: Seq<TokenFiles>,
    second: Seq<TokenFiles>,
    token: TokenView,
)
    requires
        first.len() == second.len(),
        forall|a: int| 0 <= a < first.len() ==> (#[trigger] first[a]).token@ == second[a].token@,
        forall|a: int|
            0 <= a < first.len() && (#[trigger] first[a]).token@ == token ==> first[a].files@
                == second[a].files@,
    ensures
        posting_of(first, token) == posting_of(second, token),
    decreases first.len(),
{
    if first.len() > 0 {
        let f = first.drop_last();
        let s = second.drop_last();
        lemma_posting_of_same(f, s, token);
    }
}

/// Every file that the postings of an inverted index name is a position of
/// the lists.
pub proof fn lemma_inverted_index_bounds(
    entries: Seq<TokenFiles>,
    lists: Seq<Seq<TokenView>>,
    e: int,
)
    requires
        is_inverted_index(entries, lists),
        lists.len() <= usize::MAX,
        0 <= e < entries.len(),
    ensures
        strictly_increasing(entries[e].files@),
        entries[e].files@ == positions_with(lists, entries[e].token@),
        forall|j: int| 0 <= j < entries[e].files@.len() ==> entries[e].files@[j] < lists.len(),
{
    lemma_posting_of_entry(entries, e);
    let token = entries[e].token@;
    lemma_positions_with(lists, token);
    assert forall|j: int| 0 <= j < entries[e].files@.len() implies entries[e].files@[j]
        < lists.len() by {
        assert(positions_with(lists, token).contains(entries[e].files@[j]));
    }
}

/// A token is among the extended tokens exactly where it was seen before
/// or is one of the further tokens.
pub proof fn lemma_extended_contains(seen: Seq<TokenView>, more: Seq<TokenView>, token: TokenView)
    ensures
        extended(seen, more).contains(token) <==> seen.contains(token) || more.contains(token),
    decreases more.len(),
{
    if more.len() > 0 {
        let front = more.drop_last();
        lemma_extended_contains(seen, front, token);
        let so_far = extended(seen, front);
        if more.contains(token) {
            let i = choose|i: int| 0 <= i < more.len() && more[i] == token;
            if i < front.len() {
                assert(front[i] == token);
            } else {
                if !so_far.contains(more.last()) {
                    assert(so_far.push(more.last())[so_far.len() as int] == token);
                }
            }
        }
        if so_far.contains(token) && !so_far.contains(more.last()) {
            let i = choose|i: int| 0 <= i < so_far.len() && so_far[i] == token;
            assert(so_far.push(more.last())[i] == token);
        }
    }
}

/// Extending by one token appends it unless it was seen before.
pub proof fn lemma_extended_by_one(seen: Seq<TokenView>, token: TokenView)
    ensures
        extended(seen, seq![token]) == if seen.contains(token) {
            seen
        } else {
            seen.push(token)
        },
{
    reveal_with_fuel(extended, 2);
}

/// Extending by two runs of tokens is extending by the one and then by the
/// other.
pub proof fn lemma_extended_concat(
    seen: Seq<TokenView>,
    first: Seq<TokenView>,
    second: Seq<TokenView>,
)
    ensures
        extended(seen, first + second) == extended(extended(seen, first), second),
    decreases second.len(),
{
    if second.len() > 0 {
        lemma_extended_concat(seen, first, second.drop_last());
        assert((first + second).drop_last() =~= first + second.drop_last());
    }
}

/// Extending by the first appearances of a run of tokens is extending by
/// the run.
pub proof fn lemma_extended_by_first_appearances(seen: Seq<TokenView>, more: Seq<TokenView>)
    ensures
        extended(seen, first_appearances(more)) == extended(seen, more),
    decreases more.len(),
{
    if more.len() > 0 {
        let front = more.drop_last();
        let last = more.last();
        let once = first_appearances(front);
        lemma_extended_by_first_appearances(seen, front);
        lemma_extended_contains(seen, once, last);
        if !once.contains(last) {
            assert(once.push(last).drop_last() =~= once);
        }
    }
}

/// The tokens of the entries hold a token exactly where an entry is for
/// it.
proof fn lemma_entry_tokens_contains(entries: Seq<TokenFiles>, token: TokenView)
    ensures
        entry_tokens(entries).contains(token) <==> exists|a: int|
            0 <= a < entries.len() && (#[trigger] entries[a]).token@ == token,
{
    if exists|a: int| 0 <= a < entries.len() && (#[trigger] entries[a]).token@ == token {
        let a = choose|a: int| 0 <= a < entries.len() && (#[trigger] entries[a]).token@ == token;
        assert(entry_tokens(entries)[a] == token);
    }
}

/// Adds the positions, each moved up by `offset`, to the posting of the
/// token, and makes that posting where there is none.
fn add_postings(
    entries: &mut Vec<TokenFiles>,
    token: &Token,
    positions: &Vec<usize>,
    offset: usize,
)
    requires
        distinct_tokens(old(entries)@),
        no_empty_posting(old(entries)@),
        positions@.len() > 0,
        forall|j: int| 0 <= j < positions@.len() ==> positions@[j] + offset <= usize::MAX,
    ensures
        distinct_tokens(final(entries)@),
        no_empty_posting(final(entries)@),
        entry_tokens(final(entries)@) == extended(entry_tokens(old(entries)@), seq![token@]),
        forall|t: TokenView| #[trigger]
            posting_of(final(entries)@, t) == if t == token@ {
                posting_of(old(entries)@, t) + shifted(positions@, offset as int)
            } else {
                posting_of(old(entries)@, t)
            },
{
    let ghost before = entries@;
    let mut e: usize = 0;
    while e < entries.len() && !entries[e].token.same_as(token)
        invariant
            e <= entries@.len(),
            entries@ == before,
            forall|a: int| 0 <= a < e ==> (#[trigger] entries@[a]).token@ != token@,
        decreases entries@.len() - e,
    {
        e += 1;
    }
    proof {
        lemma_entry_tokens_contains(before, token@);
        lemma_extended_by_one(entry_tokens(before), token@);
    }
    if e == entries.len() {
        entries.push(TokenFiles { token: token.duplicate(), files: Vec::new() });
        proof {
            lemma_posting_of_absent(before, token@);
            assert(entries@.drop_last() =~= before);
        }
    } else {
        proof {
            lemma_posting_of_entry(before, e as int);
        }
    }
    let ghost start = entries@;
    let ghost base = posting_of(before, token@);
    let mut j: usize = 0;
    while j < positions.len()
        invariant
            j <= positions@.len(),
            e < entries@.len(),
            entries@.len() == start.len(),
            forall|a: int| 0 <= a < start.len() ==> (#[trigger] entries@[a]).token == start[a].token,
            forall|a: int| 0 <= a < start.len() && a != e ==> (#[trigger] entries@[a]) == start[a],
            entries@[e as int].files@ == base + shifted(positions@.take(j as int), offset as int),
            forall|m: int| 0 <= m < positions@.len() ==> positions@[m] + offset <= usize::MAX,
        decreases positions@.len() - j,
    {
        let moved: usize = positions[j] + offset;
        entries[e].files.push(moved);
        j += 1;
    }
    proof {
        let after = entries@;
        assert forall|t: TokenView| #[trigger]
            posting_of(after, t) == if t == token@ {
                posting_of(before, t) + shifted(positions@, offset as int)
            } else {
                posting_of(before, t)
            } by {
            if t == token@ {
                lemma_posting_of_entry(after, e as int);
            } else {
                lemma_posting_of_same(after, start, t);
            }
        }
    }
}

/// Adds the file at `position` to the posting of each of its tokens.
fn add_file_tokens(entries: &mut Vec<TokenFiles>, tokens: &Vec<Token>, position: usize)
    requires
        distinct_tokens(old(entries)@),
        no_empty_posting(old(entries)@),
        token_views(tokens@).no_duplicates(),
    ensures
        distinct_tokens(final(entries)@),
        no_empty_posting(final(entries)@),
        entry_tokens(final(entries)@) == extended(
            entry_tokens(old(entries)@),
            token_views(tokens@),
        ),
        forall|t: TokenView| #[trigger]
            posting_of(final(entries)@, t) == if token_views(tokens@).contains(t) {
                posting_of(old(entries)@, t).push(position)
            } else {
                posting_of(old(entries)@, t)
            },
{
    let ghost before = entries@;
    let ghost views = token_views(tokens@);
    let mut one: Vec<usize> = Vec::new();
    one.push(position);
    let mut m: usize = 0;
    while m < tokens.len()
        invariant
            m <= tokens@.len(),
            views == token_views(tokens@),
            views.no_duplicates(),
            one@ == seq![position],
            distinct_tokens(entries@),
            no_empty_posting(entries@),
            entry_tokens(entries@) == extended(entry_tokens(before), views.take(m as int)),
            forall|t: TokenView| #[trigger]
                posting_of(entries@, t) == if views.take(m as int).contains(t) {
                    posting_of(before, t).push(position)
                } else {
                    posting_of(before, t)
                },
        decreases tokens@.len() - m,
    {
        let ghost current = entries@;
        add_postings(entries, &tokens[m], &one, 0);
        proof {
            let added = views[m as int];
            assert(views.take(m + 1).drop_last() =~= views.take(m as int));
            assert(views.take(m + 1).last() == added);
            lemma_extended_by_one(entry_tokens(current), added);
        }
        m += 1;
    }
    proof {
        assert(views.take(m as int) =~= views);
    }
}

/// Adds the postings of a sub-directory, whose files start at `offset` in
/// the file list that the entries speak of.
fn merge_postings(entries: &mut Vec<TokenFiles>, child: &Vec<TokenFiles>, offset: usize)
    requires
        distinct_tokens(old(entries)@),
        no_empty_posting(old(entries)@),
        distinct_tokens(child@),
        no_empty_posting(child@),
        forall|m: int, j: int|
            0 <= m < child@.len() && 0 <= j < child@[m].files@.len() ==> (
            #[trigger] child@[m].files@[j]) + offset <= usize::MAX,
    ensures
        distinct_tokens(final(entries)@),
        no_empty_posting(final(entries)@),
        entry_tokens(final(entries)@) == extended(entry_tokens(old(entries)@), entry_tokens(child@)),
        forall|t: TokenView| #[trigger]
            posting_of(final(entries)@, t) == posting_of(old(entries)@, t) + shifted(
                posting_of(child@, t),
                offset as int,
            ),
{
    let ghost before = entries@;
    let ghost arriving = entry_tokens(child@);
    let mut m: usize = 0;
    while m < child.len()
        invariant
            m <= child@.len(),
            distinct_tokens(entries@),
            no_empty_posting(entries@),
            distinct_tokens(child@),
            no_empty_posting(child@),
            arriving == entry_tokens(child@),
            entry_tokens(entries@) == extended(entry_tokens(before), arriving.take(m as int)),
            forall|a: int, j: int|
                0 <= a < child@.len() && 0 <= j < child@[a].files@.len() ==> (
                #[trigger] child@[a].files@[j]) + offset <= usize::MAX,
            forall|t: TokenView| #[trigger]
                posting_of(entries@, t) == posting_of(before, t) + shifted(
                    posting_of(child@.take(m as int), t),
                    offset as int,
                ),
        decreases child@.len() - m,
    {
        let ghost current = entries@;
        add_postings(entries, &child[m].token, &child[m].files, offset);
        proof {
            let added = child@[m as int].token@;
            let seen = child@.take(m as int);
            assert(arriving.take(m + 1).drop_last() =~= arriving.take(m as int));
            lemma_extended_by_one(entry_tokens(current), added);
            assert(child@.take(m + 1).drop_last() =~= seen);
            assert(posting_of(seen, added) == Seq::<usize>::empty()) by {
                lemma_posting_of_absent(seen, added);
            }
        }
        m += 1;
    }
    proof {
        assert(child@.take(m as int) =~= child@);
        assert(arriving.take(m as int) =~= arriving);
    }
}

/// The index of one directory tree.
///
/// Sub-directories are indexed first. Then each file of the directory is
/// tokenized and entered in the postings, and at last the files and the
/// postings of each sub-directory are taken over, so that the directory
/// speaks of its whole subtree. The index is made exactly where every name
/// and every path of the listing is text.
pub fn index_directory(listing: &DirListing, delimiters: &Delimiters) -> (outcome: Result<
    Directory,
    BuildError,
>)
    ensures
        outcome is Ok <==> listing.is_text(),
        outcome matches Ok(directory) ==> directory.wf() && directory.describes(
            listing,
            delimiters@,
        ),
        outcome matches Err(e) ==> e == BuildError::NotText,
    decreases listing,
{
    let ghost cuts = delimiters@;
    let mut sub_dirs: Vec<Directory> = Vec::new();
    let mut k: usize = 0;
    while k < listing.sub_dirs.len()
        invariant
            k <= listing.sub_dirs@.len(),
            sub_dirs@.len() == k,
            cuts == delimiters@,
            forall|m: int| 0 <= m < k ==> (#[trigger] listing.sub_dirs@[m]).is_text(),
            forall|m: int|
                0 <= m < k ==> (#[trigger] sub_dirs@[m]).wf() && sub_dirs@[m].describes(
                    &listing.sub_dirs@[m],
                    cuts,
                ),
        decreases listing.sub_dirs@.len() - k,
    {
        match index_directory(&listing.sub_dirs[k], delimiters) {
            Ok(directory) => {
                sub_dirs.push(directory);
            },
            Err(e) => {
                proof {
                    assert(!listing.sub_dirs@[k as int].is_text());
                }
                return Err(e);
            },
        }
        k += 1;
    }
    let name = match &listing.name {
        Some(text) => text.clone(),
        None => {
            return Err(BuildError::NotText);
        },
    };
    let own: usize = listing.files.len();
    let mut files: Vec<File> = Vec::new();
    let mut stem_word_tokens: Vec<TokenFiles> = Vec::new();
    let mut ext_tokens: Vec<TokenFiles> = Vec::new();
    let mut i: usize = 0;
    proof {
        assert(entry_tokens(stem_word_tokens@) =~= Seq::<TokenView>::empty());
    }
    while i < own
        invariant
            i <= own,
            own == listing.files@.len(),
            cuts == delimiters@,
            files@.len() == i,
            forall|m: int| 0 <= m < i ==> (#[trigger] listing.files@[m]).is_text(),
            forall|m: int| 0 <= m < i ==> tokens_once((#[trigger] files@[m])@),
            forall|m: int|
                0 <= m < i ==> describes_file(
                    (#[trigger] files@[m])@,
                    listing.files@[m],
                    cuts,
                    own as nat,
                ),
            is_inverted_index(stem_word_tokens@, stem_lists(file_views(files@))),
            is_inverted_index(ext_tokens@, ext_lists(file_views(files@))),
        decreases own - i,
    {
        let entry = &listing.files[i];
        let (path, tokens) = match (&entry.path, &entry.name) {
            (Some(path), Some(name)) => (path.clone(), tokenize_name(name.as_str(), delimiters)),
            _ => {
                proof {
                    assert(!listing.files@[i as int].is_text());
                }
                return Err(BuildError::NotText);
            },
        };
        let ghost stems = token_views(tokens.stem_words@);
        let ghost exts = token_views(tokens.extensions@);
        let ghost before = file_views(files@);
        proof {
            lemma_tokens_distinct(cuts, entry.name->0@);
        }
        add_file_tokens(&mut stem_word_tokens, &tokens.stem_words, i);
        add_file_tokens(&mut ext_tokens, &tokens.extensions, i);
        let file = File {
            path,
            stem_word_tokens: tokens.stem_words,
            ext_tokens: tokens.extensions,
            num_files_in_dir: own,
        };
        files.push(file);
        proof {
            assert(stem_lists(file_views(files@)) =~= stem_lists(before).push(stems));
            assert(ext_lists(file_views(files@)) =~= ext_lists(before).push(exts));
            assert(stem_lists(before).push(stems).drop_last() =~= stem_lists(before));
            assert(ext_lists(before).push(exts).drop_last() =~= ext_lists(before));
            stem_lists(before).lemma_flatten_push(stems);
            ext_lists(before).lemma_flatten_push(exts);
            lemma_extended_concat(Seq::empty(), stem_lists(before).flatten(), stems);
            lemma_extended_concat(Seq::empty(), ext_lists(before).flatten(), exts);
        }
        i += 1;
    }
    let ghost own_views = file_views(files@);
    let mut k: usize = 0;
    while k < sub_dirs.len()
        invariant
            k <= sub_dirs@.len(),
            own_views.len() == own,
            forall|m: int| 0 <= m < files@.len() ==> tokens_once((#[trigger] files@[m])@),
            file_views(files@).take(own as int) == own_views,
            files@.len() == own + subtree_files(sub_dirs@.take(k as int)).len(),
            file_views(files@).skip(own as int) == subtree_files(sub_dirs@.take(k as int)),
            is_inverted_index(stem_word_tokens@, stem_lists(file_views(files@))),
            is_inverted_index(ext_tokens@, ext_lists(file_views(files@))),
            forall|m: int| 0 <= m < sub_dirs@.len() ==> (#[trigger] sub_dirs@[m]).wf(),
        decreases sub_dirs@.len() - k,
    {
        let child = &sub_dirs[k];
        let offset: usize = files.len();
        let ghost before = file_views(files@);
        let ghost arrived = file_views(child.files@);
        let ghost old_stem = stem_word_tokens@;
        let ghost old_ext = ext_tokens@;
        let mut j: usize = 0;
        proof {
            assert(child.wf());
        }
        while j < child.files.len()
            invariant
                j <= child.files@.len(),
                arrived == file_views(child.files@),
                file_views(files@) == before + arrived.take(j as int),
                forall|m: int| 0 <= m < child.files@.len() ==> tokens_once(
                    (#[trigger] child.files@[m])@,
                ),
                forall|m: int| 0 <= m < files@.len() ==> tokens_once((#[trigger] files@[m])@),
            decreases child.files@.len() - j,
        {
            let copy = child.files[j].duplicate();
            let ghost so_far = file_views(files@);
            files.push(copy);
            proof {
                assert(file_views(files@) =~= so_far.push(copy@));
            }
            j += 1;
        }
        let total: usize = files.len();
        proof {
            assert(arrived.take(j as int) =~= arrived);
            assert forall|m: int, n: int|
                0 <= m < child.stem_word_tokens@.len() && 0 <= n
                    < child.stem_word_tokens@[m].files@.len() implies (
            #[trigger] child.stem_word_tokens@[m].files@[n]) + offset <= usize::MAX by {
                lemma_inverted_index_bounds(child.stem_word_tokens@, stem_lists(arrived), m);
            }
            assert forall|m: int, n: int|
                0 <= m < child.ext_tokens@.len() && 0 <= n
                    < child.ext_tokens@[m].files@.len() implies (
            #[trigger] child.ext_tokens@[m].files@[n]) + offset <= usize::MAX by {
                lemma_inverted_index_bounds(child.ext_tokens@, ext_lists(arrived), m);
            }
        }
        merge_postings(&mut stem_word_tokens, &child.stem_word_tokens, offset);
        merge_postings(&mut ext_tokens, &child.ext_tokens, offset);
        proof {
            assert(sub_dirs@.take(k + 1).drop_last() =~= sub_dirs@.take(k as int));
            assert(stem_lists(before + arrived) =~= stem_lists(before) + stem_lists(arrived));
            assert(ext_lists(before + arrived) =~= ext_lists(before) + ext_lists(arrived));
            vstd::seq_lib::lemma_flatten_concat(stem_lists(before), stem_lists(arrived));
            vstd::seq_lib::lemma_flatten_concat(ext_lists(before), ext_lists(arrived));
            lemma_extended_by_first_appearances(
                entry_tokens(old_stem),
                stem_lists(arrived).flatten(),
            );
            lemma_extended_by_first_appearances(
                entry_tokens(old_ext),
                ext_lists(arrived).flatten(),
            );
            lemma_extended_concat(
                Seq::empty(),
                stem_lists(before).flatten(),
                stem_lists(arrived).flatten(),
            );
            lemma_extended_concat(
                Seq::empty(),
                ext_lists(before).flatten(),
                ext_lists(arrived).flatten(),
            );
            assert forall|t: TokenView| #[trigger]
                posting_of(stem_word_tokens@, t) == positions_with(
                    stem_lists(file_views(files@)),
                    t,
                ) by {
                lemma_positions_with_concat(stem_lists(before), stem_lists(arrived), t);
            }
            assert forall|t: TokenView| #[trigger]
                posting_of(ext_tokens@, t) == positions_with(ext_lists(file_views(files@)), t) by {
                lemma_positions_with_concat(ext_lists(before), ext_lists(arrived), t);
            }
        }
        k += 1;
    }
    proof {
        assert(sub_dirs@.take(k as int) =~= sub_dirs@);
    }
    let directory = Directory { files, name, sub_dirs, stem_word_tokens, ext_tokens };
    proof {
        assert forall|m: int| 0 <= m < own implies describes_file(
            (#[trigger] directory.files@[m])@,
            listing.files@[m],
            cuts,
            own as nat,
        ) by {
            assert(file_views(directory.files@).take(own as int)[m] == own_views[m]);
        }
    }
    Ok(directory)
}

/// The tokens that the tokenizer gives for a name are distinct.
proof fn lemma_tokens_distinct(delimiters: Seq<Seq<char>>, name: Seq<char>)
    ensures
        stem_tokens(delimiters, name).no_duplicates(),
        extension_tokens(name).no_duplicates(),
{
    lemma_numbered_distinct(nonempty_parts(stem_parts(delimiters, stem_of(name))));
    lemma_numbered_distinct(extension_words(name));
}

} // verus!
