//! The names under which an emitter exposes directories and posting lists:
//! an underscore, then the text with every character that is neither a
//! letter nor a digit replaced by an underscore, and for a numbered token
//! an underscore and its number.

use crate::index::{DirectoryIndex, PostingList};
use vstd::prelude::*;

verus! {

/// Whether `std` counts the character as alphabetic or numeric.
pub uninterp spec fn is_alphanumeric(c: char) -> bool;

/// Calls `char::is_alphanumeric` of `std`, which depends on the character
/// alone.
#[verifier::external_body]
fn alphanumeric(c: char) -> (yes: bool)
    ensures
        yes == is_alphanumeric(c),
{
    c.is_alphanumeric()
}

/// Calls `String::push` of `std`, which appends the character to the text.
#[verifier::external_body]
fn push_char(text: &mut String, c: char)
    ensures
        final(text)@ == old(text)@.push(c),
{
    text.push(c);
}

/// The character as it stands in a name: itself where it is a letter or a
/// digit, and an underscore where it is not.
pub open spec fn name_char(c: char, alphanumeric: bool) -> char {
    if alphanumeric {
        c
    } else {
        '_'
    }
}

/// The text with every character that is neither a letter nor a digit
/// replaced by an underscore.
pub open spec fn sanitized(text: Seq<char>) -> Seq<char> {
    text.map_values(|c: char| name_char(c, is_alphanumeric(c)))
}

/// The name for a text: an underscore and the sanitized text.
pub open spec fn identifier_of(text: Seq<char>) -> Seq<char> {
    seq!['_'] + sanitized(text)
}

/// The character of a decimal digit.
pub open spec fn digit_char(digit: nat) -> char {
    if digit == 0 {
        '0'
    } else if digit == 1 {
        '1'
    } else if digit == 2 {
        '2'
    } else if digit == 3 {
        '3'
    } else if digit == 4 {
        '4'
    } else if digit == 5 {
        '5'
    } else if digit == 6 {
        '6'
    } else if digit == 7 {
        '7'
    } else if digit == 8 {
        '8'
    } else {
        '9'
    }
}

/// The decimal numeral of a number.
pub open spec fn decimal(n: nat) -> Seq<char>
    decreases n,
{
    if n < 10 {
        seq![digit_char(n)]
    } else {
        decimal(n / 10).push(digit_char(n % 10))
    }
}

/// The name of the posting list of a token: the name for its word, and for
/// a numbered token an underscore and the number.
pub open spec fn posting_name_of(word: Seq<char>, occurrence: nat, numbered: bool) -> Seq<char> {
    if numbered {
        identifier_of(word).push('_') + decimal(occurrence)
    } else {
        identifier_of(word)
    }
}

/// The character as it stands in a name, given whether it is a letter or a
/// digit.
pub fn sanitize_char(c: char, alphanumeric: bool) -> (kept: char)
    ensures
        kept == name_char(c, alphanumeric),
{
    if alphanumeric {
        c
    } else {
        '_'
    }
}

/// The name for a text.
pub fn identifier(text: &str) -> (name: String)
    ensures
        name@ == identifier_of(text@),
{
    let mut name = String::new();
    push_char(&mut name, '_');
    for c in it: text.chars()
        invariant
            it.seq() == text@,
            name@ == seq!['_'] + sanitized(text@.take(it.index() as int)),
    {
        let kept = sanitize_char(c, alphanumeric(c));
        push_char(&mut name, kept);
    }
    name
}

/// The character of a decimal digit.
fn digit(d: usize) -> (c: char)
    requires
        d < 10,
    ensures
        c == digit_char(d as nat),
{
    if d == 0 {
        '0'
    } else if d == 1 {
        '1'
    } else if d == 2 {
        '2'
    } else if d == 3 {
        '3'
    } else if d == 4 {
        '4'
    } else if d == 5 {
        '5'
    } else if d == 6 {
        '6'
    } else if d == 7 {
        '7'
    } else if d == 8 {
        '8'
    } else {
        '9'
    }
}

/// Appends the decimal numeral of a number to a text.
fn push_decimal(text: &mut String, n: usize)
    ensures
        final(text)@ == old(text)@ + decimal(n as nat),
    decreases n,
{
    if n >= 10 {
        push_decimal(text, n / 10);
    }
    push_char(text, digit(n % 10));
}

impl PostingList {
    /// The name under which the list is exposed.
    pub fn name(&self) -> (name: String)
        ensures
            name@ == posting_name_of(self.word@, self.occurrence as nat, self.numbered),
    {
        let mut name = identifier(self.word.as_str());
        if self.numbered {
            push_char(&mut name, '_');
            push_decimal(&mut name, self.occurrence);
        }
        name
    }
}

impl DirectoryIndex {
    /// The name under which the directory is exposed.
    pub fn module_name(&self) -> (name: String)
        ensures
            name@ == identifier_of(self.name@),
    {
        identifier(self.name.as_str())
    }
}

} // verus!
