//! Character classification for the tokenizer.
//!
//! The language has nine punctuation glyphs, recognised literally; every
//! other character is either whitespace (skipped), alphabetic (it starts or
//! continues an identifier), or dropped. Whether a character is alphabetic,
//! whitespace or uppercase is delegated to the standard library.

use vstd::prelude::*;

verus! {

/// The punctuation glyphs of the language: brackets, the AND, OR and NOT
/// connectives, the statement terminator, the argument separator, the query
/// marker and the colon that opens a rule arrow.
pub open spec fn special_char(c: char) -> bool {
    c == '(' || c == ')' || c == '\u{2227}' || c == '\u{2228}' || c == '\u{00AC}' || c == '.'
        || c == ',' || c == '?' || c == ':'
}

/// What `char::is_alphabetic` returns: a function of the character alone.
pub uninterp spec fn alpha_char(c: char) -> bool;

/// What `char::is_whitespace` returns: a function of the character alone.
pub uninterp spec fn space_char(c: char) -> bool;

/// What `char::is_uppercase` returns: a function of the character alone.
pub uninterp spec fn upper_char(c: char) -> bool;

/// Relies on `char::is_alphabetic`: the result depends on the character alone.
#[verifier::external_body]
pub fn is_alphabetic_char(c: char) -> (r: bool)
    ensures
        r == alpha_char(c),
{
    c.is_alphabetic()
}

/// Relies on `char::is_whitespace`: the result depends on the character alone.
#[verifier::external_body]
pub fn is_whitespace_char(c: char) -> (r: bool)
    ensures
        r == space_char(c),
{
    c.is_whitespace()
}

/// Relies on `char::is_uppercase`: the result depends on the character alone.
#[verifier::external_body]
pub fn is_uppercase_char(c: char) -> (r: bool)
    ensures
        r == upper_char(c),
{
    c.is_uppercase()
}

/// A character that may stand inside an identifier: alphabetic, and not one
/// of the punctuation glyphs (which the tokenizer always recognises first).
pub open spec fn name_char(c: char) -> bool {
    alpha_char(c) && !special_char(c)
}

/// Runtime test for `name_char`.
pub fn is_name_char(c: char) -> (r: bool)
    ensures
        r == name_char(c),
{
    if c == '(' || c == ')' || c == '\u{2227}' || c == '\u{2228}' || c == '\u{00AC}' || c == '.'
        || c == ',' || c == '?' || c == ':' {
        false
    } else {
        is_alphabetic_char(c)
    }
}

} // verus!
