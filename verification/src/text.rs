//! Character-level helpers over authored text.
use vstd::prelude::*;

verus! {

/// Unicode `Alphabetic` property of a character.
pub uninterp spec fn char_alphabetic(c: char) -> bool;

/// Unicode `Numeric` classification of a character (`Nd`, `Nl`, `No`).
pub uninterp spec fn char_numeric(c: char) -> bool;

/// Calls `char::is_alphabetic`; the result is the character's Unicode
/// `Alphabetic` property, named here and not restated.
#[verifier::external_body]
pub(crate) fn is_alphabetic(c: char) -> (r: bool)
    ensures
        r == char_alphabetic(c),
{
    c.is_alphabetic()
}

/// Calls `char::is_numeric`; the result is the character's Unicode numeric
/// classification, named here and not restated.
#[verifier::external_body]
pub(crate) fn is_numeric(c: char) -> (r: bool)
    ensures
        r == char_numeric(c),
{
    c.is_numeric()
}

/// Collects the characters of a string slice (`str::chars`, then `collect`).
#[verifier::external_body]
pub(crate) fn chars_of(s: &str) -> (r: Vec<char>)
    ensures
        r@ == s@,
{
    s.chars().collect()
}

/// Builds a string from characters (`String::from_iter`).
#[verifier::external_body]
pub(crate) fn string_of(chars: &Vec<char>) -> (r: String)
    ensures
        r@ == chars@,
{
    chars.iter().collect()
}

/// Unicode alphanumeric: `char::is_alphanumeric` is documented as
/// alphabetic or numeric.
pub open spec fn char_alphanumeric(c: char) -> bool {
    char_alphabetic(c) || char_numeric(c)
}


/// Bytes in the UTF-8 encoding of one character.
pub open spec fn utf8_width(c: char) -> nat {
    if (c as u32) < 0x80 {
        1
    } else if (c as u32) < 0x800 {
        2
    } else if (c as u32) < 0x10000 {
        3
    } else {
        4
    }
}

/// Bytes in the UTF-8 encoding of a character sequence.
pub open spec fn utf8_len(chars: Seq<char>) -> nat
    decreases chars.len(),
{
    if chars.len() == 0 {
        0
    } else {
        utf8_len(chars.drop_last()) + utf8_width(chars.last())
    }
}

/// The length of a string slice in bytes (`str::len`), which is the length of
/// its UTF-8 encoding.
#[verifier::external_body]
pub(crate) fn byte_len(s: &str) -> (r: usize)
    ensures
        r == utf8_len(s@),
{
    s.len()
}

} // verus!
