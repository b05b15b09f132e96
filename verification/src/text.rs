//! Trusted boundary to the standard library's text primitives: whitespace
//! classification, decomposing a string into its characters, and assembling
//! a string from characters.
use vstd::prelude::*;

verus! {

/// What `char::is_whitespace` returns for a character: the Unicode
/// `White_Space` classification, a function of the character alone.
pub uninterp spec fn is_ws(c: char) -> bool;

/// Relies on `char::is_whitespace`: true exactly for characters with the
/// Unicode `White_Space` property; the result depends on the character alone.
#[verifier::external_body]
pub(crate) fn is_whitespace(c: char) -> (r: bool)
    ensures
        r == is_ws(c),
{
    c.is_whitespace()
}

/// Relies on `str::chars`: the iterator yields exactly the string's sequence
/// of Unicode scalar values, in order, which is the string's view.
#[verifier::external_body]
pub(crate) fn chars_of(s: &str) -> (v: Vec<char>)
    ensures
        v@ == s@,
{
    let mut v = Vec::new();
    for c in s.chars() {
        v.push(c);
    }
    v
}

/// Relies on `String::push`: appends the given character to the string, so
/// the result's view is exactly the character sequence handed in.
#[verifier::external_body]
pub(crate) fn chars_to_string(v: &Vec<char>) -> (s: String)
    ensures
        s@ == v@,
{
    let mut s = String::new();
    for c in v.iter() {
        s.push(*c);
    }
    s
}

} // verus!
