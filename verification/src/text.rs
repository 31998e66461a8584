//! Trusted bridges to std's string transforms.
//!
//! Word normalization (trimming and Unicode lowercasing) is treated as an
//! already-solved transform of a string into a sequence of characters: the
//! results of `str::trim` and `str::to_lowercase` are given names that the
//! library's contracts use, and nothing else is assumed about them beyond
//! what std's documentation plainly states.

use vstd::prelude::*;

verus! {

/// The character sequence that `str::to_lowercase` produces for `s`; a
/// function of the characters alone.
pub uninterp spec fn lower_of(s: Seq<char>) -> Seq<char>;

/// The character sequence that `str::trim` produces for `s`; a function of
/// the characters alone.
pub uninterp spec fn trim_of(s: Seq<char>) -> Seq<char>;

/// Relies on `str::to_lowercase`: the result depends on the input characters
/// alone, and an empty input stays empty.
#[verifier::external_body]
pub(crate) fn lower_chars(s: &str) -> (r: Vec<char>)
    ensures
        r@ == lower_of(s@),
        s@.len() == 0 ==> r@.len() == 0,
{
    s.to_lowercase().chars().collect()
}

/// Relies on `str::trim`: it returns the input without leading and trailing
/// whitespace, so the result depends on the input characters alone, is never
/// longer than the input, and an empty input stays empty.
#[verifier::external_body]
pub(crate) fn trim_str(s: &str) -> (r: &str)
    ensures
        r@ == trim_of(s@),
        r@.len() <= s@.len(),
        s@.len() == 0 ==> r@.len() == 0,
{
    s.trim()
}

/// Relies on `String`'s `FromIterator<char>`: collecting characters yields
/// the string spelling exactly those characters in order.
#[verifier::external_body]
pub(crate) fn chars_to_string(v: &Vec<char>) -> (s: String)
    ensures
        s@ == v@,
{
    v.iter().collect()
}

} // verus!
