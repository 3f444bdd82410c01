//! Trusted boundary to the Unicode facilities this crate relies on.
//!
//! Character case classification and the UAX#29 segmenters compute functions
//! of their input whose full definition is the Unicode character database;
//! each such result is given an uninterpreted name here, and a thin wrapper
//! relates the executable call to that name. Everything else in the crate is
//! verified against these names.

use vstd::prelude::*;
use unicode_segmentation::UnicodeSegmentation;

verus! {

/// Whether the Unicode character database classifies `c` as lowercase.
pub uninterp spec fn lowercase_char(c: char) -> bool;

/// Whether the Unicode character database classifies `c` as uppercase.
pub uninterp spec fn uppercase_char(c: char) -> bool;

/// Relies on char::is_lowercase: a property of the character alone.
#[verifier::external_body]
pub(crate) fn char_is_lowercase(c: char) -> (r: bool)
    ensures
        r == lowercase_char(c),
{
    c.is_lowercase()
}

/// Relies on char::is_uppercase: a property of the character alone.
#[verifier::external_body]
pub(crate) fn char_is_uppercase(c: char) -> (r: bool)
    ensures
        r == uppercase_char(c),
{
    c.is_uppercase()
}

/// The UAX#29 words of `s`: the maximal word-bounded substrings that contain
/// an alphanumeric character, in source order.
pub uninterp spec fn unicode_words_of(s: Seq<char>) -> Seq<Seq<char>>;

/// Relies on UnicodeSegmentation::unicode_words of the unicode-segmentation
/// crate: the words depend on the characters of `s` alone, each holds an
/// alphanumeric character, so an empty `s` has none.
#[verifier::external_body]
pub(crate) fn unicode_words_vec(s: &str) -> (r: Vec<String>)
    ensures
        r.deep_view() == unicode_words_of(s@),
        s@.len() == 0 ==> r@.len() == 0,
{
    s.unicode_words().map(String::from).collect()
}

/// The extended grapheme clusters of `s`, in source order. They partition
/// `s`: concatenated they give `s` back.
pub uninterp spec fn grapheme_clusters_of(s: Seq<char>) -> Seq<Seq<char>>;

/// Relies on UnicodeSegmentation::graphemes of the unicode-segmentation
/// crate: the clusters depend on the characters of `s` alone, and are
/// consecutive substrings that together cover the whole of `s`.
#[verifier::external_body]
pub(crate) fn grapheme_clusters(s: &str) -> (r: Vec<String>)
    ensures
        r.deep_view() == grapheme_clusters_of(s@),
        r.deep_view().flatten() == s@,
{
    UnicodeSegmentation::graphemes(s, true).map(String::from).collect()
}

/// Relies on String::push: appends exactly one character.
#[verifier::external_body]
pub(crate) fn push_char(s: &mut String, c: char)
    ensures
        final(s)@ == old(s)@.push(c),
{
    s.push(c)
}

} // verus!
