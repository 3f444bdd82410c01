//! Unicode-aware text segmentation and substring search.
//!
//! The crate splits text into code points, grapheme clusters,
//! pattern-separated chunks and natural-language words, and locates a search
//! string inside a subject by code-point position. All positions in the
//! public contracts are code-point offsets: the view of a `str` or `String`
//! is its sequence of Unicode scalar values.

use vstd::prelude::*;

pub mod index;
pub mod split;
pub mod unicode;

verus! {

/// True when the pattern `p` occurs in `s` starting at code-point offset `i`.
pub open spec fn match_at(s: Seq<char>, p: Seq<char>, i: int) -> bool {
    0 <= i && i + p.len() <= s.len() && s.subrange(i, i + p.len()) == p
}

} // verus!
