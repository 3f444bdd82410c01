//! First-occurrence search by code-point position.

use vstd::prelude::*;
use crate::match_at;

verus! {

/// The offset handed to [`index_of`] lies beyond the end of the subject, so
/// it is on no code-point boundary.
#[derive(Clone, Copy, Debug, PartialEq, Eq, Structural)]
pub struct InvalidOffset;

/// `k` is the first code-point offset at or after `from` where `p` occurs in
/// `s`.
pub open spec fn first_match_from(s: Seq<char>, p: Seq<char>, from: int, k: int) -> bool {
    &&& from <= k
    &&& match_at(s, p, k)
    &&& forall|q: int| from <= q < k ==> !match_at(s, p, q)
}

/// `p` occurs nowhere in `s` at or after code-point offset `from`.
pub open spec fn no_match_from(s: Seq<char>, p: Seq<char>, from: int) -> bool {
    forall|q: int| from <= q ==> !match_at(s, p, q)
}

/// Whether `p` occurs in `s` at code-point offset `i`, by comparing the
/// characters one by one.
pub(crate) fn matches_at(s: &str, p: &str, i: usize, p_len: usize) -> (b: bool)
    requires
        p_len == p@.len(),
        i + p_len <= s@.len(),
        s@.len() <= usize::MAX,
    ensures
        b == match_at(s@, p@, i as int),
{
    let mut j: usize = 0;
    while j < p_len
        invariant
            0 <= j <= p_len,
            p_len == p@.len(),
            i + p_len <= s@.len(),
            s@.len() <= usize::MAX,
            forall|k: int| 0 <= k < j ==> s@[i + k] == p@[k],
        decreases p_len - j,
    {
        if s.get_char(i + j) != p.get_char(j) {
            assert(s@.subrange(i as int, i + p@.len()) != p@) by {
                assert(s@.subrange(i as int, i + p@.len())[j as int] == s@[i + j]);
            }
            return false;
        }
        j += 1;
    }
    assert(s@.subrange(i as int, i + p@.len()) =~= p@);
    true
}

/// Returns the code-point offset of the first occurrence of `search` within
/// `subject` at or after `from_index`, `Ok(None)` when there is none, and
/// `Err(InvalidOffset)` when `from_index` exceeds the code-point length of
/// `subject`. An empty `search` matches at the start of the search window.
pub fn index_of(subject: &str, search: &str, from_index: usize) -> (r: Result<
    Option<usize>,
    InvalidOffset,
>)
    ensures
        r is Err <==> from_index > subject@.len(),
        r matches Ok(Some(k)) ==> first_match_from(
            subject@,
            search@,
            from_index as int,
            k as int,
        ),
        r matches Ok(None) ==> no_match_from(subject@, search@, from_index as int),
        search@.len() == 0 && from_index <= subject@.len() ==> r == Ok::<
            Option<usize>,
            InvalidOffset,
        >(Some(from_index)),
{
    let s_len = subject.unicode_len();
    if from_index > s_len {
        return Err(InvalidOffset);
    }
    let p_len = search.unicode_len();
    let mut p: usize = from_index;
    while p < s_len
        invariant
            from_index <= p <= s_len,
            s_len == subject@.len(),
            p_len == search@.len(),
            forall|q: int| from_index <= q < p ==> !match_at(subject@, search@, q),
        decreases s_len - p,
    {
        if p_len <= s_len - p {
            if matches_at(subject, search, p, p_len) {
                proof {
                    if search@.len() == 0 {
                        assert(subject@.subrange(from_index as int, from_index as int)
                            =~= search@);
                        assert(match_at(subject@, search@, from_index as int));
                    }
                }
                return Ok(Some(p));
            }
        }
        p += 1;
    }
    if p_len == 0 {
        assert(subject@.subrange(p as int, p as int) =~= search@);
        assert(subject@.subrange(from_index as int, from_index as int) =~= search@);
        assert(match_at(subject@, search@, from_index as int));
        assert(p == from_index);
        return Ok(Some(p));
    }
    assert(forall|q: int| from_index <= q ==> !#[trigger] match_at(subject@, search@, q));
    Ok(None)
}

} // verus!
