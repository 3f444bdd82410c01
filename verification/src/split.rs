//! Splitting text into code points, chunks, words and grapheme clusters.

use vstd::prelude::*;
use crate::match_at;
use crate::index::matches_at;
use crate::unicode::{
    char_is_lowercase, char_is_uppercase, grapheme_clusters, grapheme_clusters_of, lowercase_char,
    push_char, unicode_words_of, unicode_words_vec, uppercase_char,
};

verus! {

/// One segment per code point of `s`; a single empty segment when `s` is
/// empty.
pub open spec fn codepoints_of(s: Seq<char>) -> Seq<Seq<char>> {
    if s.len() == 0 {
        seq![Seq::<char>::empty()]
    } else {
        Seq::new(s.len(), |i: int| seq![s[i]])
    }
}

/// Single-character sequences concatenate back to the sequence they were
/// taken from.
proof fn lemma_flatten_singletons(s: Seq<char>)
    ensures
        Seq::new(s.len(), |i: int| seq![s[i]]).flatten() == s,
    decreases s.len(),
{
    let m = Seq::new(s.len(), |i: int| seq![s[i]]);
    if s.len() == 0 {
        assert(m.flatten() =~= s);
    } else {
        let t = s.drop_first();
        lemma_flatten_singletons(t);
        let m2 = Seq::new(t.len(), |i: int| seq![t[i]]);
        assert(m.drop_first() =~= m2);
        assert(m.flatten() =~= s);
    }
}

/// Splits `string` into one segment per code point, or a single empty
/// segment when `string` is empty. Concatenated, the segments give `string`
/// back.
pub fn chars(string: &str) -> (r: Vec<String>)
    ensures
        r.deep_view() == codepoints_of(string@),
        r.deep_view().flatten() == string@,
{
    let n = string.unicode_len();
    let mut r: Vec<String> = Vec::new();
    if n == 0 {
        r.push(String::new());
        proof {
            assert(r.deep_view() =~= codepoints_of(string@));
            r.deep_view().lemma_flatten_one_element();
            assert(r.deep_view().flatten() =~= string@);
        }
        return r;
    }
    let mut i: usize = 0;
    while i < n
        invariant
            0 <= i <= n,
            n == string@.len(),
            r@.len() == i,
            r.deep_view() == Seq::new(i as nat, |j: int| seq![string@[j]]),
        decreases n - i,
    {
        let ghost dv0 = r.deep_view();
        r.push(string.substring_char(i, i + 1).to_owned());
        proof {
            assert(string@.subrange(i as int, i + 1) =~= seq![string@[i as int]]);
            assert(r@.len() == i + 1);
            assert(r.deep_view() == Seq::new(r@.len(), |j: int| r@[j].deep_view()));
            assert forall|j: int| 0 <= j < i + 1 implies r.deep_view()[j] == seq![string@[j]] by {
                if j < i {
                    assert(r.deep_view()[j] == dv0[j]);
                } else {
                    assert(r.deep_view()[j] == r@[i as int]@);
                }
            }
            assert(r.deep_view() =~= Seq::new((i + 1) as nat, |j: int| seq![string@[j]]));
        }
        i += 1;
    }
    proof {
        assert(r.deep_view() =~= codepoints_of(string@));
        lemma_flatten_singletons(string@);
    }
    r
}

/// `segs` with its first segment extended at the front by `pre`.
pub open spec fn extend_first(pre: Seq<char>, segs: Seq<Seq<char>>) -> Seq<Seq<char>> {
    seq![pre + segs[0]] + segs.skip(1)
}

/// The chunks of `s` separated by the non-overlapping occurrences of the
/// non-empty pattern `p`, scanning left to right and consuming each
/// occurrence; consecutive occurrences leave empty chunks between them.
pub open spec fn chunks_of(s: Seq<char>, p: Seq<char>) -> Seq<Seq<char>>
    decreases s.len(),
{
    if p.len() == 0 {
        seq![s]
    } else if match_at(s, p, 0) {
        seq![Seq::<char>::empty()] + chunks_of(s.skip(p.len() as int), p)
    } else if s.len() == 0 {
        seq![Seq::<char>::empty()]
    } else {
        extend_first(seq![s[0]], chunks_of(s.skip(1), p))
    }
}

/// `segs` with a trailing empty segment removed.
pub open spec fn drop_trailing_empty(segs: Seq<Seq<char>>) -> Seq<Seq<char>> {
    if segs.len() > 0 && segs.last().len() == 0 {
        segs.drop_last()
    } else {
        segs
    }
}

/// The segments of `s` split by `p`: a single empty segment for empty `s`,
/// the whole of `s` for an empty `p`, and otherwise the pattern-separated
/// chunks with a trailing empty chunk dropped.
pub open spec fn split_segments(s: Seq<char>, p: Seq<char>) -> Seq<Seq<char>> {
    if s.len() == 0 {
        seq![Seq::<char>::empty()]
    } else if p.len() == 0 {
        seq![s]
    } else {
        drop_trailing_empty(chunks_of(s, p))
    }
}

/// A split yields at least one chunk.
proof fn lemma_chunks_nonempty(s: Seq<char>, p: Seq<char>)
    ensures
        chunks_of(s, p).len() >= 1,
    decreases s.len(),
{
    if p.len() == 0 {
    } else if match_at(s, p, 0) {
        lemma_chunks_nonempty(s.skip(p.len() as int), p);
    } else if s.len() == 0 {
    } else {
        lemma_chunks_nonempty(s.skip(1), p);
    }
}

/// The chunks of a split, rejoined by the pattern that separated them, give
/// the text back: the split consumes each occurrence of the pattern and
/// nothing else.
pub proof fn lemma_chunks_rejoin(s: Seq<char>, p: Seq<char>)
    requires
        p.len() > 0,
    ensures
        joined_with(chunks_of(s, p), p) == s,
    decreases s.len(),
{
    if match_at(s, p, 0) {
        let rest = s.skip(p.len() as int);
        lemma_chunks_rejoin(rest, p);
        lemma_chunks_nonempty(rest, p);
        let c = chunks_of(rest, p);
        assert((seq![Seq::<char>::empty()] + c).skip(1) =~= c);
        assert(join_tail(c, p) == p + c[0] + join_tail(c.skip(1), p));
        assert(joined_with(chunks_of(s, p), p) =~= p + (c[0] + join_tail(c.skip(1), p)));
        assert(p + rest =~= s);
    } else if s.len() == 0 {
        assert(joined_with(chunks_of(s, p), p) =~= s);
    } else {
        let rest = s.skip(1);
        lemma_chunks_rejoin(rest, p);
        lemma_chunks_nonempty(rest, p);
        let c = chunks_of(rest, p);
        assert((seq![seq![s[0]] + c[0]] + c.skip(1)).skip(1) =~= c.skip(1));
        assert(joined_with(chunks_of(s, p), p) =~= seq![s[0]] + (c[0] + join_tail(c.skip(1), p)));
        assert(seq![s[0]] + rest =~= s);
    }
}

/// Splits `string` into the chunks separated by each non-overlapping
/// occurrence of `pattern`, consuming the occurrences; a trailing occurrence
/// leaves no empty chunk behind it. An empty `string` yields a single empty
/// segment; an empty `pattern` leaves a non-empty `string` whole.
pub fn split(string: &str, pattern: &str) -> (r: Vec<String>)
    ensures
        r.deep_view() == split_segments(string@, pattern@),
        string@.len() == 0 ==> r.deep_view() == seq![Seq::<char>::empty()],
        string@.len() > 0 && pattern@.len() == 0 ==> r.deep_view() == seq![string@],
{
    let n = string.unicode_len();
    let mut r: Vec<String> = Vec::new();
    if n == 0 {
        r.push(String::new());
        proof {
            assert(r.deep_view() =~= seq![Seq::<char>::empty()]);
        }
        return r;
    }
    let p_len = pattern.unicode_len();
    if p_len == 0 {
        r.push(string.to_owned());
        proof {
            assert(r.deep_view() =~= seq![string@]);
        }
        return r;
    }
    let ghost s = string@;
    let ghost p = pattern@;
    let mut seg_start: usize = 0;
    let mut i: usize = 0;
    proof {
        assert(s.skip(0) =~= s);
        assert(Seq::<Seq<char>>::empty() + extend_first(s.subrange(0, 0), chunks_of(s, p))
            =~= extend_first(Seq::<char>::empty(), chunks_of(s, p)));
        lemma_chunks_nonempty(s, p);
        assert(extend_first(Seq::<char>::empty(), chunks_of(s, p)) =~= chunks_of(s, p));
    }
    while i < n
        invariant
            0 <= seg_start <= i <= n,
            n == s.len(),
            s == string@,
            p == pattern@,
            p_len == p.len(),
            p_len >= 1,
            chunks_of(s, p) == r.deep_view() + extend_first(
                s.subrange(seg_start as int, i as int),
                chunks_of(s.skip(i as int), p),
            ),
        decreases n - i,
    {
        let ghost suffix = s.skip(i as int);
        let ghost cur = s.subrange(seg_start as int, i as int);
        proof {
            lemma_chunks_nonempty(s.skip(i + p_len), p);
            lemma_chunks_nonempty(s.skip(i + 1), p);
        }
        if p_len <= n - i && matches_at(string, pattern, i, p_len) {
            proof {
                assert(suffix.subrange(0, p.len() as int) =~= s.subrange(i as int, i + p.len()));
                assert(match_at(suffix, p, 0));
                assert(suffix.skip(p.len() as int) =~= s.skip(i + p_len));
                assert(chunks_of(suffix, p) == seq![Seq::<char>::empty()] + chunks_of(
                    s.skip(i + p_len),
                    p,
                ));
                assert(extend_first(cur, chunks_of(suffix, p)) =~= seq![cur] + chunks_of(
                    s.skip(i + p_len),
                    p,
                ));
            }
            let ghost dv0 = r.deep_view();
            r.push(string.substring_char(seg_start, i).to_owned());
            proof {
                assert(r@.len() == dv0.len() + 1);
                assert forall|j: int| 0 <= j < r@.len() implies r.deep_view()[j] == dv0.push(cur)[j]
                by {
                    if j < dv0.len() {
                        assert(r.deep_view()[j] == dv0[j]);
                    } else {
                        assert(r.deep_view()[j] == r@[j]@);
                    }
                }
                assert(r.deep_view() =~= dv0.push(cur));
                assert(s.subrange(i + p_len, i + p_len) =~= Seq::<char>::empty());
                assert(extend_first(
                    Seq::<char>::empty(),
                    chunks_of(s.skip(i + p_len), p),
                ) =~= chunks_of(s.skip(i + p_len), p));
                assert(dv0.push(cur) + chunks_of(s.skip(i + p_len), p) =~= dv0 + (seq![cur]
                    + chunks_of(s.skip(i + p_len), p)));
            }
            seg_start = i + p_len;
            i = i + p_len;
        } else {
            proof {
                if p_len <= n - i {
                    assert(suffix.subrange(0, p.len() as int) =~= s.subrange(
                        i as int,
                        i + p.len(),
                    ));
                }
                assert(!match_at(suffix, p, 0));
                assert(suffix.len() > 0);
                assert(suffix[0] == s[i as int]);
                assert(suffix.skip(1) =~= s.skip(i + 1));
                assert(chunks_of(suffix, p) == extend_first(
                    seq![s[i as int]],
                    chunks_of(s.skip(i + 1), p),
                ));
                let t = chunks_of(s.skip(i + 1), p);
                assert(cur + seq![s[i as int]] =~= s.subrange(seg_start as int, i + 1));
                assert(extend_first(cur, extend_first(seq![s[i as int]], t)) =~~= extend_first(
                    s.subrange(seg_start as int, i + 1),
                    t,
                ));
            }
            i += 1;
        }
    }
    proof {
        assert(s.skip(n as int) =~= Seq::<char>::empty());
        assert(!match_at(Seq::<char>::empty(), p, 0));
        assert(chunks_of(s.skip(n as int), p) =~= seq![Seq::<char>::empty()]);
        let cur = s.subrange(seg_start as int, n as int);
        assert(extend_first(cur, seq![Seq::<char>::empty()]) =~= seq![cur]);
        assert(chunks_of(s, p) == r.deep_view() + seq![cur]);
    }
    if seg_start < n {
        let ghost dv0 = r.deep_view();
        let ghost cur = s.subrange(seg_start as int, n as int);
        r.push(string.substring_char(seg_start, n).to_owned());
        proof {
            assert(r@.len() == dv0.len() + 1);
            assert forall|j: int| 0 <= j < r@.len() implies r.deep_view()[j] == dv0.push(cur)[j] by {
                if j < dv0.len() {
                    assert(r.deep_view()[j] == dv0[j]);
                } else {
                    assert(r.deep_view()[j] == r@[j]@);
                }
            }
            assert(r.deep_view() =~= dv0.push(cur));
            assert(r.deep_view() =~= chunks_of(s, p));
            assert(chunks_of(s, p).last().len() > 0);
            assert(r.deep_view() =~= split_segments(s, p));
        }
    } else {
        proof {
            let cur = s.subrange(seg_start as int, n as int);
            assert(cur =~= Seq::<char>::empty());
            let full = chunks_of(s, p);
            assert(full.last() == cur);
            assert(full.drop_last() =~= r.deep_view());
            assert(r.deep_view() =~= split_segments(s, p));
        }
    }
    r
}

/// Splits `string` into its extended grapheme clusters, or a single empty
/// segment when `string` is empty. Concatenated, the segments give `string`
/// back.
pub fn graphemes(string: &str) -> (r: Vec<String>)
    ensures
        string@.len() == 0 ==> r.deep_view() == seq![Seq::<char>::empty()],
        string@.len() > 0 ==> r.deep_view() == grapheme_clusters_of(string@),
        r.deep_view().flatten() == string@,
{
    if string.is_empty() {
        let mut r: Vec<String> = Vec::new();
        r.push(String::new());
        proof {
            assert(r.deep_view() =~= seq![Seq::<char>::empty()]);
            r.deep_view().lemma_flatten_one_element();
            assert(r.deep_view().flatten() =~= string@);
        }
        return r;
    }
    grapheme_clusters(string)
}

/// The casing class of the most recently consumed cased character within the
/// current word of the tokenizer. It is reset at every emitted boundary and
/// lives only for the duration of one tokenization.
#[derive(Clone, Copy, Debug, PartialEq, Eq, Structural)]
pub enum WordMode {
    /// No cased character has been consumed in the current word.
    Boundary,
    /// The previous cased character in the current word is lowercase.
    Lowercase,
    /// The previous cased character in the current word is uppercase.
    Uppercase,
}

/// `s` with every hyphen and underscore replaced by a space.
pub open spec fn replaced_separators(s: Seq<char>) -> Seq<char> {
    s.map_values(
        |c: char|
            if c == '-' || c == '_' {
                ' '
            } else {
                c
            },
    )
}

/// The segments of `ws` joined by `sep`.
pub open spec fn joined_with(ws: Seq<Seq<char>>, sep: Seq<char>) -> Seq<char> {
    if ws.len() == 0 {
        Seq::empty()
    } else {
        ws[0] + join_tail(ws.skip(1), sep)
    }
}

/// The remaining segments of a join, each preceded by one separator.
pub open spec fn join_tail(ws: Seq<Seq<char>>, sep: Seq<char>) -> Seq<char>
    decreases ws.len(),
{
    if ws.len() == 0 {
        Seq::empty()
    } else {
        sep + ws[0] + join_tail(ws.skip(1), sep)
    }
}

/// The words of `ws` joined by single spaces.
pub open spec fn joined_with_spaces(ws: Seq<Seq<char>>) -> Seq<char> {
    joined_with(ws, seq![' '])
}

/// The mode the tokenizer moves to after consuming `c` in mode `m`: the
/// casing class of `c`, or `m` unchanged when `c` is uncased.
pub open spec fn casing_mode(c: char, m: WordMode) -> WordMode {
    if lowercase_char(c) {
        WordMode::Lowercase
    } else if uppercase_char(c) {
        WordMode::Uppercase
    } else {
        m
    }
}

/// `s` with a space inserted at every casing-transition word boundary, the
/// walk starting in mode `m`: after a lowercase-classified character followed
/// by an uppercase one, and before the last uppercase character of an
/// uppercase run followed by a lowercase one. The final character is copied
/// as it stands.
pub open spec fn boundaries_from(s: Seq<char>, m: WordMode) -> Seq<char>
    decreases s.len(),
{
    if s.len() == 0 {
        Seq::empty()
    } else if s.len() == 1 {
        s
    } else {
        let c = s[0];
        let next = s[1];
        let target = casing_mode(c, m);
        if target == WordMode::Lowercase && uppercase_char(next) {
            seq![c, ' '] + boundaries_from(s.skip(1), WordMode::Boundary)
        } else if m == WordMode::Uppercase && uppercase_char(c) && lowercase_char(next) {
            seq![' ', c] + boundaries_from(s.skip(1), WordMode::Boundary)
        } else {
            seq![c] + boundaries_from(s.skip(1), target)
        }
    }
}

/// `s` with a space inserted at every casing-transition word boundary.
pub open spec fn with_casing_boundaries(s: Seq<char>) -> Seq<char> {
    boundaries_from(s, WordMode::Boundary)
}

/// Replaces every hyphen and underscore in `string` by a space.
fn normalize_separators(string: &str) -> (r: String)
    ensures
        r@ == replaced_separators(string@),
{
    let n = string.unicode_len();
    let mut out = String::new();
    let mut i: usize = 0;
    while i < n
        invariant
            0 <= i <= n,
            n == string@.len(),
            out@ == replaced_separators(string@.take(i as int)),
        decreases n - i,
    {
        let c = string.get_char(i);
        if c == '-' || c == '_' {
            push_char(&mut out, ' ');
        } else {
            push_char(&mut out, c);
        }
        proof {
            assert(replaced_separators(string@.take(i + 1)) =~= replaced_separators(
                string@.take(i as int),
            ).push(out@.last()));
        }
        i += 1;
    }
    proof {
        assert(string@.take(n as int) =~= string@);
    }
    out
}

/// Joins the given words with single spaces.
fn join_words(ws: &Vec<String>) -> (r: String)
    ensures
        r@ == joined_with_spaces(ws.deep_view()),
{
    if ws.len() == 0 {
        return String::new();
    }
    let mut out = (&ws[0]).clone();
    let mut i: usize = 1;
    proof {
        reveal_strlit(" ");
        assert(out@ + join_tail(ws.deep_view().skip(1), seq![' ']) == joined_with_spaces(ws.deep_view()));
    }
    while i < ws.len()
        invariant
            1 <= i <= ws@.len(),
            ws.deep_view().len() == ws@.len(),
            out@ + join_tail(ws.deep_view().skip(i as int), seq![' ']) == joined_with_spaces(ws.deep_view()),
        decreases ws@.len() - i,
    {
        proof {
            reveal_strlit(" ");
            assert(ws.deep_view().skip(i as int).skip(1) =~= ws.deep_view().skip(i + 1));
            assert(ws.deep_view().skip(i as int)[0] == ws@[i as int]@);
        }
        out.append(" ");
        out.append((&ws[i]).as_str());
        i += 1;
    }
    proof {
        assert(join_tail(ws.deep_view().skip(ws@.len() as int), seq![' ']) =~= Seq::<char>::empty());
        assert(out@ =~= joined_with_spaces(ws.deep_view()));
    }
    out
}

/// Walks `string` one code point at a time with a lookahead of one and
/// inserts a space at every casing-transition word boundary.
fn insert_casing_boundaries(string: &str) -> (r: String)
    ensures
        r@ == with_casing_boundaries(string@),
{
    let n = string.unicode_len();
    let mut out = String::new();
    let mut mode = WordMode::Boundary;
    let mut i: usize = 0;
    proof {
        assert(string@.skip(0) =~= string@);
        assert(Seq::<char>::empty() + with_casing_boundaries(string@) =~= with_casing_boundaries(
            string@,
        ));
    }
    while i < n
        invariant
            0 <= i <= n,
            n == string@.len(),
            with_casing_boundaries(string@) == out@ + boundaries_from(string@.skip(i as int), mode),
        decreases n - i,
    {
        let ghost pre = out@;
        let ghost suffix = string@.skip(i as int);
        proof {
            assert(suffix[0] == string@[i as int]);
            assert(suffix.skip(1) =~= string@.skip(i + 1));
        }
        let c = string.get_char(i);
        if i + 1 < n {
            proof {
                assert(suffix[1] == string@[i + 1]);
            }
            let next = string.get_char(i + 1);
            let target = if char_is_lowercase(c) {
                WordMode::Lowercase
            } else if char_is_uppercase(c) {
                WordMode::Uppercase
            } else {
                mode
            };
            if target == WordMode::Lowercase && char_is_uppercase(next) {
                push_char(&mut out, c);
                push_char(&mut out, ' ');
                proof {
                    assert(out@ =~= pre + seq![c, ' ']);
                    assert(pre + (seq![c, ' '] + boundaries_from(suffix.skip(1), WordMode::Boundary))
                        =~= out@ + boundaries_from(string@.skip(i + 1), WordMode::Boundary));
                }
                mode = WordMode::Boundary;
            } else if mode == WordMode::Uppercase && char_is_uppercase(c) && char_is_lowercase(
                next,
            ) {
                push_char(&mut out, ' ');
                push_char(&mut out, c);
                proof {
                    assert(out@ =~= pre + seq![' ', c]);
                    assert(pre + (seq![' ', c] + boundaries_from(suffix.skip(1), WordMode::Boundary))
                        =~= out@ + boundaries_from(string@.skip(i + 1), WordMode::Boundary));
                }
                mode = WordMode::Boundary;
            } else {
                push_char(&mut out, c);
                proof {
                    assert(out@ =~= pre + seq![c]);
                    assert(pre + (seq![c] + boundaries_from(suffix.skip(1), target)) =~= out@
                        + boundaries_from(string@.skip(i + 1), target));
                }
                mode = target;
            }
        } else {
            push_char(&mut out, c);
            proof {
                assert(suffix =~= seq![c]);
                assert(boundaries_from(suffix, mode) == suffix);
                assert(out@ =~= pre + suffix);
                assert(string@.skip(i + 1) =~= Seq::<char>::empty());
                assert(out@ + boundaries_from(string@.skip(i + 1), mode) =~= out@);
            }
        }
        i += 1;
    }
    proof {
        assert(string@.skip(n as int) =~= Seq::<char>::empty());
        assert(out@ =~= with_casing_boundaries(string@));
    }
    out
}

/// Splits `string` into an ordered sequence of natural-language words:
/// hyphens and underscores are normalized to spaces, the UAX#29 words are
/// extracted and rejoined with single spaces, a space is inserted at every
/// casing-transition boundary, and the UAX#29 words of that text are the
/// result. Empty input yields no words.
pub fn words(string: &str) -> (r: Vec<String>)
    ensures
        r.deep_view() == unicode_words_of(
            with_casing_boundaries(
                joined_with_spaces(unicode_words_of(replaced_separators(string@))),
            ),
        ),
        string@.len() == 0 ==> r@.len() == 0,
{
    let normalized = normalize_separators(string);
    let candidates = unicode_words_vec(normalized.as_str());
    let joined = join_words(&candidates);
    proof {
        if string@.len() == 0 {
            assert(candidates.deep_view().len() == candidates@.len());
            assert(joined@.len() == 0);
        }
    }
    let cased = insert_casing_boundaries(joined.as_str());
    unicode_words_vec(cased.as_str())
}

} // verus!
