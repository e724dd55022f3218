//! Text, wildcard and path-pattern matching.

use vstd::prelude::*;
use crate::strings::{
    chars_of, contains_char, contains_chars, contains_seq, ends_with, ends_with_chars, split_char,
    split_chars, starts_with, starts_with_chars, str_views, string_of, sub_chars, trim, trim_chars,
    chars_eq, split_acc, vec_views,
};

verus! {

// ---------------------------------------------------------------------------
// Wildcards
// ---------------------------------------------------------------------------

/// The pattern from `pi` on holds only `*`.
pub open spec fn only_stars_from(p: Seq<char>, pi: int) -> bool {
    forall|k: int| pi <= k < p.len() ==> p[k] == '*'
}

/// The wildcard matcher's run from state (`pi`, `ci`, last star, its
/// candidate index): a `?` or an equal character advances both sides; a `*`
/// is remembered and first matches nothing; on a mismatch the last `*`
/// takes one more character; at the end of the candidate only `*` may be
/// left of the pattern.
pub open spec fn wild_run(p: Seq<char>, c: Seq<char>, pi: int, ci: int, star: Option<int>, sc: int) -> bool
    decreases c.len() - sc, c.len() - ci, p.len() - pi,
{
    if !(0 <= sc <= ci <= c.len() && 0 <= pi <= p.len()) {
        false
    } else if ci < c.len() {
        if pi < p.len() && (p[pi] == '?' || p[pi] == c[ci]) {
            wild_run(p, c, pi + 1, ci + 1, star, sc)
        } else if pi < p.len() && p[pi] == '*' {
            wild_run(p, c, pi + 1, ci, Some(pi), ci)
        } else {
            match star {
                Some(s) => if 0 <= s < p.len() {
                    wild_run(p, c, s + 1, sc + 1, star, sc + 1)
                } else {
                    false
                },
                None => false,
            }
        }
    } else {
        only_stars_from(p, pi)
    }
}

/// Whether a wildcard pattern (`*` any run, `?` any one character) matches
/// a candidate, by the greedy matcher with one-star backtracking.
pub open spec fn wildcard_match(p: Seq<char>, c: Seq<char>) -> bool {
    wild_run(p, c, 0, 0, None, 0)
}

/// Glob matching of `p[i..]` against `c[j..]`: `*` matches any run of
/// characters, `?` any one character, anything else itself.
pub open spec fn glob_from(p: Seq<char>, c: Seq<char>, i: int, j: int) -> bool
    decreases (p.len() - i) + (c.len() - j),
{
    if !(0 <= i <= p.len() && 0 <= j <= c.len()) {
        false
    } else if i == p.len() {
        j == c.len()
    } else if p[i] == '*' {
        glob_from(p, c, i + 1, j) || (j < c.len() && glob_from(p, c, i, j + 1))
    } else {
        j < c.len() && (p[i] == '?' || p[i] == c[j]) && glob_from(p, c, i + 1, j + 1)
    }
}

/// `p[i..i + n]` holds no `*` and matches `c[k..k + n]` position by position.
pub open spec fn literal_at(p: Seq<char>, c: Seq<char>, i: int, k: int, n: int) -> bool {
    &&& 0 <= n && 0 <= i && i + n <= p.len() && 0 <= k && k + n <= c.len()
    &&& forall|t: int| 0 <= t < n ==> p[i + t] != '*' && (p[i + t] == '?' || #[trigger] p[i + t] == c[k + t])
}

proof fn lemma_glob_at_end(p: Seq<char>, c: Seq<char>, i: int)
    requires
        0 <= i <= p.len(),
    ensures
        glob_from(p, c, i, c.len() as int) == only_stars_from(p, i),
    decreases p.len() - i,
{
    if i < p.len() {
        lemma_glob_at_end(p, c, i + 1);
        if p[i] != '*' {
            assert(!only_stars_from(p, i));
        }
    }
}

proof fn lemma_glob_literal_skip(p: Seq<char>, c: Seq<char>, i: int, k: int, n: int)
    requires
        literal_at(p, c, i, k, n),
    ensures
        glob_from(p, c, i, k) == glob_from(p, c, i + n, k + n),
    decreases n,
{
    if n > 0 {
        assert(p[i + 0] != '*' && (p[i + 0] == '?' || p[i + 0] == c[k + 0]));
        assert(literal_at(p, c, i + 1, k + 1, n - 1)) by {
            assert forall|t: int| 0 <= t < n - 1 implies p[i + 1 + t] != '*' && (p[i + 1 + t] == '?' || #[trigger] p[i + 1 + t] == c[k + 1 + t]) by {
                assert(p[i + (t + 1)] != '*' && (p[i + (t + 1)] == '?' || p[i + (t + 1)] == c[k + (t + 1)]));
            }
        }
        lemma_glob_literal_skip(p, c, i + 1, k + 1, n - 1);
    }
}

proof fn lemma_glob_needs_literal(p: Seq<char>, c: Seq<char>, i: int, k: int, n: int)
    requires
        0 <= n,
        0 <= i,
        i + n <= p.len(),
        forall|t: int| 0 <= t < n ==> #[trigger] p[i + t] != '*',
        glob_from(p, c, i, k),
    ensures
        literal_at(p, c, i, k, n),
        glob_from(p, c, i + n, k + n),
    decreases n,
{
    if n > 0 {
        assert(p[i + 0] != '*');
        assert(forall|t: int| 0 <= t < n - 1 ==> #[trigger] p[i + 1 + t] != '*') by {
            assert forall|t: int| 0 <= t < n - 1 implies #[trigger] p[i + 1 + t] != '*' by {
                assert(p[i + (t + 1)] != '*');
            }
        }
        lemma_glob_needs_literal(p, c, i + 1, k + 1, n - 1);
        assert forall|t: int| 0 <= t < n implies p[i + t] != '*' && (p[i + t] == '?' || #[trigger] p[i + t] == c[k + t]) by {
            if t > 0 {
                assert(p[i + 1 + (t - 1)] == '?' || p[i + 1 + (t - 1)] == c[k + 1 + (t - 1)]);
            }
        }
    } else {
        assert(0 <= k <= c.len());
    }
}

proof fn lemma_star_absorbs(p: Seq<char>, c: Seq<char>, i: int, y: int, x: int)
    requires
        0 <= i < p.len(),
        p[i] == '*',
        0 <= y <= x <= c.len(),
        glob_from(p, c, i, x),
    ensures
        glob_from(p, c, i, y),
    decreases x - y,
{
    if y < x {
        lemma_star_absorbs(p, c, i, y + 1, x);
    }
}

proof fn lemma_star_witness(p: Seq<char>, c: Seq<char>, i: int, m: int)
    requires
        0 <= i < p.len(),
        p[i] == '*',
        glob_from(p, c, i, m),
    ensures
        exists|k: int| m <= k <= c.len() && #[trigger] glob_from(p, c, i + 1, k),
    decreases c.len() - m,
{
    if !glob_from(p, c, i + 1, m) {
        lemma_star_witness(p, c, i, m + 1);
        let k = choose|k: int| m + 1 <= k <= c.len() && #[trigger] glob_from(p, c, i + 1, k);
        assert(m <= k <= c.len() && glob_from(p, c, i + 1, k));
    } else {
        assert(m <= m <= c.len());
    }
}

/// After a `*` at `s` followed by a star-free run matched at `sc`, reaching
/// another `*` at `pi`: the earlier star's options are the later star's.
proof fn lemma_next_star(p: Seq<char>, c: Seq<char>, s: int, sc: int, pi: int, ci: int)
    requires
        0 <= s < pi < p.len(),
        p[s] == '*',
        p[pi] == '*',
        ci - sc == pi - s - 1,
        literal_at(p, c, s + 1, sc, pi - s - 1),
    ensures
        glob_from(p, c, s, sc) == glob_from(p, c, pi, ci),
{
    let n = pi - s - 1;
    lemma_glob_literal_skip(p, c, s + 1, sc, n);
    if glob_from(p, c, s, sc) {
        lemma_star_witness(p, c, s, sc);
        let k = choose|k: int| sc <= k <= c.len() && #[trigger] glob_from(p, c, s + 1, k);
        assert forall|t: int| 0 <= t < n implies #[trigger] p[s + 1 + t] != '*' by {
            assert(p[s + 1 + t] != '*' && (p[s + 1 + t] == '?' || p[s + 1 + t] == c[sc + t]));
        }
        lemma_glob_needs_literal(p, c, s + 1, k, n);
        lemma_star_absorbs(p, c, pi, ci, k + n);
    }
}

/// The greedy matcher run, on a candidate without `*`, agrees with glob
/// matching: without a remembered star from the current positions, with
/// one from the star's own position.
proof fn lemma_wild_run_glob(p: Seq<char>, c: Seq<char>, pi: int, ci: int, star: Option<int>, sc: int)
    requires
        !c.contains('*'),
        0 <= sc <= ci <= c.len(),
        0 <= pi <= p.len(),
        star matches Some(s) ==> 0 <= s < pi && p[s] == '*' && ci - sc == pi - s - 1
            && literal_at(p, c, s + 1, sc, pi - s - 1),
    ensures
        wild_run(p, c, pi, ci, star, sc) == match star {
            None => glob_from(p, c, pi, ci),
            Some(s) => glob_from(p, c, s, sc),
        },
    decreases c.len() - sc, c.len() - ci, p.len() - pi,
{
    if ci < c.len() {
        assert(c[ci] != '*') by {
            if c[ci] == '*' {
                assert(c.contains('*'));
            }
        }
        if pi < p.len() && (p[pi] == '?' || p[pi] == c[ci]) {
            match star {
                None => {
                    lemma_wild_run_glob(p, c, pi + 1, ci + 1, star, sc);
                },
                Some(s) => {
                    assert(literal_at(p, c, s + 1, sc, pi + 1 - s - 1)) by {
                        assert forall|t: int| 0 <= t < pi + 1 - s - 1 implies p[s + 1 + t] != '*'
                            && (p[s + 1 + t] == '?' || #[trigger] p[s + 1 + t] == c[sc + t]) by {
                            if t == pi - s - 1 {
                                assert(s + 1 + t == pi && sc + t == ci);
                            }
                        }
                    }
                    lemma_wild_run_glob(p, c, pi + 1, ci + 1, star, sc);
                },
            }
        } else if pi < p.len() && p[pi] == '*' {
            assert(literal_at(p, c, pi + 1, ci, 0));
            lemma_wild_run_glob(p, c, pi + 1, ci, Some(pi), ci);
            if let Some(s) = star {
                lemma_next_star(p, c, s, sc, pi, ci);
            }
        } else {
            match star {
                None => {},
                Some(s) => {
                    assert(literal_at(p, c, s + 1, sc + 1, 0));
                    lemma_wild_run_glob(p, c, s + 1, sc + 1, star, sc + 1);
                    lemma_glob_literal_skip(p, c, s + 1, sc, pi - s - 1);
                    assert(!glob_from(p, c, pi, ci));
                },
            }
        }
    } else {
        lemma_glob_at_end(p, c, pi);
        if let Some(s) = star {
            let n = pi - s - 1;
            lemma_glob_literal_skip(p, c, s + 1, sc, n);
            if glob_from(p, c, s, sc) {
                lemma_star_witness(p, c, s, sc);
                let k = choose|k: int| sc <= k <= c.len() && #[trigger] glob_from(p, c, s + 1, k);
                assert forall|t: int| 0 <= t < n implies #[trigger] p[s + 1 + t] != '*' by {
                    assert(p[s + 1 + t] != '*' && (p[s + 1 + t] == '?' || p[s + 1 + t] == c[sc + t]));
                }
                lemma_glob_needs_literal(p, c, s + 1, k, n);
                assert(k == sc);
            }
        }
    }
}

/// On candidates without `*`, the wildcard matcher is glob matching: `*`
/// matches any run of characters, `?` any one character. (A `*` in the
/// candidate is first compared as a literal character, so there the
/// greedy matcher can differ: pattern `*` does not match candidate `*x`.)
pub proof fn law_wildcard_is_glob(p: Seq<char>, c: Seq<char>)
    requires
        !c.contains('*'),
    ensures
        wildcard_match(p, c) == glob_from(p, c, 0, 0),
{
    lemma_wild_run_glob(p, c, 0, 0, None, 0);
}

/// Matches a pattern with wildcards (`*` and `?`) against a candidate.
pub fn wildcard_matches(pattern: &str, candidate: &str) -> (r: bool)
    ensures
        r == wildcard_match(pattern@, candidate@),
{
    let p = chars_of(pattern);
    let c = chars_of(candidate);
    let mut pi: usize = 0;
    let mut ci: usize = 0;
    let mut star: Option<usize> = None;
    let mut sc: usize = 0;
    while ci < c.len()
        invariant
            p@ == pattern@,
            c@ == candidate@,
            sc <= ci <= c.len(),
            pi <= p.len(),
            star matches Some(s) ==> s < p.len(),
            wildcard_match(p@, c@) == wild_run(p@, c@, pi as int, ci as int,
                match star { Some(s) => Some(s as int), None => None }, sc as int),
        decreases c.len() - sc, c.len() - ci, p.len() - pi,
    {
        if pi < p.len() && (p[pi] == '?' || p[pi] == c[ci]) {
            pi = pi + 1;
            ci = ci + 1;
        } else if pi < p.len() && p[pi] == '*' {
            star = Some(pi);
            pi = pi + 1;
            sc = ci;
        } else {
            match star {
                Some(s) => {
                    pi = s + 1;
                    sc = sc + 1;
                    ci = sc;
                },
                None => {
                    return false;
                },
            }
        }
    }
    let ghost pi0 = pi;
    while pi < p.len() && p[pi] == '*'
        invariant
            pi0 <= pi <= p.len(),
            forall|k: int| pi0 <= k < pi ==> p@[k] == '*',
        decreases p.len() - pi,
    {
        pi = pi + 1;
    }
    proof {
        if pi == p.len() {
            assert(only_stars_from(p@, pi0 as int));
        } else {
            assert(!only_stars_from(p@, pi0 as int)) by {
                assert(p@[pi as int] != '*');
            }
        }
    }
    pi == p.len()
}

// ---------------------------------------------------------------------------
// Segment matchers
// ---------------------------------------------------------------------------

/// How a concrete segment compares with a path segment.
#[derive(Debug, Clone, Copy, PartialEq, Eq, Structural)]
pub enum TextSegmentMatchKind {
    Substr,
    Prefix,
    Suffix,
    Exact,
}

/// A matcher of one path segment.
#[derive(Debug)]
pub struct TextSegmentMatcher {
    pub kind: TextSegmentMatchKind,
    pub value: String,
    pub has_wildcards: bool,
}

/// One segment of a path query.
#[derive(Debug)]
pub enum TextQuerySegment {
    Concrete(TextSegmentMatcher),
    Star,
    GlobStar,
}

/// The model of a path query segment.
pub enum SpecSegment {
    Concrete { kind: TextSegmentMatchKind, value: Seq<char>, wild: bool },
    Star,
    GlobStar,
}

/// The model of a segment.
pub open spec fn segment_view(s: TextQuerySegment) -> SpecSegment {
    match s {
        TextQuerySegment::Concrete(m) => SpecSegment::Concrete { kind: m.kind, value: m.value@, wild: m.has_wildcards },
        TextQuerySegment::Star => SpecSegment::Star,
        TextQuerySegment::GlobStar => SpecSegment::GlobStar,
    }
}

/// The models of segments.
pub open spec fn segments_view(s: Seq<TextQuerySegment>) -> Seq<SpecSegment> {
    s.map_values(|x: TextQuerySegment| segment_view(x))
}

/// Text with a `*` or `?`.
pub open spec fn has_wildcard(v: Seq<char>) -> bool {
    v.contains('*') || v.contains('?')
}

/// Whether a segment matcher accepts a candidate: by wildcard match when
/// it has wildcards, else by containment, prefix, suffix or equality.
pub open spec fn segment_accepts(kind: TextSegmentMatchKind, value: Seq<char>, wild: bool, cand: Seq<char>) -> bool {
    if wild {
        wildcard_match(value, cand)
    } else {
        match kind {
            TextSegmentMatchKind::Substr => contains_seq(cand, value),
            TextSegmentMatchKind::Prefix => starts_with(cand, value),
            TextSegmentMatchKind::Suffix => ends_with(cand, value),
            TextSegmentMatchKind::Exact => cand == value,
        }
    }
}

impl TextSegmentMatcher {
    /// A matcher of `value`, noting whether it holds wildcards.
    pub fn new(kind: TextSegmentMatchKind, value: &str) -> (r: Self)
        ensures
            r.kind == kind,
            r.value@ == value@,
            r.has_wildcards == has_wildcard(value@),
    {
        let v = chars_of(value);
        let has_wildcards = contains_char(&v, '*') || contains_char(&v, '?');
        TextSegmentMatcher { kind, value: string_of(&v), has_wildcards }
    }

    /// Whether the matcher accepts a candidate segment.
    pub fn matches(&self, candidate: &str) -> (r: bool)
        ensures
            r == segment_accepts(self.kind, self.value@, self.has_wildcards, candidate@),
    {
        if self.has_wildcards {
            return wildcard_matches(self.value.as_str(), candidate);
        }
        let c = chars_of(candidate);
        let v = chars_of(self.value.as_str());
        match self.kind {
            TextSegmentMatchKind::Substr => contains_chars(&c, &v),
            TextSegmentMatchKind::Prefix => starts_with_chars(&c, &v),
            TextSegmentMatchKind::Suffix => ends_with_chars(&c, &v),
            TextSegmentMatchKind::Exact => chars_eq(&c, &v),
        }
    }
}

// ---------------------------------------------------------------------------
// Path query segmentation
// ---------------------------------------------------------------------------

/// `\` read as `/`.
pub open spec fn forward(s: Seq<char>) -> Seq<char> {
    s.map_values(|c: char| if c == '\\' { '/' } else { c })
}

/// The text without leading `/`.
pub open spec fn strip_leading_slashes(s: Seq<char>) -> Seq<char>
    decreases s.len(),
{
    if s.len() > 0 && s[0] == '/' {
        strip_leading_slashes(s.drop_first())
    } else {
        s
    }
}

/// The text without trailing `/`.
pub open spec fn strip_trailing_slashes(s: Seq<char>) -> Seq<char>
    decreases s.len(),
{
    if s.len() > 0 && s.last() == '/' {
        strip_trailing_slashes(s.drop_last())
    } else {
        s
    }
}

/// The match kind of segment `i` of `n`: the first segment matches a
/// suffix unless the text starts with `/`, the last one a prefix unless it
/// ends with `/`; a single segment open on both sides matches a substring.
pub open spec fn segment_kind(i: int, n: int, left_close: bool, right_close: bool) -> TextSegmentMatchKind {
    if n == 1 {
        if !left_close && !right_close {
            TextSegmentMatchKind::Substr
        } else if !left_close {
            TextSegmentMatchKind::Suffix
        } else if !right_close {
            TextSegmentMatchKind::Prefix
        } else {
            TextSegmentMatchKind::Exact
        }
    } else if i == n - 1 && !right_close {
        TextSegmentMatchKind::Prefix
    } else if i == 0 && !left_close {
        TextSegmentMatchKind::Suffix
    } else {
        TextSegmentMatchKind::Exact
    }
}

/// The segment a piece of a path query reads as.
pub open spec fn piece_segment(piece: Seq<char>, kind: TextSegmentMatchKind) -> SpecSegment {
    if piece == seq!['*', '*'] {
        SpecSegment::GlobStar
    } else if piece == seq!['*'] {
        SpecSegment::Star
    } else {
        SpecSegment::Concrete { kind, value: piece, wild: has_wildcard(piece) }
    }
}

/// The segments of a path query: `\` read as `/`, outer `/` stripped and
/// noted, split at `/`; none when nothing is left or a piece is empty.
pub open spec fn query_segments(raw: Seq<char>) -> Seq<SpecSegment> {
    let normalized = forward(raw);
    let left_close = normalized.len() > 0 && normalized[0] == '/';
    let right_close = normalized.len() > 0 && normalized.last() == '/';
    let trimmed = strip_trailing_slashes(strip_leading_slashes(normalized));
    let pieces = split_char(trimmed, '/');
    if trimmed.len() == 0 || exists|k: int| 0 <= k < pieces.len() && pieces[k].len() == 0 {
        Seq::empty()
    } else {
        Seq::new(pieces.len(), |i: int| piece_segment(pieces[i], segment_kind(i, pieces.len() as int, left_close, right_close)))
    }
}

/// Parses a query text into path segments for matching.
pub fn segment_query_text(raw: &str) -> (r: Vec<TextQuerySegment>)
    ensures
        segments_view(r@) == query_segments(raw@),
{
    let v = chars_of(raw);
    let mut normalized: Vec<char> = Vec::new();
    let mut i: usize = 0;
    while i < v.len()
        invariant
            i <= v.len(),
            v@ == raw@,
            normalized@ == forward(v@.subrange(0, i as int)),
        decreases v.len() - i,
    {
        normalized.push(if v[i] == '\\' { '/' } else { v[i] });
        proof {
            assert(normalized@ =~= forward(v@.subrange(0, i + 1)));
        }
        i = i + 1;
    }
    assert(v@.subrange(0, v.len() as int) =~= v@);
    let left_close = normalized.len() > 0 && normalized[0] == '/';
    let right_close = normalized.len() > 0 && normalized[normalized.len() - 1] == '/';
    let mut lo: usize = 0;
    assert(normalized@.subrange(0, normalized.len() as int) =~= normalized@);
    while lo < normalized.len() && normalized[lo] == '/'
        invariant
            lo <= normalized.len(),
            strip_leading_slashes(normalized@) == strip_leading_slashes(normalized@.subrange(lo as int, normalized.len() as int)),
        decreases normalized.len() - lo,
    {
        proof {
            assert(normalized@.subrange(lo as int, normalized.len() as int).drop_first()
                =~= normalized@.subrange(lo + 1, normalized.len() as int));
        }
        lo = lo + 1;
    }
    let tail = sub_chars(&normalized, lo, normalized.len());
    let mut hi: usize = tail.len();
    assert(tail@.subrange(0, tail.len() as int) =~= tail@);
    while hi > 0 && tail[hi - 1] == '/'
        invariant
            hi <= tail.len(),
            strip_trailing_slashes(tail@) == strip_trailing_slashes(tail@.subrange(0, hi as int)),
        decreases hi,
    {
        proof {
            assert(tail@.subrange(0, hi as int).drop_last() =~= tail@.subrange(0, hi - 1));
        }
        hi = hi - 1;
    }
    let trimmed = sub_chars(&tail, 0, hi);
    let ghost spec_trimmed = strip_trailing_slashes(strip_leading_slashes(forward(raw@)));
    assert(trimmed@ == spec_trimmed);
    if trimmed.len() == 0 {
        proof {
            assert(segments_view(Seq::<TextQuerySegment>::empty()) =~= query_segments(raw@));
        }
        return Vec::new();
    }
    let pieces = split_chars(&trimmed, '/');
    let ghost sp = split_char(trimmed@, '/');
    assert(vec_views(pieces@) == sp);
    let mut k: usize = 0;
    while k < pieces.len()
        invariant
            k <= pieces.len(),
            vec_views(pieces@) == sp,
            sp == split_char(spec_trimmed, '/'),
            spec_trimmed == strip_trailing_slashes(strip_leading_slashes(forward(raw@))),
            spec_trimmed.len() > 0,
            forall|j: int| 0 <= j < k ==> sp[j].len() > 0,
        decreases pieces.len() - k,
    {
        assert(sp[k as int] == pieces@[k as int]@);
        if pieces[k].len() == 0 {
            proof {
                assert(sp[k as int].len() == 0);
                assert(segments_view(Seq::<TextQuerySegment>::empty()) =~= query_segments(raw@));
            }
            return Vec::new();
        }
        k = k + 1;
    }
    let n = pieces.len();
    let mut r: Vec<TextQuerySegment> = Vec::new();
    let mut j: usize = 0;
    while j < n
        invariant
            j <= n,
            n == pieces.len(),
            n == sp.len(),
            vec_views(pieces@) == sp,
            sp == split_char(spec_trimmed, '/'),
            spec_trimmed == strip_trailing_slashes(strip_leading_slashes(forward(raw@))),
            spec_trimmed.len() > 0,
            forall|t: int| 0 <= t < sp.len() ==> sp[t].len() > 0,
            left_close == (forward(raw@).len() > 0 && forward(raw@)[0] == '/'),
            right_close == (forward(raw@).len() > 0 && forward(raw@).last() == '/'),
            r@.len() == j,
            forall|t: int| 0 <= t < j ==> segments_view(r@)[t] == piece_segment(sp[t], segment_kind(t, n as int, left_close, right_close)),
        decreases n - j,
    {
        let kind = if n == 1 {
            if !left_close && !right_close {
                TextSegmentMatchKind::Substr
            } else if !left_close {
                TextSegmentMatchKind::Suffix
            } else if !right_close {
                TextSegmentMatchKind::Prefix
            } else {
                TextSegmentMatchKind::Exact
            }
        } else if j == n - 1 && !right_close {
            TextSegmentMatchKind::Prefix
        } else if j == 0 && !left_close {
            TextSegmentMatchKind::Suffix
        } else {
            TextSegmentMatchKind::Exact
        };
        let piece = &pieces[j];
        assert(piece@ == sp[j as int]);
        let ghost want = piece_segment(sp[j as int], segment_kind(j as int, n as int, left_close, right_close));
        let seg = if piece.len() == 2 && piece[0] == '*' && piece[1] == '*' {
            assert(piece@ =~= seq!['*', '*']);
            TextQuerySegment::GlobStar
        } else if piece.len() == 1 && piece[0] == '*' {
            assert(piece@ =~= seq!['*']);
            assert(piece@ != seq!['*', '*']);
            TextQuerySegment::Star
        } else {
            proof {
                if piece@ == seq!['*', '*'] {
                    assert(piece@.len() == 2);
                }
                if piece@ == seq!['*'] {
                    assert(piece@.len() == 1);
                }
            }
            let s = string_of(piece);
            TextQuerySegment::Concrete(TextSegmentMatcher::new(kind, s.as_str()))
        };
        assert(segment_view(seg) == want);
        let ghost old_r = r@;
        r.push(seg);
        proof {
            assert(segments_view(r@)[j as int] == segment_view(r@[j as int]));
            assert forall|t: int| 0 <= t < j + 1 implies segments_view(r@)[t] == piece_segment(sp[t], segment_kind(t, n as int, left_close, right_close)) by {
                if t < j {
                    assert(r@[t] == old_r[t]);
                    assert(segments_view(old_r)[t] == segment_view(old_r[t]));
                    assert(segments_view(r@)[t] == segment_view(r@[t]));
                } else {
                    assert(segments_view(r@)[t] == want);
                }
            }
        }
        j = j + 1;
    }
    proof {
        assert(!(exists|t: int| 0 <= t < sp.len() && sp[t].len() == 0));
        assert(segments_view(r@) =~= query_segments(raw@));
    }
    r
}

// ---------------------------------------------------------------------------
// Path query matching
// ---------------------------------------------------------------------------

/// All segment indices.
pub open spec fn all_indices(n: int) -> Set<int> {
    Set::new(|j: int| 0 <= j < n)
}

/// The indices right after those in `prev`.
pub open spec fn child_indices(prev: Set<int>, n: int) -> Set<int> {
    Set::new(|j: int| 0 <= j < n && prev.contains(j - 1))
}

/// The indices after some index in `prev`.
pub open spec fn descendant_indices(prev: Set<int>, n: int) -> Set<int> {
    Set::new(|j: int| 0 <= j < n && exists|i: int| prev.contains(i) && i < j)
}

/// The indices of `s` whose segment a matcher accepts.
pub open spec fn accepted(s: Set<int>, m: SpecSegment, cands: Seq<Seq<char>>) -> Set<int> {
    Set::new(|j: int| s.contains(j) && 0 <= j < cands.len() && match m {
        SpecSegment::Concrete { kind, value, wild } => segment_accepts(kind, value, wild, cands[j]),
        _ => true,
    })
}

/// The matching state after the first `k` pattern segments: the candidate
/// indices the last matcher can stand at (none before any matcher), whether
/// a `**` is pending, and whether a matcher was seen.
pub open spec fn path_state(pattern: Seq<SpecSegment>, cands: Seq<Seq<char>>, k: int) -> (Option<Set<int>>, bool, bool)
    decreases k,
{
    if k <= 0 || k > pattern.len() {
        (None, false, false)
    } else {
        let (cur, pending, saw) = path_state(pattern, cands, k - 1);
        let n = cands.len() as int;
        match pattern[k - 1] {
            SpecSegment::GlobStar => (cur, true, saw),
            m => {
                let reach = match cur {
                    Some(prev) => if pending { descendant_indices(prev, n) } else { child_indices(prev, n) },
                    None => all_indices(n),
                };
                (Some(accepted(reach, m, cands)), false, true)
            },
        }
    }
}

/// The candidate indices left once the whole pattern is read (a trailing
/// `**` reaches every later index; a pattern of only `**` reaches all).
pub open spec fn final_indices(pattern: Seq<SpecSegment>, cands: Seq<Seq<char>>) -> Set<int> {
    let (cur, pending, saw) = path_state(pattern, cands, pattern.len() as int);
    let n = cands.len() as int;
    if pending {
        match cur {
            Some(prev) => descendant_indices(prev, n),
            None => all_indices(n),
        }
    } else if saw {
        match cur {
            Some(s) => s,
            None => Set::empty(),
        }
    } else {
        all_indices(n)
    }
}

/// Whether a path pattern matches path segments: both are non-empty and
/// some candidate index is left once the whole pattern is read.
pub open spec fn path_matches(pattern: Seq<SpecSegment>, cands: Seq<Seq<char>>) -> bool {
    pattern.len() > 0 && cands.len() > 0 && exists|j: int| final_indices(pattern, cands).contains(j)
}

/// A list of indices holds exactly the members of a set, all below `n`.
pub open spec fn lists(l: Seq<usize>, s: Set<int>, n: int) -> bool {
    &&& forall|k: int| 0 <= k < l.len() ==> #[trigger] l[k] < n && s.contains(l[k] as int)
    &&& forall|j: int| #[trigger] s.contains(j) ==> exists|k: int| 0 <= k < l.len() && l[k] == j
}

fn all_segment_indices(n: usize) -> (r: Vec<usize>)
    ensures
        lists(r@, all_indices(n as int), n as int),
{
    let mut r: Vec<usize> = Vec::new();
    let mut i: usize = 0;
    while i < n
        invariant
            i <= n,
            r@.len() == i,
            forall|k: int| 0 <= k < i ==> r@[k] == k,
        decreases n - i,
    {
        r.push(i);
        i = i + 1;
    }
    assert forall|j: int| #[trigger] all_indices(n as int).contains(j) implies exists|k: int| 0 <= k < r@.len() && r@[k] == j by {
        assert(r@[j] == j);
    }
    r
}

/// The indices a step reaches from `prev`, deduplicated, kept when the
/// matcher (if any) accepts their segment.
fn step_indices(prev: &Vec<usize>, descend: bool, m: Option<&TextSegmentMatcher>, cands: &[String]) -> (r: Vec<usize>)
    requires
        forall|k: int| 0 <= k < prev@.len() ==> prev@[k] < cands@.len(),
    ensures
        forall|s: Set<int>| lists(prev@, s, cands@.len() as int) ==> lists(
            r@,
            accepted(
                if descend { descendant_indices(s, cands@.len() as int) } else { child_indices(s, cands@.len() as int) },
                match m {
                    Some(x) => SpecSegment::Concrete { kind: x.kind, value: x.value@, wild: x.has_wildcards },
                    None => SpecSegment::Star,
                },
                str_views(cands@),
            ),
            cands@.len() as int,
        ),
{
    let n = cands.len();
    let mut seen: Vec<bool> = Vec::new();
    let mut t: usize = 0;
    while t < n
        invariant
            t <= n,
            seen@.len() == t,
            forall|k: int| 0 <= k < t ==> !seen@[k],
        decreases n - t,
    {
        seen.push(false);
        t = t + 1;
    }
    let ghost reach = Set::new(|j: int| 0 <= j < n && exists|i: int| 0 <= i < prev@.len() && (if descend { prev@[i] < j } else { prev@[i] + 1 == j }));
    let mut r: Vec<usize> = Vec::new();
    let mut i: usize = 0;
    while i < prev.len()
        invariant
            i <= prev@.len(),
            n == cands@.len(),
            seen@.len() == n,
            forall|k: int| 0 <= k < prev@.len() ==> prev@[k] < n,
            forall|j: int| 0 <= j < n && seen@[j] ==> exists|q: int| 0 <= q < i && (if descend { prev@[q] < j } else { prev@[q] + 1 == j }),
            forall|q: int, j: int| 0 <= q < i && 0 <= j < n && (if descend { prev@[q] < j } else { prev@[q] + 1 == j }) ==> seen@[j],
            forall|k: int| 0 <= k < r@.len() ==> #[trigger] r@[k] < n && seen@[r@[k] as int] && (match m {
                Some(x) => segment_accepts(x.kind, x.value@, x.has_wildcards, cands@[r@[k] as int]@),
                None => true,
            }),
            forall|j: int| 0 <= j < n && seen@[j] && (match m {
                Some(x) => segment_accepts(x.kind, x.value@, x.has_wildcards, cands@[j]@),
                None => true,
            }) ==> exists|k: int| 0 <= k < r@.len() && r@[k] == j,
        decreases prev@.len() - i,
    {
        let p = prev[i];
        let mut q: usize = p + 1;
        let end: usize = if descend { n } else if p + 1 < n { p + 2 } else { n };
        while q < end
            invariant
                i < prev@.len(),
                p == prev@[i as int],
                p < n,
                n == cands@.len(),
                p + 1 <= q,
                end <= n,
                end == (if descend { n } else if p + 1 < n { (p + 2) as usize } else { n }),
                seen@.len() == n,
                forall|k: int| 0 <= k < prev@.len() ==> prev@[k] < n,
                forall|j: int| 0 <= j < n && seen@[j] ==> exists|qq: int| 0 <= qq < i + 1 && (if descend { prev@[qq] < j } else { prev@[qq] + 1 == j }),
                forall|qq: int, j: int| 0 <= qq < i && 0 <= j < n && (if descend { prev@[qq] < j } else { prev@[qq] + 1 == j }) ==> seen@[j],
                forall|j: int| p < j < q && j < n && (if descend { true } else { p + 1 == j }) ==> seen@[j],
                forall|k: int| 0 <= k < r@.len() ==> #[trigger] r@[k] < n && seen@[r@[k] as int] && (match m {
                    Some(x) => segment_accepts(x.kind, x.value@, x.has_wildcards, cands@[r@[k] as int]@),
                    None => true,
                }),
                forall|j: int| 0 <= j < n && seen@[j] && (match m {
                    Some(x) => segment_accepts(x.kind, x.value@, x.has_wildcards, cands@[j]@),
                    None => true,
                }) ==> exists|k: int| 0 <= k < r@.len() && r@[k] == j,
            decreases end - q,
        {
            if !seen[q] {
                let ghost old_seen = seen@;
                seen.set(q, true);
                let ok = match m {
                    Some(x) => x.matches(cands[q].as_str()),
                    None => true,
                };
                let ghost old_r = r@;
                if ok {
                    r.push(q);
                }
                proof {
                    assert forall|j: int| 0 <= j < n && seen@[j] && (match m {
                        Some(x) => segment_accepts(x.kind, x.value@, x.has_wildcards, cands@[j]@),
                        None => true,
                    }) implies exists|k: int| 0 <= k < r@.len() && r@[k] == j by {
                        if j == q {
                            assert(r@[r@.len() - 1] == q);
                        } else {
                            assert(old_seen[j]);
                            let k = choose|k: int| 0 <= k < old_r.len() && old_r[k] == j;
                            assert(r@[k] == j);
                        }
                    }
                    assert forall|k: int| 0 <= k < r@.len() implies #[trigger] r@[k] < n && seen@[r@[k] as int] && (match m {
                        Some(x) => segment_accepts(x.kind, x.value@, x.has_wildcards, cands@[r@[k] as int]@),
                        None => true,
                    }) by {
                        if k < old_r.len() {
                            assert(r@[k] == old_r[k]);
                        }
                    }
                    assert forall|j: int| 0 <= j < n && seen@[j] implies exists|qq: int| 0 <= qq < i + 1 && (if descend { prev@[qq] < j } else { prev@[qq] + 1 == j }) by {
                        if j == q {
                            assert(if descend { prev@[i as int] < j } else { prev@[i as int] + 1 == j });
                        } else {
                            assert(old_seen[j]);
                        }
                    }
                }
            }
            q = q + 1;
        }
        i = i + 1;
    }
    proof {
        let mspec = match m {
            Some(x) => SpecSegment::Concrete { kind: x.kind, value: x.value@, wild: x.has_wildcards },
            None => SpecSegment::Star,
        };
        assert forall|s: Set<int>| lists(prev@, s, n as int) implies lists(
            r@,
            accepted(
                if descend { descendant_indices(s, n as int) } else { child_indices(s, n as int) },
                mspec,
                str_views(cands@),
            ),
            n as int,
        ) by {
            let target = accepted(
                if descend { descendant_indices(s, n as int) } else { child_indices(s, n as int) },
                mspec,
                str_views(cands@),
            );
            assert forall|k: int| 0 <= k < r@.len() implies #[trigger] r@[k] < n && target.contains(r@[k] as int) by {
                let j = r@[k] as int;
                let qq = choose|qq: int| 0 <= qq < prev@.len() && (if descend { prev@[qq] < j } else { prev@[qq] + 1 == j });
                assert(s.contains(prev@[qq] as int));
                assert(str_views(cands@)[j] == cands@[j]@);
            }
            assert forall|j: int| #[trigger] target.contains(j) implies exists|k: int| 0 <= k < r@.len() && r@[k] == j by {
                if descend {
                    let ii = choose|ii: int| s.contains(ii) && ii < j;
                    let qq = choose|qq: int| 0 <= qq < prev@.len() && prev@[qq] == ii;
                    assert(prev@[qq] < j);
                } else {
                    let qq = choose|qq: int| 0 <= qq < prev@.len() && prev@[qq] == j - 1;
                    assert(prev@[qq] + 1 == j);
                }
                assert(seen@[j]);
                assert(str_views(cands@)[j] == cands@[j]@);
            }
        }
    }
    r
}

/// The indices whose segment a matcher accepts.
fn initial_indices(m: Option<&TextSegmentMatcher>, cands: &[String]) -> (r: Vec<usize>)
    ensures
        lists(
            r@,
            accepted(
                all_indices(cands@.len() as int),
                match m {
                    Some(x) => SpecSegment::Concrete { kind: x.kind, value: x.value@, wild: x.has_wildcards },
                    None => SpecSegment::Star,
                },
                str_views(cands@),
            ),
            cands@.len() as int,
        ),
{
    let n = cands.len();
    let mut r: Vec<usize> = Vec::new();
    let mut i: usize = 0;
    let ghost mspec = match m {
        Some(x) => SpecSegment::Concrete { kind: x.kind, value: x.value@, wild: x.has_wildcards },
        None => SpecSegment::Star,
    };
    let ghost target = accepted(all_indices(n as int), mspec, str_views(cands@));
    while i < n
        invariant
            i <= n,
            n == cands@.len(),
            target == accepted(all_indices(n as int), mspec, str_views(cands@)),
            mspec == (match m {
                Some(x) => SpecSegment::Concrete { kind: x.kind, value: x.value@, wild: x.has_wildcards },
                None => SpecSegment::Star,
            }),
            forall|k: int| 0 <= k < r@.len() ==> #[trigger] r@[k] < i && target.contains(r@[k] as int),
            forall|j: int| 0 <= j < i && #[trigger] target.contains(j) ==> exists|k: int| 0 <= k < r@.len() && r@[k] == j,
        decreases n - i,
    {
        let ok = match m {
            Some(x) => x.matches(cands[i].as_str()),
            None => true,
        };
        assert(str_views(cands@)[i as int] == cands@[i as int]@);
        let ghost old_r = r@;
        if ok {
            r.push(i);
        }
        proof {
            assert forall|j: int| 0 <= j < i + 1 && #[trigger] target.contains(j) implies exists|k: int| 0 <= k < r@.len() && r@[k] == j by {
                if j == i {
                    assert(r@[r@.len() - 1] == i);
                } else {
                    let k = choose|k: int| 0 <= k < old_r.len() && old_r[k] == j;
                    assert(r@[k] == j);
                }
            }
            assert forall|k: int| 0 <= k < r@.len() implies #[trigger] r@[k] < i + 1 && target.contains(r@[k] as int) by {
                if k < old_r.len() {
                    assert(r@[k] == old_r[k]);
                }
            }
        }
        i = i + 1;
    }
    r
}

/// Matches a pattern against path segments (see `path_matches`).
pub fn path_query_matches(pattern: &[TextQuerySegment], candidate_segments: &[String]) -> (r: bool)
    ensures
        r == path_matches(segments_view(pattern@), str_views(candidate_segments@)),
{
    if pattern.len() == 0 || candidate_segments.len() == 0 {
        return false;
    }
    let ghost sp = segments_view(pattern@);
    let ghost cs = str_views(candidate_segments@);
    let n = candidate_segments.len();
    let mut current: Option<Vec<usize>> = None;
    let mut pending = false;
    let mut saw = false;
    let mut k: usize = 0;
    while k < pattern.len()
        invariant
            k <= pattern@.len(),
            n == candidate_segments@.len(),
            sp == segments_view(pattern@),
            cs == str_views(candidate_segments@),
            cs.len() == n,
            ({
                let (scur, spend, ssaw) = path_state(sp, cs, k as int);
                &&& spend == pending
                &&& ssaw == saw
                &&& (scur is None <==> current is None)
                &&& (current matches Some(l) ==> lists(l@, scur->0, n as int))
            }),
        decreases pattern@.len() - k,
    {
        assert(sp[k as int] == segment_view(pattern@[k as int]));
        match &pattern[k] {
            TextQuerySegment::GlobStar => {
                pending = true;
            },
            TextQuerySegment::Star => {
                let next = match &current {
                    Some(prev) => step_indices(prev, pending, None, candidate_segments),
                    None => all_segment_indices(n),
                };
                proof {
                    let (scur, spend, ssaw) = path_state(sp, cs, k as int);
                    if scur is None {
                        assert(accepted(all_indices(n as int), SpecSegment::Star, cs) =~= all_indices(n as int));
                    }
                }
                current = Some(next);
                pending = false;
                saw = true;
            },
            TextQuerySegment::Concrete(m) => {
                let next = match &current {
                    Some(prev) => step_indices(prev, pending, Some(m), candidate_segments),
                    None => initial_indices(Some(m), candidate_segments),
                };
                current = Some(next);
                pending = false;
                saw = true;
            },
        }
        k = k + 1;
    }
    let fin = if pending {
        match &current {
            Some(prev) => step_indices(prev, true, None, candidate_segments),
            None => all_segment_indices(n),
        }
    } else if saw {
        match current {
            Some(l) => l,
            None => Vec::new(),
        }
    } else {
        all_segment_indices(n)
    };
    proof {
        let (scur, spend, ssaw) = path_state(sp, cs, sp.len() as int);
        let finset = final_indices(sp, cs);
        if spend {
            if let Some(prev) = scur {
                assert(accepted(descendant_indices(prev, n as int), SpecSegment::Star, cs) =~= descendant_indices(prev, n as int));
            }
        }
        assert(lists(fin@, finset, n as int));
        assert(sp.len() == pattern@.len());
        assert(cs.len() == candidate_segments@.len());
        assert(sp.len() > 0 && cs.len() > 0);
        if fin@.len() > 0 {
            assert(finset.contains(fin@[0] as int));
        }
        if exists|j: int| finset.contains(j) {
            let j = choose|j: int| finset.contains(j);
            assert(exists|k: int| 0 <= k < fin@.len() && fin@[k] == j);
        }
    }
    fin.len() > 0
}

// ---------------------------------------------------------------------------
// Text entry matching
// ---------------------------------------------------------------------------

/// Whether a text term matches an entry: the empty text matches all; a
/// text that reads as a path pattern is matched against the path's
/// segments; other text with a slash matches nothing; else the text must
/// occur in the name or the path.
pub open spec fn text_match(value: Seq<char>, name: Seq<char>, path: Seq<char>, segments: Seq<Seq<char>>) -> bool {
    if value.len() == 0 {
        true
    } else if query_segments(value).len() > 0 {
        path_matches(query_segments(value), segments)
    } else if value.contains('/') || value.contains('\\') {
        false
    } else {
        contains_seq(name, value) || contains_seq(path, value)
    }
}

/// Splitting text without the separator gives the text, after `cur`.
proof fn lemma_split_without_sep(t: Seq<char>, sep: char, cur: Seq<char>)
    requires
        !t.contains(sep),
    ensures
        split_acc(t, sep, cur) == seq![cur + t],
    decreases t.len(),
{
    if t.len() == 0 {
        assert(cur + t =~= cur);
    } else {
        assert(t[0] != sep);
        assert(!t.drop_first().contains(sep)) by {
            if t.drop_first().contains(sep) {
                let k = choose|k: int| 0 <= k < t.drop_first().len() && t.drop_first()[k] == sep;
                assert(t[k + 1] == sep);
            }
        }
        lemma_split_without_sep(t.drop_first(), sep, cur.push(t[0]));
        assert(cur.push(t[0]) + t.drop_first() =~= cur + t);
    }
}

/// Text matching goes by path segments alone: a non-empty value matches
/// exactly when its segments match the entry's path segments. (A value
/// that gives no segments holds a slash or backslash, and then matches
/// nothing, so the name and path never decide.)
pub proof fn law_text_match_by_segments(value: Seq<char>, name: Seq<char>, path: Seq<char>, segments: Seq<Seq<char>>)
    ensures
        text_match(value, name, path, segments) == (value.len() == 0 || path_matches(query_segments(value), segments)),
{
    if value.len() > 0 && query_segments(value).len() == 0 && !value.contains('/') && !value.contains('\\') {
        let f = forward(value);
        assert(f =~= value) by {
            assert forall|i: int| 0 <= i < value.len() implies f[i] == value[i] by {
                if value[i] == '\\' {
                    assert(value.contains('\\'));
                }
            }
        }
        assert(value[0] != '/') by {
            if value[0] == '/' {
                assert(value.contains('/'));
            }
        }
        assert(value.last() != '/') by {
            if value.last() == '/' {
                assert(value[value.len() - 1] == '/');
                assert(value.contains('/'));
            }
        }
        assert(strip_leading_slashes(value) == value);
        assert(strip_trailing_slashes(value) == value);
        lemma_split_without_sep(value, '/', Seq::empty());
        assert(Seq::<char>::empty() + value =~= value);
        assert(split_char(value, '/') == seq![value]);
        assert(false);
    }
}

/// A word free of slashes, backslashes and wildcards.
pub open spec fn plain_word(c: Seq<char>) -> bool {
    c.len() > 0 && !c.contains('/') && !c.contains('\\') && !c.contains('*') && !c.contains('?')
}

/// A plain word with an optional leading and trailing `/`.
pub open spec fn anchored(c: Seq<char>, left: bool, right: bool) -> Seq<char> {
    (if left { seq!['/'] } else { Seq::empty() }) + c + (if right { seq!['/'] } else { Seq::empty() })
}

/// An anchored plain word reads as one concrete segment of the word,
/// without wildcards.
proof fn lemma_anchored_segments(c: Seq<char>, left: bool, right: bool)
    requires
        plain_word(c),
    ensures
        query_segments(anchored(c, left, right)) == seq![SpecSegment::Concrete {
            kind: segment_kind(0, 1, left, right),
            value: c,
            wild: false,
        }],
{
    let v = anchored(c, left, right);
    let f = forward(v);
    assert(f =~= v) by {
        assert forall|i: int| 0 <= i < v.len() implies f[i] == v[i] by {
            if v[i] == '\\' {
                let j = if left { i - 1 } else { i };
                assert(c[j] == '\\');
                assert(c.contains('\\'));
            }
        }
    }
    assert(c[0] != '/' && c.last() != '/') by {
        if c[0] == '/' || c.last() == '/' {
            assert(c[0] == '/' || c[c.len() - 1] == '/');
            assert(c.contains('/'));
        }
    }
    let lc = v.len() > 0 && v[0] == '/';
    let rc = v.len() > 0 && v.last() == '/';
    assert(lc == left);
    assert(rc == right);
    let inner = c + (if right { seq!['/'] } else { Seq::empty() });
    if left {
        assert(v.drop_first() =~= inner);
    } else {
        assert(v =~= inner);
    }
    assert(inner[0] == c[0]);
    assert(strip_leading_slashes(inner) == inner);
    if left {
        assert(strip_leading_slashes(v) == strip_leading_slashes(v.drop_first()));
    }
    assert(strip_leading_slashes(v) == inner);
    assert(strip_trailing_slashes(c) == c);
    if right {
        assert(inner.drop_last() =~= c);
        assert(inner.last() == '/');
        assert(strip_trailing_slashes(inner) == strip_trailing_slashes(inner.drop_last()));
    } else {
        assert(inner =~= c);
    }
    assert(strip_trailing_slashes(inner) == c);
    lemma_split_without_sep(c, '/', Seq::empty());
    assert(Seq::<char>::empty() + c =~= c);
    assert(split_char(c, '/') == seq![c]);
    assert(c != seq!['*', '*']) by {
        if c == seq!['*', '*'] {
            assert(c[0] == '*');
            assert(c.contains('*'));
        }
    }
    assert(c != seq!['*']) by {
        if c == seq!['*'] {
            assert(c[0] == '*');
            assert(c.contains('*'));
        }
    }
    assert(!has_wildcard(c));
    assert(query_segments(v) =~= seq![SpecSegment::Concrete { kind: segment_kind(0, 1, left, right), value: c, wild: false }]);
}

/// A one-segment pattern matches exactly when some path segment is
/// accepted by it.
proof fn lemma_one_segment_pattern(seg: SpecSegment, segments: Seq<Seq<char>>)
    requires
        seg is Concrete,
    ensures
        path_matches(seq![seg], segments) == exists|j: int| 0 <= j < segments.len() && segment_accepts(
            seg->kind, seg->value, seg->wild, #[trigger] segments[j]),
{
    let pattern = seq![seg];
    let n = segments.len() as int;
    let hits = accepted(all_indices(n), seg, segments);
    assert(path_state(pattern, segments, 0) == (None::<Set<int>>, false, false));
    assert(path_state(pattern, segments, 1) == (Some(hits), false, true));
    assert(final_indices(pattern, segments) == hits);
    if exists|j: int| 0 <= j < segments.len() && segment_accepts(seg->kind, seg->value, seg->wild, #[trigger] segments[j]) {
        let j = choose|j: int| 0 <= j < segments.len() && segment_accepts(seg->kind, seg->value, seg->wild,
            #[trigger] segments[j]);
        assert(hits.contains(j));
    }
    if path_matches(pattern, segments) {
        let j = choose|j: int| final_indices(pattern, segments).contains(j);
        assert(0 <= j < segments.len() && segment_accepts(seg->kind, seg->value, seg->wild, segments[j]));
    }
}

/// A plain word (non-empty, with no slash, backslash, `*` or `?`) matches
/// an entry exactly when it occurs inside one of the entry's path
/// segments: anywhere in it, not only at its start or end.
pub proof fn law_plain_word_matches_inside_a_segment(
    value: Seq<char>,
    name: Seq<char>,
    path: Seq<char>,
    segments: Seq<Seq<char>>,
)
    requires
        plain_word(value),
    ensures
        text_match(value, name, path, segments) == exists|j: int| 0 <= j < segments.len() && contains_seq(
            #[trigger] segments[j], value),
{
    lemma_anchored_segments(value, false, false);
    assert(anchored(value, false, false) =~= value);
    lemma_one_segment_pattern(SpecSegment::Concrete { kind: TextSegmentMatchKind::Substr, value, wild: false }, segments);
}

/// Slashes anchor a plain word `c` to segment boundaries: `/c` matches an
/// entry with a path segment that starts with `c`, `c/` one with a segment
/// that ends with `c`, and `/c/` one with a segment equal to `c`.
pub proof fn law_slashes_anchor_a_word(c: Seq<char>, name: Seq<char>, path: Seq<char>, segments: Seq<Seq<char>>)
    requires
        plain_word(c),
    ensures
        text_match(seq!['/'] + c, name, path, segments) == exists|j: int| 0 <= j < segments.len() && starts_with(
            #[trigger] segments[j], c),
        text_match(c + seq!['/'], name, path, segments) == exists|j: int| 0 <= j < segments.len() && ends_with(
            #[trigger] segments[j], c),
        text_match(seq!['/'] + c + seq!['/'], name, path, segments) == exists|j: int| 0 <= j < segments.len()
            && #[trigger] segments[j] == c,
{
    lemma_anchored_segments(c, true, false);
    lemma_anchored_segments(c, false, true);
    lemma_anchored_segments(c, true, true);
    assert(anchored(c, true, false) =~= seq!['/'] + c);
    assert(anchored(c, false, true) =~= c + seq!['/']);
    assert(anchored(c, true, true) =~= seq!['/'] + c + seq!['/']);
    lemma_one_segment_pattern(SpecSegment::Concrete { kind: TextSegmentMatchKind::Prefix, value: c, wild: false }, segments);
    lemma_one_segment_pattern(SpecSegment::Concrete { kind: TextSegmentMatchKind::Suffix, value: c, wild: false }, segments);
    lemma_one_segment_pattern(SpecSegment::Concrete { kind: TextSegmentMatchKind::Exact, value: c, wild: false }, segments);
}

/// Matches a text value against an entry's name and path.
pub fn text_matches(value: &str, name: &str, path: &str, path_segments: &[String]) -> (r: bool)
    ensures
        r == text_match(value@, name@, path@, str_views(path_segments@)),
{
    let v = chars_of(value);
    if v.len() == 0 {
        return true;
    }
    let query_segments = segment_query_text(value);
    if query_segments.len() > 0 {
        return path_query_matches(query_segments.as_slice(), path_segments);
    }
    if contains_char(&v, '/') || contains_char(&v, '\\') {
        return false;
    }
    let n = chars_of(name);
    let p = chars_of(path);
    contains_chars(&n, &v) || contains_chars(&p, &v)
}

/// Whether a term can prefilter by name: non-empty once trimmed, with no
/// slash, backslash or wildcard.
pub open spec fn name_prefilter_term(raw: Seq<char>) -> bool {
    let t = trim(raw);
    t.len() > 0 && !t.contains('/') && !t.contains('\\') && !t.contains('*') && !t.contains('?')
}

/// Checks if a term is suitable for name-based prefiltering.
pub fn is_name_prefilter_term(raw: &str) -> (r: bool)
    ensures
        r == name_prefilter_term(raw@),
{
    let v = chars_of(raw);
    let t = trim_chars(&v);
    t.len() > 0 && !contains_char(&t, '/') && !contains_char(&t, '\\') && !contains_char(&t, '*')
        && !contains_char(&t, '?')
}

} // verus!
