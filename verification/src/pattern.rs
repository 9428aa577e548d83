//! Route patterns: `/about`, `/users/:id`, `/reports/:id?`, `/files/*rest`.

use crate::error::PreloadError;
use crate::text::{
    before_first, chars_of, copy_string, first_index_of, nested_view, pieces, pieces_of,
    string_from_range, trim, trim_bounds, vec_from_range,
};
use vstd::prelude::*;

verus! {

/// One segment of a route pattern.
#[derive(Debug, Clone, PartialEq, Eq)]
pub enum RouteSegment {
    /// Matches exactly this path segment.
    Static(String),
    /// `:name` matches any one path segment.
    Param(String),
    /// `:name?` matches zero or one path segment.
    OptionalParam(String),
    /// `*name` matches any number of path segments.
    Splat(String),
}

/// The mathematical model of a [`RouteSegment`].
pub enum SegmentView {
    Static(Seq<char>),
    Param(Seq<char>),
    OptionalParam(Seq<char>),
    Splat(Seq<char>),
}

impl View for RouteSegment {
    type V = SegmentView;

    open spec fn view(&self) -> SegmentView {
        match self {
            RouteSegment::Static(s) => SegmentView::Static(s@),
            RouteSegment::Param(s) => SegmentView::Param(s@),
            RouteSegment::OptionalParam(s) => SegmentView::OptionalParam(s@),
            RouteSegment::Splat(s) => SegmentView::Splat(s@),
        }
    }
}

/// A parsed route pattern.
#[derive(Debug, Clone, PartialEq, Eq)]
pub struct RoutePattern {
    segments: Vec<RouteSegment>,
}

/// The views of a sequence of segments.
pub open spec fn segments_view(v: Seq<RouteSegment>) -> Seq<SegmentView> {
    v.map_values(|s: RouteSegment| s@)
}

impl View for RoutePattern {
    type V = Seq<SegmentView>;

    closed spec fn view(&self) -> Seq<SegmentView> {
        segments_view(self.segments@)
    }
}

/// Why a route pattern is rejected.
pub enum PatternFault {
    OptionalUnnamed,
    ParamUnnamed,
    SplatUnnamed,
}

/// The reason text that [`PreloadError::InvalidRoutePattern`] carries for a fault.
pub open spec fn fault_reason(f: PatternFault) -> Seq<char> {
    match f {
        PatternFault::OptionalUnnamed => "optional parameters must have a name"@,
        PatternFault::ParamUnnamed => "parameters must have a name"@,
        PatternFault::SplatUnnamed => "splats must have a name"@,
    }
}

/// The segment that a non-empty piece of a pattern denotes.
pub open spec fn classify_piece(p: Seq<char>) -> Result<SegmentView, PatternFault> {
    if p.len() > 0 && p[0] == ':' {
        let name = p.drop_first();
        if name.len() > 0 && name.last() == '?' {
            if name.drop_last().len() == 0 {
                Err(PatternFault::OptionalUnnamed)
            } else {
                Ok(SegmentView::OptionalParam(name.drop_last()))
            }
        } else if name.len() == 0 {
            Err(PatternFault::ParamUnnamed)
        } else {
            Ok(SegmentView::Param(name))
        }
    } else if p.len() > 0 && p[0] == '*' {
        if p.drop_first().len() == 0 {
            Err(PatternFault::SplatUnnamed)
        } else {
            Ok(SegmentView::Splat(p.drop_first()))
        }
    } else {
        Ok(SegmentView::Static(p))
    }
}

/// The segments that the pieces denote, or the fault of the first piece that is rejected.
pub open spec fn classify_pieces(ps: Seq<Seq<char>>) -> Result<Seq<SegmentView>, PatternFault>
    decreases ps.len(),
{
    if ps.len() == 0 {
        Ok(Seq::empty())
    } else {
        match classify_piece(ps[0]) {
            Err(f) => Err(f),
            Ok(seg) => match classify_pieces(ps.drop_first()) {
                Err(f) => Err(f),
                Ok(rest) => Ok(seq![seg] + rest),
            },
        }
    }
}

/// The meaning of a route pattern text: its whitespace-trimmed text split on `/`,
/// empty pieces dropped, each piece classified.
pub open spec fn parse_pattern(input: Seq<char>) -> Result<Seq<SegmentView>, PatternFault> {
    classify_pieces(pieces(trim(input), '/'))
}

/// The path segments a request path is matched on: the part before the first `?`,
/// split on `/`, empty pieces dropped.
pub open spec fn path_parts(path: Seq<char>) -> Seq<Seq<char>> {
    pieces(before_first(path, '?'), '/')
}

/// Whether the segments match the path parts exactly.
/// A splat matches by matching nothing, or by consuming one part and trying again.
pub open spec fn segments_match(segs: Seq<SegmentView>, parts: Seq<Seq<char>>) -> bool
    decreases segs.len(), parts.len(),
{
    if segs.len() == 0 {
        parts.len() == 0
    } else {
        let rest = segs.drop_first();
        match segs[0] {
            SegmentView::Static(e) => parts.len() > 0 && parts[0] == e && segments_match(
                rest,
                parts.drop_first(),
            ),
            SegmentView::Param(_) => parts.len() > 0 && segments_match(rest, parts.drop_first()),
            SegmentView::OptionalParam(_) => segments_match(rest, parts) || (parts.len() > 0
                && segments_match(rest, parts.drop_first())),
            SegmentView::Splat(_) => segments_match(rest, parts) || (parts.len() > 0
                && segments_match(segs, parts.drop_first())),
        }
    }
}

/// Whether a pattern matches a request path.
pub open spec fn pattern_matches(segs: Seq<SegmentView>, path: Seq<char>) -> bool {
    segments_match(segs, path_parts(path))
}

/// In a path without `?`, followed by nothing or by `?` and more, the first `?` is right
/// after the path.
proof fn lemma_first_index_after(path: Seq<char>, rest: Seq<char>)
    requires
        !path.contains('?'),
        rest.len() == 0 || rest[0] == '?',
    ensures
        crate::text::first_index(path + rest, '?') == path.len(),
    decreases path.len(),
{
    let s = path + rest;
    if path.len() > 0 {
        assert(path[0] != '?') by {
            if path[0] == '?' {
                assert(path.contains(path[0]));
            }
        }
        assert(s.drop_first() =~= path.drop_first() + rest);
        assert(!path.drop_first().contains('?')) by {
            if path.drop_first().contains('?') {
                let k = choose|k: int| 0 <= k < path.drop_first().len() && path.drop_first()[k] == '?';
                assert(path[k + 1] == '?');
            }
        }
        lemma_first_index_after(path.drop_first(), rest);
    } else {
        assert(s =~= rest);
    }
}

/// The query string is ignored: a path with `?query` appended matches exactly when the
/// path does.
pub proof fn lemma_query_ignored(segs: Seq<SegmentView>, path: Seq<char>, query: Seq<char>)
    requires
        !path.contains('?'),
    ensures
        pattern_matches(segs, path + seq!['?'] + query) == pattern_matches(segs, path),
{
    lemma_first_index_after(path, seq!['?'] + query);
    lemma_first_index_after(path, Seq::empty());
    assert(path + (seq!['?'] + query) =~= path + seq!['?'] + query);
    assert(path + Seq::<char>::empty() =~= path);
    assert((path + seq!['?'] + query).take(path.len() as int) =~= path);
    assert(path.take(path.len() as int) =~= path);
}

/// Which of the four kinds a segment is: 0 static, 1 parameter, 2 optional, 3 splat.
pub open spec fn segment_kind(s: SegmentView) -> nat {
    match s {
        SegmentView::Static(_) => 0,
        SegmentView::Param(_) => 1,
        SegmentView::OptionalParam(_) => 2,
        SegmentView::Splat(_) => 3,
    }
}

/// How many segments are of the given kind.
pub open spec fn count_kind(segs: Seq<SegmentView>, kind: nat) -> nat
    decreases segs.len(),
{
    if segs.len() == 0 {
        0
    } else {
        count_kind(segs.drop_last(), kind) + if segment_kind(segs.last()) == kind {
            1nat
        } else {
            0nat
        }
    }
}

/// The specificity of a pattern: its static and parameter counts, and the complements
/// (to `usize::MAX`) of its optional-parameter and splat counts, so that larger is more specific.
pub open spec fn specificity_of(segs: Seq<SegmentView>) -> (usize, usize, usize, usize) {
    (
        count_kind(segs, 0) as usize,
        count_kind(segs, 1) as usize,
        (usize::MAX - count_kind(segs, 2)) as usize,
        (usize::MAX - count_kind(segs, 3)) as usize,
    )
}

proof fn lemma_splat_intro(segs: Seq<SegmentView>, parts: Seq<Seq<char>>, k: int)
    requires
        segs.len() > 0,
        segs[0] matches SegmentView::Splat(_),
        0 <= k <= parts.len(),
        segments_match(segs.drop_first(), parts.skip(k)),
    ensures
        segments_match(segs, parts),
    decreases k,
{
    if k == 0 {
        assert(parts.skip(0) =~= parts);
    } else {
        assert(parts.drop_first().skip(k - 1) =~= parts.skip(k));
        lemma_splat_intro(segs, parts.drop_first(), k - 1);
    }
}

/// A splat matches exactly when the rest of the pattern matches some suffix of the parts.
pub proof fn lemma_splat_elim(segs: Seq<SegmentView>, parts: Seq<Seq<char>>)
    requires
        segs.len() > 0,
        segs[0] matches SegmentView::Splat(_),
        forall|k: int| 0 <= k <= parts.len() ==> !#[trigger] segments_match(segs.drop_first(), parts.skip(k)),
    ensures
        !segments_match(segs, parts),
    decreases parts.len(),
{
    assert(parts.skip(0) =~= parts);
    assert(!segments_match(segs.drop_first(), parts.skip(0)));
    if parts.len() > 0 {
        assert forall|k: int| 0 <= k <= parts.drop_first().len() implies !#[trigger] segments_match(segs.drop_first(), parts.drop_first().skip(k)) by {
            assert(parts.drop_first().skip(k) =~= parts.skip(k + 1));
        }
        lemma_splat_elim(segs, parts.drop_first());
    }
}

proof fn lemma_count_kind_bound(segs: Seq<SegmentView>, kind: nat)
    ensures
        count_kind(segs, kind) <= segs.len(),
    decreases segs.len(),
{
    if segs.len() > 0 {
        lemma_count_kind_bound(segs.drop_last(), kind);
    }
}

impl RoutePattern {
    /// The pattern with no segments, which matches only the root path.
    pub fn root() -> (r: Self)
        ensures
            r@ == Seq::<SegmentView>::empty(),
    {
        let r = RoutePattern { segments: Vec::new() };
        assert(r@ =~= Seq::<SegmentView>::empty());
        r
    }

    /// A copy of this pattern.
    pub fn duplicate(&self) -> (r: Self)
        ensures
            r@ == self@,
    {
        let mut segments: Vec<RouteSegment> = Vec::new();
        let mut i: usize = 0;
        while i < self.segments.len()
            invariant
                i <= self.segments.len(),
                segments.len() == i,
                forall|k: int| 0 <= k < i ==> #[trigger] segments@[k]@ == self.segments@[k]@,
            decreases self.segments.len() - i,
        {
            let seg = match &self.segments[i] {
                RouteSegment::Static(s) => RouteSegment::Static(copy_string(s)),
                RouteSegment::Param(s) => RouteSegment::Param(copy_string(s)),
                RouteSegment::OptionalParam(s) => RouteSegment::OptionalParam(copy_string(s)),
                RouteSegment::Splat(s) => RouteSegment::Splat(copy_string(s)),
            };
            segments.push(seg);
            i += 1;
        }
        let r = RoutePattern { segments };
        assert(r@ =~= self@);
        r
    }

    /// Parses a route pattern such as `/users/:id`, `/reports/:id?` or `/files/*rest`.
    pub fn parse(input: &str) -> (r: Result<Self, PreloadError>)
        ensures
            match r {
                Ok(p) => parse_pattern(input@) == Ok::<Seq<SegmentView>, PatternFault>(p@),
                Err(e) => match parse_pattern(input@) {
                    Ok(_) => false,
                    Err(f) => e matches PreloadError::InvalidRoutePattern { pattern, reason }
                        && pattern@ == trim(input@) && reason@ == fault_reason(f),
                },
            },
    {
        let chars = chars_of(input);
        let (lo, hi) = trim_bounds(&chars);
        let trimmed = vec_from_range(&chars, lo, hi);
        let parts = pieces_of(&trimmed, '/');
        let ghost ps = nested_view(parts@);
        let mut segments: Vec<RouteSegment> = Vec::new();
        let mut i: usize = 0;
        assert(ps.skip(0) =~= ps);
        while i < parts.len()
            invariant
                i <= parts.len(),
                ps == nested_view(parts@),
                ps == pieces(trim(input@), '/'),
                trimmed@ == trim(input@),
                classify_pieces(ps) == match classify_pieces(ps.skip(i as int)) {
                    Err(f) => Err(f),
                    Ok(rest) => Ok::<Seq<SegmentView>, PatternFault>(segments_view(segments@) + rest),
                },
            decreases parts.len() - i,
        {
            let piece = &parts[i];
            assert(piece@ == ps[i as int]);
            assert(ps.skip(i as int)[0] == ps[i as int]);
            assert(ps.skip(i as int).drop_first() =~= ps.skip(i + 1));
            let n = piece.len();
            let seg = if n > 0 && piece[0] == ':' {
                if n > 1 && piece[n - 1] == '?' {
                    if n == 2 {
                        assert(piece@.drop_first().drop_last().len() == 0);
                        return Err(
                            PreloadError::InvalidRoutePattern {
                                pattern: string_from_range(&trimmed, 0, trimmed.len()),
                                reason: "optional parameters must have a name",
                            },
                        );
                    }
                    assert(piece@.drop_first().drop_last() =~= piece@.subrange(1, n - 1));
                    RouteSegment::OptionalParam(string_from_range(piece, 1, n - 1))
                } else {
                    if n == 1 {
                        return Err(
                            PreloadError::InvalidRoutePattern {
                                pattern: string_from_range(&trimmed, 0, trimmed.len()),
                                reason: "parameters must have a name",
                            },
                        );
                    }
                    assert(piece@.drop_first() =~= piece@.subrange(1, n as int));
                    RouteSegment::Param(string_from_range(piece, 1, n))
                }
            } else if n > 0 && piece[0] == '*' {
                if n == 1 {
                    return Err(
                        PreloadError::InvalidRoutePattern {
                            pattern: string_from_range(&trimmed, 0, trimmed.len()),
                            reason: "splats must have a name",
                        },
                    );
                }
                assert(piece@.drop_first() =~= piece@.subrange(1, n as int));
                RouteSegment::Splat(string_from_range(piece, 1, n))
            } else {
                assert(piece@ =~= piece@.subrange(0, n as int));
                RouteSegment::Static(string_from_range(piece, 0, n))
            };
            assert(classify_piece(ps[i as int]) == Ok::<SegmentView, PatternFault>(seg@));
            let ghost before = segments@;
            segments.push(seg);
            assert(segments_view(segments@) =~= segments_view(before).push(seg@));
            proof {
                match classify_pieces(ps.skip(i + 1)) {
                    Err(f) => {},
                    Ok(rest) => {
                        assert(segments_view(before) + (seq![seg@] + rest) =~= segments_view(segments@) + rest);
                    },
                }
            }
            i += 1;
        }
        assert(ps.skip(parts.len() as int) =~= Seq::<Seq<char>>::empty());
        let r = RoutePattern { segments };
        assert(segments_view(r.segments@) + Seq::<SegmentView>::empty() =~= segments_view(r.segments@));
        Ok(r)
    }

    /// Whether this pattern matches `path`; the query string is ignored.
    pub fn matches(&self, path: &str) -> (r: bool)
        ensures
            r == pattern_matches(self@, path@),
    {
        let chars = chars_of(path);
        let end = first_index_of(&chars, '?');
        let before = vec_from_range(&chars, 0, end);
        let parts = pieces_of(&before, '/');
        assert(self.segments@.len() == self@.len());
        assert(self@.skip(0) =~= self@);
        assert(nested_view(parts@).skip(0) =~= nested_view(parts@));
        self.matches_from(0, 0, &parts)
    }

    /// Whether the segments from `pattern_index` on match the parts from `path_index` on.
    fn matches_from(&self, pattern_index: usize, path_index: usize, parts: &Vec<Vec<char>>) -> (r: bool)
        requires
            pattern_index <= self@.len(),
            path_index <= parts.len(),
        ensures
            r == segments_match(self@.skip(pattern_index as int), nested_view(parts@).skip(path_index as int)),
        decreases self@.len() - pattern_index,
    {
        let ghost segs = self@.skip(pattern_index as int);
        let ghost ps = nested_view(parts@).skip(path_index as int);
        assert(self.segments@.len() == self@.len());
        if pattern_index == self.segments.len() {
            return path_index == parts.len();
        }
        assert(segs[0] == self.segments@[pattern_index as int]@);
        assert(segs.drop_first() =~= self@.skip(pattern_index + 1));
        if path_index < parts.len() {
            assert(ps.drop_first() =~= nested_view(parts@).skip(path_index + 1));
            assert(ps[0] == parts@[path_index as int]@);
        }
        match &self.segments[pattern_index] {
            RouteSegment::Static(expected) => {
                if path_index < parts.len() {
                    let expected_chars = chars_of(expected.as_str());
                    let same = vec_equal(&parts[path_index], &expected_chars);
                    same && self.matches_from(pattern_index + 1, path_index + 1, parts)
                } else {
                    false
                }
            },
            RouteSegment::Param(_) => {
                path_index < parts.len() && self.matches_from(pattern_index + 1, path_index + 1, parts)
            },
            RouteSegment::OptionalParam(_) => {
                self.matches_from(pattern_index + 1, path_index, parts) || (path_index < parts.len()
                    && self.matches_from(pattern_index + 1, path_index + 1, parts))
            },
            RouteSegment::Splat(_) => {
                let mut next = path_index;
                assert(ps.len() == parts.len() - path_index);
                loop
                    invariant
                        path_index <= next <= parts.len(),
                        pattern_index < self@.len(),
                        self.segments@.len() == self@.len(),
                        pattern_index < self.segments.len(),
                        segs.len() > 0,
                        segs[0] matches SegmentView::Splat(_),
                        ps.len() == parts.len() - path_index,
                        segs == self@.skip(pattern_index as int),
                        ps == nested_view(parts@).skip(path_index as int),
                        segs.drop_first() == self@.skip(pattern_index + 1),
                        forall|k: int| 0 <= k < next - path_index ==> !#[trigger] segments_match(segs.drop_first(), ps.skip(k)),
                    ensures
                        forall|k: int| 0 <= k <= ps.len() ==> !#[trigger] segments_match(segs.drop_first(), ps.skip(k)),
                    decreases parts.len() - next,
                {
                    assert(ps.skip(next - path_index) =~= nested_view(parts@).skip(next as int));
                    if self.matches_from(pattern_index + 1, next, parts) {
                        let ghost k = next - path_index;
                        assert(0 <= k <= ps.len() && segments_match(segs.drop_first(), ps.skip(k)));
                        proof { lemma_splat_intro(segs, ps, k); }
                        return true;
                    }
                    if next == parts.len() {
                        break;
                    }
                    next += 1;
                }
                proof { lemma_splat_elim(segs, ps); }
                false
            },
        }
    }

    /// The specificity of this pattern; larger tuples are more specific.
    pub fn specificity(&self) -> (r: (usize, usize, usize, usize))
        ensures
            r == specificity_of(self@),
    {
        let mut statics: usize = 0;
        let mut params: usize = 0;
        let mut optionals: usize = 0;
        let mut splats: usize = 0;
        let mut i: usize = 0;
        while i < self.segments.len()
            invariant
                i <= self.segments.len(),
                self.segments@.len() == self@.len(),
                statics == count_kind(self@.take(i as int), 0),
                params == count_kind(self@.take(i as int), 1),
                optionals == count_kind(self@.take(i as int), 2),
                splats == count_kind(self@.take(i as int), 3),
            decreases self.segments.len() - i,
        {
            proof {
                lemma_count_kind_bound(self@.take(i as int), 0);
                lemma_count_kind_bound(self@.take(i as int), 1);
                lemma_count_kind_bound(self@.take(i as int), 2);
                lemma_count_kind_bound(self@.take(i as int), 3);
                assert(self@.take(i + 1).drop_last() =~= self@.take(i as int));
                assert(self@.take(i + 1).last() == self.segments@[i as int]@);
            }
            match &self.segments[i] {
                RouteSegment::Static(_) => statics += 1,
                RouteSegment::Param(_) => params += 1,
                RouteSegment::OptionalParam(_) => optionals += 1,
                RouteSegment::Splat(_) => splats += 1,
            }
            i += 1;
        }
        assert(self@.take(i as int) =~= self@);
        proof {
            lemma_count_kind_bound(self@, 2);
            lemma_count_kind_bound(self@, 3);
        }
        (statics, params, usize::MAX - optionals, usize::MAX - splats)
    }
}

/// Whether two character vectors are equal.
pub fn vec_equal(a: &Vec<char>, b: &Vec<char>) -> (r: bool)
    ensures
        r == (a@ == b@),
{
    if a.len() != b.len() {
        return false;
    }
    let mut i: usize = 0;
    while i < a.len()
        invariant
            a.len() == b.len(),
            i <= a.len(),
            forall|k: int| 0 <= k < i ==> a@[k] == b@[k],
        decreases a.len() - i,
    {
        if a[i] != b[i] {
            return false;
        }
        i += 1;
    }
    assert(a@ =~= b@);
    true
}

// ---------------------------------------------------------------------------
// Laws of matching and specificity

/// An optional parameter may match no segment at all, even when segments remain, or
/// exactly one segment; nothing else.
pub proof fn lemma_optional_matches_zero_or_one(name: Seq<char>, rest: Seq<SegmentView>, parts: Seq<Seq<char>>)
    ensures
        segments_match(rest, parts) ==> segments_match(seq![SegmentView::OptionalParam(name)] + rest, parts),
        parts.len() > 0 && segments_match(rest, parts.drop_first()) ==> segments_match(
            seq![SegmentView::OptionalParam(name)] + rest,
            parts,
        ),
        segments_match(seq![SegmentView::OptionalParam(name)] + rest, parts) ==> segments_match(rest, parts) || (
        parts.len() > 0 && segments_match(rest, parts.drop_first())),
{
    let segs = seq![SegmentView::OptionalParam(name)] + rest;
    assert(segs.drop_first() =~= rest);
    assert(segs[0] == SegmentView::OptionalParam(name));
}

/// A pattern that matches a path still matches it with an optional parameter put in front.
pub proof fn lemma_optional_prefix_keeps_match(name: Seq<char>, rest: Seq<SegmentView>, path: Seq<char>)
    requires
        pattern_matches(rest, path),
    ensures
        pattern_matches(seq![SegmentView::OptionalParam(name)] + rest, path),
{
    lemma_optional_matches_zero_or_one(name, rest, path_parts(path));
}

/// A splat matches any number of segments: the pattern matches exactly when the rest of it
/// matches what remains after some number of segments.
pub proof fn lemma_splat_matches_any_number(name: Seq<char>, rest: Seq<SegmentView>, parts: Seq<Seq<char>>)
    ensures
        segments_match(seq![SegmentView::Splat(name)] + rest, parts) <==> exists|k: int|
            0 <= k <= parts.len() && #[trigger] segments_match(rest, parts.skip(k)),
{
    let segs = seq![SegmentView::Splat(name)] + rest;
    assert(segs.drop_first() =~= rest);
    if exists|k: int| 0 <= k <= parts.len() && #[trigger] segments_match(rest, parts.skip(k)) {
        let k = choose|k: int| 0 <= k <= parts.len() && #[trigger] segments_match(rest, parts.skip(k));
        lemma_splat_intro(segs, parts, k);
    } else {
        lemma_splat_elim(segs, parts);
    }
}

/// Counting segments of a kind adds up over concatenation: where a segment stands does not
/// matter.
pub proof fn lemma_count_kind_concat(a: Seq<SegmentView>, b: Seq<SegmentView>, kind: nat)
    ensures
        count_kind(a + b, kind) == count_kind(a, kind) + count_kind(b, kind),
    decreases b.len(),
{
    if b.len() == 0 {
        assert(a + b =~= a);
    } else {
        assert((a + b).drop_last() =~= a + b.drop_last());
        assert((a + b).last() == b.last());
        lemma_count_kind_concat(a, b.drop_last(), kind);
    }
}

/// A single segment counts once, for its own kind.
pub proof fn lemma_count_kind_single(s: SegmentView, kind: nat)
    ensures
        count_kind(seq![s], kind) == if segment_kind(s) == kind { 1nat } else { 0nat },
{
    assert(seq![s].drop_last() =~= Seq::<SegmentView>::empty());
    assert(count_kind(Seq::<SegmentView>::empty(), kind) == 0);
    assert(seq![s].last() == s);
}

/// Specificity adds up over concatenation: the static and parameter counts of `a + b` are
/// the sums of those of `a` and `b`, and each optional parameter or splat of either lowers
/// the third or fourth component by one.
pub proof fn lemma_specificity_concat(a: Seq<SegmentView>, b: Seq<SegmentView>)
    requires
        a.len() + b.len() <= usize::MAX,
    ensures
        specificity_of(a + b).0 == specificity_of(a).0 + specificity_of(b).0,
        specificity_of(a + b).1 == specificity_of(a).1 + specificity_of(b).1,
        specificity_of(a + b).2 == specificity_of(a).2 + specificity_of(b).2 - usize::MAX,
        specificity_of(a + b).3 == specificity_of(a).3 + specificity_of(b).3 - usize::MAX,
{
    lemma_count_kind_concat(a, b, 0);
    lemma_count_kind_concat(a, b, 1);
    lemma_count_kind_concat(a, b, 2);
    lemma_count_kind_concat(a, b, 3);
    lemma_count_kind_bound(a, 0);
    lemma_count_kind_bound(a, 1);
    lemma_count_kind_bound(a, 2);
    lemma_count_kind_bound(a, 3);
    lemma_count_kind_bound(b, 0);
    lemma_count_kind_bound(b, 1);
    lemma_count_kind_bound(b, 2);
    lemma_count_kind_bound(b, 3);
    assert(count_kind(a + b, 0) == count_kind(a, 0) + count_kind(b, 0));
    assert(count_kind(a + b, 1) == count_kind(a, 1) + count_kind(b, 1));
    assert(count_kind(a + b, 2) == count_kind(a, 2) + count_kind(b, 2));
    assert(count_kind(a + b, 3) == count_kind(a, 3) + count_kind(b, 3));
}

/// The specificity of a one-segment pattern: a static segment counts in the first
/// component, a parameter in the second, an optional parameter lowers the third and a splat
/// the fourth.
pub proof fn lemma_specificity_single(s: SegmentView)
    ensures
        specificity_of(seq![s]) == match s {
            SegmentView::Static(_) => (1usize, 0usize, usize::MAX, usize::MAX),
            SegmentView::Param(_) => (0usize, 1usize, usize::MAX, usize::MAX),
            SegmentView::OptionalParam(_) => (0usize, 0usize, (usize::MAX - 1) as usize, usize::MAX),
            SegmentView::Splat(_) => (0usize, 0usize, usize::MAX, (usize::MAX - 1) as usize),
        },
{
    lemma_count_kind_single(s, 0);
    lemma_count_kind_single(s, 1);
    lemma_count_kind_single(s, 2);
    lemma_count_kind_single(s, 3);
}

} // verus!
