//! Concatenated (spaceless skeleton) matches: segmentation of a verified
//! match into per-token query parts, the single-ayah verification tail, and
//! the cross-ayah window split.

use vstd::prelude::*;
use crate::rows::TokenRow;
use crate::diagnostics::{code_text, DiagnosticCode};
use crate::serving::{IndexFault, SearchError};
use crate::spans::token_char_range;
use crate::spans::{
    CanonicalSpan, cluster_starts, range_from_starts, token_span, extended_graphemes,
    cluster_start, overlap_indices, overlapping_tokens,
};
use crate::text::{chars_of, owned, slice_chars, string_of, str_eq};

verus! {

/// One query part attributed to one canonical token.
#[derive(Debug, Clone)]
pub struct Segmentation {
    /// Slice of the query skeleton.
    pub query_part: String,
    /// Position of the canonical token.
    pub canonical_token: u16,
    /// Surface of the canonical token.
    pub canonical_surface: String,
}

/// Plain view of a segmentation part.
pub open spec fn seg_view(s: Segmentation) -> (Seq<char>, u16, Seq<char>) {
    (s.query_part@, s.canonical_token, s.canonical_surface@)
}

/// Views of a list of parts.
pub open spec fn seg_views(v: Seq<Segmentation>) -> Seq<(Seq<char>, u16, Seq<char>)> {
    v.map_values(|s: Segmentation| seg_view(s))
}

/// Geometry of a verified concatenated match: the span (in the normalized
/// input's character space), the canonical image start of every derived
/// character (`images[d]`, one per derived character), and this ayah's
/// character offset inside the normalized input.
#[derive(Debug, Clone)]
pub struct MatchGeometry {
    /// The verified match span.
    pub span: CanonicalSpan,
    /// Canonical image start of each derived character.
    pub images: Vec<u32>,
    /// Character offset of this ayah inside the normalized input.
    pub image_offset: u32,
}

/// First derived index in `start..d` whose image lies in `lo..hi`.
pub open spec fn first_hit(images: Seq<u32>, lo: int, hi: int, start: int, d: int) -> Option<int>
    decreases d - start,
{
    if d <= start {
        None
    } else {
        match first_hit(images, lo, hi, start, d - 1) {
            Some(x) => Some(x),
            None => if lo <= images[d - 1] && images[d - 1] < hi {
                Some(d - 1)
            } else {
                None
            },
        }
    }
}

/// Last derived index in `start..d` whose image lies in `lo..hi`.
pub open spec fn last_hit(images: Seq<u32>, lo: int, hi: int, start: int, d: int) -> Option<int>
    decreases d - start,
{
    if d <= start {
        None
    } else if lo <= images[d - 1] && images[d - 1] < hi {
        Some(d - 1)
    } else {
        last_hit(images, lo, hi, start, d - 1)
    }
}

/// The smaller of two integers.
pub open spec fn min_int(a: int, b: int) -> int {
    if a <= b {
        a
    } else {
        b
    }
}

/// The larger of two integers.
pub open spec fn max_int(a: int, b: int) -> int {
    if a >= b {
        a
    } else {
        b
    }
}

/// The part of the query attributed to token `t`: the query characters of
/// the match window whose canonical image falls inside both the token and
/// the span (all in the normalized input's space, shifted by `off`).
pub open spec fn token_part(
    q: Seq<char>,
    text: Seq<char>,
    dms: int,
    span: CanonicalSpan,
    images: Seq<u32>,
    off: int,
    t: TokenRow,
) -> Option<(Seq<char>, u16, Seq<char>)> {
    match token_span(text, t.char_start, t.char_end) {
        None => None,
        Some((a, b)) => {
            let ts = a + off;
            let te = b + off;
            let ss = span.start + off;
            let se = span.end + off;
            if te <= ss || ts >= se {
                None
            } else {
                let lo = max_int(ts, ss);
                let hi = min_int(te, se);
                let stop = min_int(images.len() as int, dms + q.len());
                match (first_hit(images, lo, hi, dms, stop), last_hit(images, lo, hi, dms, stop)) {
                    (Some(f), Some(l)) => Some(
                        (q.subrange(f - dms, l + 1 - dms), t.position as u16, t.surface@),
                    ),
                    _ => None,
                }
            }
        },
    }
}

/// Parts for the first `n` tokens, in token order.
pub open spec fn segment_spec(
    q: Seq<char>,
    text: Seq<char>,
    dms: int,
    span: CanonicalSpan,
    images: Seq<u32>,
    off: int,
    tokens: Seq<TokenRow>,
    n: int,
) -> Seq<(Seq<char>, u16, Seq<char>)>
    decreases n,
{
    if n <= 0 {
        Seq::empty()
    } else {
        let prev = segment_spec(q, text, dms, span, images, off, tokens, n - 1);
        match token_part(q, text, dms, span, images, off, tokens[n - 1]) {
            Some(p) => prev.push(p),
            None => prev,
        }
    }
}

proof fn lemma_first_last(images: Seq<u32>, lo: int, hi: int, start: int, d: int)
    requires
        start <= d,
    ensures
        first_hit(images, lo, hi, start, d) is Some <==> last_hit(images, lo, hi, start, d) is Some,
        first_hit(images, lo, hi, start, d) matches Some(f) ==> start <= f < d && f <= last_hit(
            images,
            lo,
            hi,
            start,
            d,
        )->0,
        last_hit(images, lo, hi, start, d) matches Some(l) ==> start <= l < d,
    decreases d - start,
{
    if d > start {
        lemma_first_last(images, lo, hi, start, d - 1);
    }
}

/// Query part for one token with its character range `a..b` (already
/// converted), or `None`.
fn part_for(
    q: &Vec<char>,
    dms: u32,
    geometry: &MatchGeometry,
    a: u32,
    b: u32,
    token: &TokenRow,
) -> (r: Option<Segmentation>)
    requires
        a as int + geometry.image_offset <= u32::MAX,
        b as int + geometry.image_offset <= u32::MAX,
        geometry.span.start as int + geometry.image_offset <= u32::MAX,
        geometry.span.end as int + geometry.image_offset <= u32::MAX,
        dms as int + q@.len() <= u32::MAX,
    ensures
        ({
            let off = geometry.image_offset as int;
            let ts = a + off;
            let te = b + off;
            let ss = geometry.span.start + off;
            let se = geometry.span.end + off;
            let lo = max_int(ts, ss);
            let hi = min_int(te, se);
            let stop = min_int(geometry.images@.len() as int, dms + q@.len());
            let expect = if te <= ss || ts >= se {
                None
            } else {
                match (
                    first_hit(geometry.images@, lo, hi, dms as int, stop),
                    last_hit(geometry.images@, lo, hi, dms as int, stop),
                ) {
                    (Some(f), Some(l)) => Some(
                        (q@.subrange(f - dms, l + 1 - dms), token.position as u16, token.surface@),
                    ),
                    _ => None,
                }
            };
            &&& r is None <==> expect is None
            &&& r matches Some(s) ==> expect == Some(seg_view(s))
        }),
{
    let off = geometry.image_offset;
    let ts = a + off;
    let te = b + off;
    let ss = geometry.span.start + off;
    let se = geometry.span.end + off;
    if te <= ss || ts >= se {
        return None;
    }
    let lo = if ts >= ss {
        ts
    } else {
        ss
    };
    let hi = if te <= se {
        te
    } else {
        se
    };
    let match_end = dms + q.len() as u32;
    let stop = if (geometry.images.len() as u64) <= (match_end as u64) {
        geometry.images.len() as u32
    } else {
        match_end
    };
    let mut first: Option<u32> = None;
    let mut last: u32 = 0;
    let mut derived = dms;
    while derived < stop
        invariant
            stop <= geometry.images@.len(),
            derived >= dms,
            stop <= dms ==> derived == dms,
            derived <= stop || stop <= dms,
            first is None <==> first_hit(
                geometry.images@,
                lo as int,
                hi as int,
                dms as int,
                derived as int,
            ) is None,
            first matches Some(f) ==> first_hit(
                geometry.images@,
                lo as int,
                hi as int,
                dms as int,
                derived as int,
            ) == Some(f as int),
            last_hit(geometry.images@, lo as int, hi as int, dms as int, derived as int) matches Some(
                l,
            ) ==> last == l + 1,
        decreases stop - derived,
    {
        let image = geometry.images[derived as usize];
        if image >= lo && image < hi {
            if first.is_none() {
                first = Some(derived);
            }
            last = derived + 1;
        }
        derived = derived + 1;
    }
    proof {
        if stop > dms {
            assert(derived == stop);
            lemma_first_last(geometry.images@, lo as int, hi as int, dms as int, stop as int);
        }
    }
    match first {
        Some(from) => {
            let part = slice_chars(q.as_slice(), (from - dms) as usize, (last - dms) as usize);
            Some(
                Segmentation {
                    query_part: string_of(part.as_slice()),
                    canonical_token: token.position as u16,
                    canonical_surface: owned(token.surface.as_str()),
                },
            )
        },
        None => None,
    }
}

/// Segment a verified concatenated match into per-token query parts: for
/// each token (in order) overlapping the span, the slice of the query whose
/// derived characters map into that token.
pub fn segment_concatenated(
    query_skeleton: &str,
    ayah_text: &str,
    derived_match_start: u32,
    geometry: &MatchGeometry,
    tokens: &[TokenRow],
) -> (r: Vec<Segmentation>)
    requires
        ayah_text@.len() + geometry.image_offset <= u32::MAX,
        geometry.span.start as int + geometry.image_offset <= u32::MAX,
        geometry.span.end as int + geometry.image_offset <= u32::MAX,
        derived_match_start as int + query_skeleton@.len() <= u32::MAX,
    ensures
        seg_views(r@) == segment_spec(
            query_skeleton@,
            ayah_text@,
            derived_match_start as int,
            geometry.span,
            geometry.images@,
            geometry.image_offset as int,
            tokens@,
            tokens@.len() as int,
        ),
{
    let q = chars_of(query_skeleton);
    let starts = cluster_starts(ayah_text);
    let mut parts: Vec<Segmentation> = Vec::new();
    let mut i: usize = 0;
    while i < tokens.len()
        invariant
            q@ == query_skeleton@,
            ayah_text@.len() + geometry.image_offset <= u32::MAX,
            geometry.span.start as int + geometry.image_offset <= u32::MAX,
            geometry.span.end as int + geometry.image_offset <= u32::MAX,
            derived_match_start as int + q@.len() <= u32::MAX,
            starts@.len() == extended_graphemes(ayah_text@).len() + 1,
            forall|k: int|
                0 <= k < starts@.len() ==> #[trigger] starts@[k] == cluster_start(
                    extended_graphemes(ayah_text@),
                    k,
                ),
            forall|k: int| 0 <= k < starts@.len() ==> #[trigger] starts@[k] <= ayah_text@.len(),
            i <= tokens.len(),
            seg_views(parts@) == segment_spec(
                query_skeleton@,
                ayah_text@,
                derived_match_start as int,
                geometry.span,
                geometry.images@,
                geometry.image_offset as int,
                tokens@,
                i as int,
            ),
        decreases tokens.len() - i,
    {
        match range_from_starts(&starts, &tokens[i]) {
            Some(rg) => {
                match part_for(&q, derived_match_start, geometry, rg.start, rg.end, &tokens[i]) {
                    Some(p) => {
                        let ghost prev = parts@;
                        parts.push(p);
                        assert(seg_views(parts@) =~= seg_views(prev).push(seg_view(p)));
                    },
                    None => {},
                }
            },
            None => {},
        }
        i = i + 1;
    }
    parts
}

/// One verified ayah match: canonical span, overlapped token indexes, and
/// the concatenated-match segmentation (empty for other modes).
#[derive(Debug, Clone)]
pub struct AyahMatch {
    /// Canonical span of the match.
    pub span: CanonicalSpan,
    /// Indexes of the overlapped tokens.
    pub matched: Vec<usize>,
    /// Per-token query parts.
    pub segmentation: Vec<Segmentation>,
    /// The match crosses an ayah boundary.
    pub spans_ayah_boundary: bool,
}

/// Plain view of a match.
pub open spec fn match_view(m: AyahMatch) -> (
    CanonicalSpan,
    Seq<usize>,
    Seq<(Seq<char>, u16, Seq<char>)>,
    bool,
) {
    (m.span, m.matched@, seg_views(m.segmentation@), m.spans_ayah_boundary)
}

/// Verification tail of a single-ayah concatenated match. The match starts
/// at derived character `derived_start`; `span` is its canonical image;
/// `reapplied` is the skeleton of the canonical slice the span covers;
/// `images` maps each derived character to its canonical start. The match
/// stands when the slice reproduces the query and some token overlaps the
/// span; it then carries the overlapped tokens and the segmentation.
pub fn verify_concatenated(
    ayah_text: &str,
    tokens: &[TokenRow],
    query_skeleton: &str,
    derived_start: u32,
    span: CanonicalSpan,
    reapplied: &str,
    images: Vec<u32>,
) -> (r: Option<AyahMatch>)
    requires
        ayah_text@.len() <= u32::MAX,
        derived_start as int + query_skeleton@.len() <= u32::MAX,
    ensures
        ({
            let matched = overlap_indices(ayah_text@, tokens@, span, tokens@.len() as int);
            &&& r is None <==> (reapplied@ != query_skeleton@ || matched.len() == 0)
            &&& r matches Some(m) ==> match_view(m) == (
                span,
                matched,
                segment_spec(
                    query_skeleton@,
                    ayah_text@,
                    derived_start as int,
                    span,
                    images@,
                    0,
                    tokens@,
                    tokens@.len() as int,
                ),
                false,
            )
        }),
{
    if !str_eq(reapplied, query_skeleton) {
        return None;
    }
    let matched = overlapping_tokens(ayah_text, tokens, &span);
    if matched.len() == 0 {
        return None;
    }
    let geometry = MatchGeometry { span, images, image_offset: 0 };
    let segmentation = segment_concatenated(
        query_skeleton,
        ayah_text,
        derived_start,
        &geometry,
        tokens,
    );
    Some(AyahMatch { span, matched, segmentation, spans_ayah_boundary: false })
}

/// Raw ayah texts joined with single spaces (the window skeleton
/// convention).
pub open spec fn window_join(ts: Seq<Seq<char>>) -> Seq<char>
    decreases ts.len(),
{
    if ts.len() == 0 {
        Seq::empty()
    } else if ts.len() == 1 {
        ts[0]
    } else {
        window_join(ts.drop_last()) + seq![' '] + ts.last()
    }
}

/// Character offset of text `i` inside the joined window.
pub open spec fn window_offset(ts: Seq<Seq<char>>, i: int) -> int {
    if i <= 0 {
        0
    } else {
        window_join(ts.take(i)).len() + 1int
    }
}

/// Texts of `(ayah, text)` pairs.
pub open spec fn window_texts(ayahs: Seq<(u32, String)>) -> Seq<Seq<char>> {
    ayahs.map_values(|a: (u32, String)| a.1@)
}

proof fn lemma_window_step(ts: Seq<Seq<char>>, i: int)
    requires
        0 <= i < ts.len(),
    ensures
        window_join(ts.take(i + 1)) == (if i == 0 {
            ts[0]
        } else {
            window_join(ts.take(i)) + seq![' '] + ts[i]
        }),
{
    assert(ts.take(i + 1).drop_last() =~= ts.take(i));
    assert(ts.take(i + 1).last() == ts[i]);
    if i == 0 {
        assert(ts.take(1)[0] == ts[0]);
    }
}

proof fn lemma_window_prefix(ts: Seq<Seq<char>>, i: int)
    requires
        0 <= i < ts.len(),
    ensures
        window_offset(ts, i) + ts[i].len() <= window_join(ts).len(),
    decreases ts.len(),
{
    if i + 1 == ts.len() {
        lemma_window_step(ts, i);
        assert(ts.take(i + 1) =~= ts);
    } else {
        lemma_window_prefix(ts.drop_last(), i);
        assert(ts.drop_last().take(i) =~= ts.take(i));
        assert(ts.drop_last()[i] == ts[i]);
    }
}

/// Join `(ayah, text)` pairs with single spaces; the joined text and each
/// text's character offset in it.
pub fn join_window(ayahs: &[(u32, String)]) -> (r: (String, Vec<u32>))
    requires
        window_join(window_texts(ayahs@)).len() <= u32::MAX,
    ensures
        r.0@ == window_join(window_texts(ayahs@)),
        r.1@.len() == ayahs@.len(),
        forall|i: int|
            0 <= i < ayahs@.len() ==> #[trigger] r.1@[i] == window_offset(
                window_texts(ayahs@),
                i,
            ),
{
    let ghost ts = window_texts(ayahs@);
    let mut joined = String::new();
    let mut offsets: Vec<u32> = Vec::new();
    let mut count: u32 = 0;
    let mut i: usize = 0;
    assert(ts.take(0) =~= Seq::<Seq<char>>::empty());
    while i < ayahs.len()
        invariant
            ts == window_texts(ayahs@),
            window_join(ts).len() <= u32::MAX,
            i <= ayahs.len(),
            joined@ == window_join(ts.take(i as int)),
            count == joined@.len(),
            offsets@.len() == i,
            forall|k: int| 0 <= k < i ==> #[trigger] offsets@[k] == window_offset(ts, k),
        decreases ayahs.len() - i,
    {
        proof {
            lemma_window_step(ts, i as int);
            lemma_window_prefix(ts, i as int);
            assert(ts[i as int] == ayahs@[i as int].1@);
        }
        if i > 0 {
            crate::text::push_char(&mut joined, ' ');
            count = count + 1;
        }
        offsets.push(count);
        let piece = chars_of(ayahs[i].1.as_str());
        crate::text::append_chars(&mut joined, piece.as_slice());
        count = count + piece.len() as u32;
        i = i + 1;
    }
    assert(ts.take(ayahs.len() as int) =~= ts);
    (joined, offsets)
}

/// One ayah's portion of a verified cross-ayah window match.
#[derive(Debug, Clone)]
pub struct WindowPart {
    /// 1-based ayah number within the surah.
    pub ayah: u32,
    /// The match inside that ayah (span in that ayah's character space).
    pub ayah_match: AyahMatch,
}

/// Plain view of a window part.
pub open spec fn part_view(p: WindowPart) -> (
    u32,
    (CanonicalSpan, Seq<usize>, Seq<(Seq<char>, u16, Seq<char>)>, bool),
) {
    (p.ayah, match_view(p.ayah_match))
}

/// Views of a list of window parts.
pub open spec fn part_views(v: Seq<WindowPart>) -> Seq<
    (u32, (CanonicalSpan, Seq<usize>, Seq<(Seq<char>, u16, Seq<char>)>, bool)),
> {
    v.map_values(|p: WindowPart| part_view(p))
}

/// The part of `span` (joined space) inside the text at `off` with length
/// `len`, in that text's own space; `None` when they do not overlap.
pub open spec fn local_span(span: CanonicalSpan, off: int, len: int) -> Option<CanonicalSpan> {
    if off + len <= span.start || off >= span.end {
        None
    } else {
        Some(
            CanonicalSpan {
                start: (max_int(off, span.start as int) - off) as u32,
                end: (min_int(off + len, span.end as int) - off) as u32,
                exact: span.exact,
            },
        )
    }
}

/// Portions of a window match over the first `n` ayahs: `None` as soon as
/// an overlapped ayah has no overlapped token.
pub open spec fn window_spec(
    ayahs: Seq<(u32, String)>,
    tokens: Seq<Vec<TokenRow>>,
    q: Seq<char>,
    dms: int,
    span: CanonicalSpan,
    images: Seq<u32>,
    n: int,
) -> Option<Seq<(u32, (CanonicalSpan, Seq<usize>, Seq<(Seq<char>, u16, Seq<char>)>, bool))>>
    decreases n,
{
    if n <= 0 {
        Some(Seq::empty())
    } else {
        match window_spec(ayahs, tokens, q, dms, span, images, n - 1) {
            None => None,
            Some(prev) => {
                let ts = window_texts(ayahs);
                let off = window_offset(ts, n - 1);
                let text = ts[n - 1];
                let toks = tokens[n - 1]@;
                match local_span(span, off, text.len() as int) {
                    None => Some(prev),
                    Some(local) => {
                        let matched = overlap_indices(text, toks, local, toks.len() as int);
                        if matched.len() == 0 {
                            None
                        } else {
                            Some(
                                prev.push(
                                    (
                                        ayahs[n - 1].0,
                                        (
                                            local,
                                            matched,
                                            segment_spec(
                                                q,
                                                text,
                                                dms,
                                                local,
                                                images,
                                                off,
                                                toks,
                                                toks.len() as int,
                                            ),
                                            false,
                                        ),
                                    ),
                                ),
                            )
                        }
                    },
                }
            },
        }
    }
}

proof fn lemma_window_none(
    ayahs: Seq<(u32, String)>,
    tokens: Seq<Vec<TokenRow>>,
    q: Seq<char>,
    dms: int,
    span: CanonicalSpan,
    images: Seq<u32>,
    k: int,
    m: int,
)
    requires
        0 <= k <= m,
        window_spec(ayahs, tokens, q, dms, span, images, k) is None,
    ensures
        window_spec(ayahs, tokens, q, dms, span, images, m) is None,
    decreases m - k,
{
    if m > k {
        lemma_window_none(ayahs, tokens, q, dms, span, images, k, m - 1);
    }
}

/// Verification tail of a cross-ayah window match: `ayahs` (in canonical
/// order, with their token rows) joined by single spaces; the match starts
/// at derived character `derived_start` of the joined text, `span` is its
/// canonical image there, `reapplied` the skeleton of the covered slice and
/// `images` the canonical start of each derived character. One part per
/// overlapped ayah, or `None` when the inputs disagree, the slice does not
/// reproduce the query, an overlapped ayah has no overlapped token, or no
/// ayah is overlapped.
pub fn verify_concatenated_window(
    ayahs: &[(u32, String)],
    tokens_per_ayah: &[Vec<TokenRow>],
    query_skeleton: &str,
    derived_start: u32,
    span: CanonicalSpan,
    reapplied: &str,
    images: &Vec<u32>,
) -> (r: Option<Vec<WindowPart>>)
    requires
        window_join(window_texts(ayahs@)).len() <= u32::MAX,
        derived_start as int + query_skeleton@.len() <= u32::MAX,
    ensures
        ({
            let n = ayahs@.len() as int;
            let expect = window_spec(
                ayahs@,
                tokens_per_ayah@,
                query_skeleton@,
                derived_start as int,
                span,
                images@,
                n,
            );
            &&& r is None <==> (n == 0 || tokens_per_ayah@.len() != n || reapplied@
                != query_skeleton@ || expect is None || expect->0.len() == 0)
            &&& r matches Some(parts) ==> expect == Some(part_views(parts@))
        }),
{
    if ayahs.len() == 0 || ayahs.len() != tokens_per_ayah.len() {
        return None;
    }
    if !str_eq(reapplied, query_skeleton) {
        return None;
    }
    let (_joined, offsets) = join_window(ayahs);
    let ghost ts = window_texts(ayahs@);
    let mut parts: Vec<WindowPart> = Vec::new();
    let mut i: usize = 0;
    while i < ayahs.len()
        invariant
            ts == window_texts(ayahs@),
            window_join(ts).len() <= u32::MAX,
            derived_start as int + query_skeleton@.len() <= u32::MAX,
            ayahs.len() == tokens_per_ayah.len(),
            offsets@.len() == ayahs@.len(),
            forall|k: int| 0 <= k < ayahs@.len() ==> #[trigger] offsets@[k] == window_offset(ts, k),
            i <= ayahs.len(),
            window_spec(
                ayahs@,
                tokens_per_ayah@,
                query_skeleton@,
                derived_start as int,
                span,
                images@,
                i as int,
            ) == Some(part_views(parts@)),
        decreases ayahs.len() - i,
    {
        proof {
            crate::concat::lemma_window_prefix(ts, i as int);
            assert(ts[i as int] == ayahs@[i as int].1@);
        }
        let text = ayahs[i].1.as_str();
        let len = chars_of(text).len() as u32;
        let off = offsets[i];
        let range_start = off;
        let range_end = off + len;
        if !(range_end <= span.start || range_start >= span.end) {
            let local = CanonicalSpan {
                start: (if range_start >= span.start {
                    range_start
                } else {
                    span.start
                }) - range_start,
                end: (if range_end <= span.end {
                    range_end
                } else {
                    span.end
                }) - range_start,
                exact: span.exact,
            };
            let tokens = tokens_per_ayah[i].as_slice();
            let matched = overlapping_tokens(text, tokens, &local);
            if matched.len() == 0 {
                proof {
                    lemma_window_none(
                        ayahs@,
                        tokens_per_ayah@,
                        query_skeleton@,
                        derived_start as int,
                        span,
                        images@,
                        i + 1,
                        ayahs@.len() as int,
                    );
                }
                return None;
            }
            let geometry = MatchGeometry { span: local, images: images.clone(), image_offset: off };
            let segmentation = segment_concatenated(
                query_skeleton,
                text,
                derived_start,
                &geometry,
                tokens,
            );
            let part = WindowPart {
                ayah: ayahs[i].0,
                ayah_match: AyahMatch { span: local, matched, segmentation, spans_ayah_boundary: false },
            };
            let ghost prev = parts@;
            parts.push(part);
            assert(part_views(parts@) =~= part_views(prev).push(part_view(part)));
        }
        i = i + 1;
    }
    if parts.len() == 0 {
        return None;
    }
    Some(parts)
}

/// Whether some entry of `v` is keyed `k`.
pub open spec fn keyed(v: Seq<((u16, u32), AyahMatch)>, k: (u16, u32)) -> bool {
    exists|j: int| 0 <= j < v.len() && (#[trigger] v[j]).0 == k
}

/// The entries the first `n` window parts add to `v`: each part whose
/// location is not yet verified, labelled as spanning an ayah boundary
/// exactly when the window split into several parts.
pub open spec fn merged_parts(
    v: Seq<((u16, u32), AyahMatch)>,
    surah: u16,
    parts: Seq<WindowPart>,
    n: int,
) -> Seq<((u16, u32), AyahMatch)>
    decreases n,
{
    if n <= 0 {
        v
    } else {
        let prev = merged_parts(v, surah, parts, n - 1);
        let p = parts[n - 1];
        if keyed(prev, (surah, p.ayah)) {
            prev
        } else {
            prev.push(
                (
                    (surah, p.ayah),
                    AyahMatch { spans_ayah_boundary: parts.len() > 1, ..p.ayah_match },
                ),
            )
        }
    }
}

/// Record the parts of a verified window match of `surah` among the
/// verified matches: a location already verified keeps its match (an
/// ayah-level hit wins over a window portion), and every part of a window
/// that split into several ayahs is labelled as spanning an ayah boundary.
pub fn merge_window_parts(verified: &mut Vec<((u16, u32), AyahMatch)>, surah: u16, parts: Vec<WindowPart>)
    ensures
        final(verified)@ == merged_parts(old(verified)@, surah, parts@, parts@.len() as int),
{
    let n = parts.len();
    let boundary = n > 1;
    let ghost all = parts@;
    let mut i: usize = 0;
    let mut rest = parts;
    while rest.len() > 0
        invariant
            i + rest@.len() == n,
            n == all.len(),
            boundary == (n > 1),
            rest@ == all.skip(i as int),
            verified@ == merged_parts(old(verified)@, surah, all, i as int),
        decreases rest.len(),
    {
        let p = rest.remove(0);
        assert(p == all[i as int]);
        proof {
            assert(rest@ =~= all.skip(i + 1));
        }
        let key = (surah, p.ayah);
        let mut found = false;
        let mut j: usize = 0;
        while j < verified.len()
            invariant
                j <= verified@.len(),
                found == exists|q: int| 0 <= q < j && (#[trigger] verified@[q]).0 == key,
            decreases verified.len() - j,
        {
            if verified[j].0.0 == key.0 && verified[j].0.1 == key.1 {
                found = true;
            }
            j = j + 1;
        }
        if !found {
            let m = AyahMatch {
                span: p.ayah_match.span,
                matched: p.ayah_match.matched,
                segmentation: p.ayah_match.segmentation,
                spans_ayah_boundary: boundary,
            };
            verified.push((key, m));
        }
        i = i + 1;
    }
}

/// Merging a window's parts never changes an already verified match (an
/// ayah-level hit wins), and every match it adds is labelled as spanning an
/// ayah boundary exactly when the window split into several ayahs.
pub proof fn window_merge_keeps_verified(
    v: Seq<((u16, u32), AyahMatch)>,
    surah: u16,
    parts: Seq<WindowPart>,
    n: int,
)
    requires
        0 <= n <= parts.len(),
    ensures
        merged_parts(v, surah, parts, n).len() >= v.len(),
        merged_parts(v, surah, parts, n).take(v.len() as int) == v,
        forall|k: int|
            v.len() <= k < merged_parts(v, surah, parts, n).len() ==> (#[trigger] merged_parts(
                v,
                surah,
                parts,
                n,
            )[k]).1.spans_ayah_boundary == (parts.len() > 1),
    decreases n,
{
    if n > 0 {
        window_merge_keeps_verified(v, surah, parts, n - 1);
        let prev = merged_parts(v, surah, parts, n - 1);
        let cur = merged_parts(v, surah, parts, n);
        if !keyed(prev, (surah, parts[n - 1].ayah)) {
            assert(cur.take(v.len() as int) =~= prev.take(v.len() as int));
            assert forall|k: int| v.len() <= k < cur.len() implies (#[trigger] cur[k]).1.spans_ayah_boundary
                == (parts.len() > 1) by {
                if k < prev.len() {
                    assert(cur[k] == prev[k]);
                }
            }
        }
    } else {
        assert(v.take(v.len() as int) =~= v);
    }
}

/// Merging keeps every location already matched and adds every part's
/// location: after merging the first `n` parts of a window of `surah`,
/// each of those parts' ayahs has a match, as does every location of `v`.
pub proof fn window_merge_covers_parts(v: Seq<((u16, u32), AyahMatch)>, surah: u16, parts: Seq<WindowPart>, n: int)
    requires
        0 <= n <= parts.len(),
    ensures
        forall|k: int| 0 <= k < n ==> keyed(merged_parts(v, surah, parts, n), (surah, #[trigger] parts[k].ayah)),
        forall|j: int| 0 <= j < v.len() ==> keyed(merged_parts(v, surah, parts, n), (#[trigger] v[j]).0),
    decreases n,
{
    if n > 0 {
        window_merge_covers_parts(v, surah, parts, n - 1);
        let prev = merged_parts(v, surah, parts, n - 1);
        let cur = merged_parts(v, surah, parts, n);
        if !keyed(prev, (surah, parts[n - 1].ayah)) {
            assert forall|k: int| 0 <= k < n implies keyed(cur, (surah, #[trigger] parts[k].ayah)) by {
                if k < n - 1 {
                    let q = choose|q: int| 0 <= q < prev.len() && (#[trigger] prev[q]).0 == (surah, parts[k].ayah);
                    assert(cur[q] == prev[q]);
                } else {
                    assert(cur[prev.len() as int].0 == (surah, parts[k].ayah));
                }
            }
            assert forall|j: int| 0 <= j < v.len() implies keyed(cur, (#[trigger] v[j]).0) by {
                let q = choose|q: int| 0 <= q < prev.len() && (#[trigger] prev[q]).0 == v[j].0;
                assert(cur[q] == prev[q]);
            }
        }
    } else {
        assert forall|j: int| 0 <= j < v.len() implies keyed(merged_parts(v, surah, parts, n), (#[trigger] v[j]).0) by {
            assert(merged_parts(v, surah, parts, n)[j] == v[j]);
        }
    }
}

/// Indexes (ascending) among the first `n` tokens whose normalized surface
/// equals `wanted`.
pub open spec fn equal_surfaces(normalized: Seq<String>, wanted: Seq<char>, n: int) -> Seq<usize>
    decreases n,
{
    if n <= 0 {
        Seq::empty()
    } else if normalized[n - 1]@ == wanted {
        equal_surfaces(normalized, wanted, n - 1).push((n - 1) as usize)
    } else {
        equal_surfaces(normalized, wanted, n - 1)
    }
}

/// Token `k`'s normalized surface equals `wanted`.
pub open spec fn surface_equals(normalized: Seq<String>, k: int, wanted: Seq<char>) -> bool {
    normalized[k]@ =~= wanted
}

/// The matched tokens of a whole-token verification are exactly the
/// tokens whose normalized surface equals the wanted term, in ascending
/// order.
pub proof fn equal_surfaces_law(normalized: Seq<String>, wanted: Seq<char>, n: int)
    requires
        0 <= n <= normalized.len(),
        normalized.len() <= usize::MAX,
    ensures
        forall|i: int|
            0 <= i < equal_surfaces(normalized, wanted, n).len() ==> (#[trigger] equal_surfaces(normalized, wanted, n)[i]) < n && surface_equals(normalized, equal_surfaces(normalized, wanted, n)[i] as int, wanted),
        forall|i: int, j: int|
            0 <= i < j < equal_surfaces(normalized, wanted, n).len() ==> #[trigger] equal_surfaces(normalized, wanted, n)[i] < #[trigger] equal_surfaces(normalized, wanted, n)[j],
        forall|k: int| 0 <= k < n && #[trigger] surface_equals(normalized, k, wanted) ==> equal_surfaces(normalized, wanted, n).contains(k as usize),
    decreases n,
{
    if n > 0 {
        equal_surfaces_law(normalized, wanted, n - 1);
        let prev = equal_surfaces(normalized, wanted, n - 1);
        let cur = equal_surfaces(normalized, wanted, n);
        assert forall|i: int| 0 <= i < cur.len() implies (#[trigger] cur[i]) < n && surface_equals(normalized, cur[i] as int, wanted) by {
            if i < prev.len() {
                assert(cur[i] == prev[i]);
            }
        }
        assert forall|i: int, j: int| 0 <= i < j < cur.len() implies #[trigger] cur[i] < #[trigger] cur[j] by {
            if j < prev.len() {
                assert(cur[i] == prev[i] && cur[j] == prev[j]);
            } else {
                assert(cur[i] == prev[i]);
            }
        }
        assert forall|m: int| 0 <= m < n && #[trigger] surface_equals(normalized, m, wanted) implies cur.contains(m as usize) by {
            if m < n - 1 {
                let q = choose|q: int| 0 <= q < prev.len() && prev[q] == m as usize;
                assert(cur[q] == prev[q]);
            } else {
                assert(cur[prev.len() as int] == m as usize);
            }
        }
    }
}

/// Verify a whole-token candidate: the tokens whose normalized surface
/// (`normalized[i]` for `tokens[i]`) equals the normalized term; the span is
/// the first such token's character range. `None` when no token matches or
/// the first one's row is inconsistent with the text.
pub fn verify_whole_token(ayah_text: &str, tokens: &[TokenRow], normalized: &[String], wanted: &str) -> (r: Option<AyahMatch>)
    requires
        ayah_text@.len() <= u32::MAX,
        normalized@.len() == tokens@.len(),
    ensures
        ({
            let matched = equal_surfaces(normalized@, wanted@, normalized@.len() as int);
            if matched.len() == 0 {
                r is None
            } else {
                let first = tokens@[matched[0] as int];
                match token_span(ayah_text@, first.char_start, first.char_end) {
                    None => r is None,
                    Some((a, b)) => r matches Some(m) && m.span == CanonicalSpan {
                        start: a as u32,
                        end: b as u32,
                        exact: true,
                    } && m.matched@ == matched && m.segmentation@.len() == 0
                        && !m.spans_ayah_boundary,
                }
            }
        }),
        (forall|k: int| 0 <= k < normalized@.len() ==> !#[trigger] surface_equals(normalized@, k, wanted@)) ==> r is None,
        r matches Some(m) ==> {
            &&& forall|i: int|
                0 <= i < m.matched@.len() ==> (#[trigger] m.matched@[i]) < normalized@.len() && surface_equals(
                    normalized@,
                    m.matched@[i] as int,
                    wanted@,
                )
            &&& forall|i: int, j: int| 0 <= i < j < m.matched@.len() ==> #[trigger] m.matched@[i] < #[trigger] m.matched@[j]
            &&& forall|k: int|
                0 <= k < normalized@.len() && #[trigger] surface_equals(normalized@, k, wanted@) ==> m.matched@.contains(
                    k as usize,
                )
        },
{
    proof {
        assert(normalized@.len() == normalized.len());
        equal_surfaces_law(normalized@, wanted@, normalized@.len() as int);
    }
    let mut matched: Vec<usize> = Vec::new();
    let mut i: usize = 0;
    while i < normalized.len()
        invariant
            i <= normalized@.len(),
            matched@ == equal_surfaces(normalized@, wanted@, i as int),
            forall|k: int| 0 <= k < matched@.len() ==> (#[trigger] matched@[k]) < i,
        decreases normalized.len() - i,
    {
        if str_eq(normalized[i].as_str(), wanted) {
            matched.push(i);
        }
        i = i + 1;
    }
    if matched.len() == 0 {
        proof {
            let all = equal_surfaces(normalized@, wanted@, normalized@.len() as int);
            assert(all.len() == 0);
        }
        return None;
    }
    proof {
        let all = equal_surfaces(normalized@, wanted@, normalized@.len() as int);
        if forall|k: int| 0 <= k < normalized@.len() ==> !#[trigger] surface_equals(normalized@, k, wanted@) {
            assert(surface_equals(normalized@, all[0] as int, wanted@));
        }
    }
    let first = matched[0];
    match token_char_range(ayah_text, &tokens[first]) {
        None => None,
        Some(range) => Some(
            AyahMatch {
                span: CanonicalSpan { start: range.start, end: range.end, exact: true },
                matched,
                segmentation: Vec::new(),
                spans_ayah_boundary: false,
            },
        ),
    }
}


/// Ayah-level matches kept in order, the first match of each location
/// winning.
pub open spec fn ayah_level(hits: Seq<((u16, u32), AyahMatch)>, n: int) -> Seq<((u16, u32), AyahMatch)>
    decreases n,
{
    if n <= 0 {
        Seq::empty()
    } else {
        let prev = ayah_level(hits, n - 1);
        if keyed(prev, hits[n - 1].0) {
            prev
        } else {
            prev.push(hits[n - 1])
        }
    }
}

/// The matches after merging the first `n` verified windows into `v`.
pub open spec fn windows_merged(
    v: Seq<((u16, u32), AyahMatch)>,
    windows: Seq<(u16, Vec<WindowPart>)>,
    n: int,
) -> Seq<((u16, u32), AyahMatch)>
    decreases n,
{
    if n <= 0 {
        v
    } else {
        let prev = windows_merged(v, windows, n - 1);
        merged_parts(prev, windows[n - 1].0, windows[n - 1].1@, windows[n - 1].1@.len() as int)
    }
}

/// Some verified window among the first `n` is of `surah` and has a part
/// at `ayah`.
pub open spec fn window_part_at(windows: Seq<(u16, Vec<WindowPart>)>, n: int, loc: (u16, u32)) -> bool {
    exists|w: int, k: int|
        0 <= w < n && 0 <= k < windows[w].1@.len() && windows[w].0 == loc.0 && (#[trigger] windows[w].1@[k]).ayah
            == loc.1
}

/// After merging the first `n` windows, every location of `v` and every
/// part's location has a match.
pub proof fn windows_merged_covers(v: Seq<((u16, u32), AyahMatch)>, windows: Seq<(u16, Vec<WindowPart>)>, n: int)
    requires
        0 <= n <= windows.len(),
    ensures
        forall|j: int| 0 <= j < v.len() ==> keyed(windows_merged(v, windows, n), (#[trigger] v[j]).0),
        forall|loc: (u16, u32)| #[trigger] window_part_at(windows, n, loc) ==> keyed(windows_merged(v, windows, n), loc),
    decreases n,
{
    if n > 0 {
        windows_merged_covers(v, windows, n - 1);
        let prev = windows_merged(v, windows, n - 1);
        let wn = windows[n - 1];
        let cur = windows_merged(v, windows, n);
        window_merge_covers_parts(prev, wn.0, wn.1@, wn.1@.len() as int);
        assert forall|j: int| 0 <= j < v.len() implies keyed(cur, (#[trigger] v[j]).0) by {
            assert(keyed(prev, v[j].0));
            let q = choose|q: int| 0 <= q < prev.len() && (#[trigger] prev[q]).0 == v[j].0;
            assert(keyed(cur, prev[q].0));
        }
        assert forall|loc: (u16, u32)| #[trigger] window_part_at(windows, n, loc) implies keyed(cur, loc) by {
            let (w, k) = choose|w: int, k: int|
                0 <= w < n && 0 <= k < windows[w].1@.len() && windows[w].0 == loc.0 && (#[trigger] windows[w].1@[k]).ayah
                    == loc.1;
            if w < n - 1 {
                assert(window_part_at(windows, n - 1, loc));
                assert(keyed(prev, loc));
                let q = choose|q: int| 0 <= q < prev.len() && (#[trigger] prev[q]).0 == loc;
                assert(keyed(cur, prev[q].0));
            } else {
                assert(keyed(cur, (wn.0, wn.1@[k].ayah)));
            }
        }
    }
}

/// No location occurs twice.
pub open spec fn distinct_keys(v: Seq<((u16, u32), AyahMatch)>) -> bool {
    forall|i: int, j: int| 0 <= i < j < v.len() ==> (#[trigger] v[i]).0 != (#[trigger] v[j]).0
}

/// Record `m` at `key` unless the location already has a match.
fn insert_first(v: &mut Vec<((u16, u32), AyahMatch)>, key: (u16, u32), m: AyahMatch)
    ensures
        final(v)@ == (if keyed(old(v)@, key) {
            old(v)@
        } else {
            old(v)@.push((key, m))
        }),
{
    let mut found = false;
    let mut j: usize = 0;
    while j < v.len()
        invariant
            j <= v@.len(),
            found == exists|q: int| 0 <= q < j && (#[trigger] v@[q]).0 == key,
        decreases v.len() - j,
    {
        if v[j].0.0 == key.0 && v[j].0.1 == key.1 {
            found = true;
        }
        j = j + 1;
    }
    if !found {
        v.push((key, m));
    }
}

proof fn lemma_ayah_level_distinct(hits: Seq<((u16, u32), AyahMatch)>, n: int)
    requires
        0 <= n <= hits.len(),
    ensures
        distinct_keys(ayah_level(hits, n)),
        forall|i: int| 0 <= i < n ==> keyed(ayah_level(hits, n), #[trigger] hits[i].0),
    decreases n,
{
    if n > 0 {
        lemma_ayah_level_distinct(hits, n - 1);
        let prev = ayah_level(hits, n - 1);
        let cur = ayah_level(hits, n);
        if !keyed(prev, hits[n - 1].0) {
            assert forall|i: int, j: int| 0 <= i < j < cur.len() implies (#[trigger] cur[i]).0
                != (#[trigger] cur[j]).0 by {
                if j < prev.len() {
                    assert(cur[i] == prev[i] && cur[j] == prev[j]);
                } else {
                    assert(cur[i] == prev[i]);
                }
            }
            assert forall|i: int| 0 <= i < n implies keyed(cur, #[trigger] hits[i].0) by {
                if i < n - 1 {
                    let q = choose|q: int| 0 <= q < prev.len() && (#[trigger] prev[q]).0 == hits[i].0;
                    assert(cur[q] == prev[q]);
                } else {
                    assert(cur[prev.len() as int] == hits[n - 1]);
                }
            }
        }
    }
}

proof fn lemma_merged_parts_distinct(v: Seq<((u16, u32), AyahMatch)>, surah: u16, parts: Seq<WindowPart>, n: int)
    requires
        distinct_keys(v),
        0 <= n <= parts.len(),
    ensures
        distinct_keys(merged_parts(v, surah, parts, n)),
        merged_parts(v, surah, parts, n).len() >= v.len(),
        merged_parts(v, surah, parts, n).take(v.len() as int) == v,
    decreases n,
{
    window_merge_keeps_verified(v, surah, parts, n);
    if n > 0 {
        lemma_merged_parts_distinct(v, surah, parts, n - 1);
        let prev = merged_parts(v, surah, parts, n - 1);
        let cur = merged_parts(v, surah, parts, n);
        if !keyed(prev, (surah, parts[n - 1].ayah)) {
            assert forall|i: int, j: int| 0 <= i < j < cur.len() implies (#[trigger] cur[i]).0
                != (#[trigger] cur[j]).0 by {
                if j < prev.len() {
                    assert(cur[i] == prev[i] && cur[j] == prev[j]);
                } else {
                    assert(cur[i] == prev[i]);
                }
            }
        }
    }
}

proof fn lemma_windows_merged(v: Seq<((u16, u32), AyahMatch)>, windows: Seq<(u16, Vec<WindowPart>)>, n: int)
    requires
        distinct_keys(v),
        0 <= n <= windows.len(),
    ensures
        distinct_keys(windows_merged(v, windows, n)),
        windows_merged(v, windows, n).len() >= v.len(),
        windows_merged(v, windows, n).take(v.len() as int) == v,
    decreases n,
{
    if n > 0 {
        lemma_windows_merged(v, windows, n - 1);
        let prev = windows_merged(v, windows, n - 1);
        let w = windows[n - 1];
        lemma_merged_parts_distinct(prev, w.0, w.1@, w.1@.len() as int);
        let cur = windows_merged(v, windows, n);
        assert(cur.take(v.len() as int) =~= cur.take(prev.len() as int).take(v.len() as int));
    } else {
        assert(v.take(v.len() as int) =~= v);
    }
}

/// Assemble the verified matches of a concatenated search: the ayah-level
/// matches first (the first of each location kept), then the parts of each
/// verified window, where a location already matched keeps its match (an
/// ayah-level hit wins); the total counts the matched locations.
pub fn assemble_concatenated(
    ayah_hits: Vec<((u16, u32), AyahMatch)>,
    windows: Vec<(u16, Vec<WindowPart>)>,
) -> (r: (Vec<((u16, u32), AyahMatch)>, u64))
    ensures
        r.0@ == windows_merged(ayah_level(ayah_hits@, ayah_hits@.len() as int), windows@, windows@.len() as int),
        r.1 == r.0@.len(),
        distinct_keys(r.0@),
        r.0@.take(ayah_level(ayah_hits@, ayah_hits@.len() as int).len() as int) == ayah_level(
            ayah_hits@,
            ayah_hits@.len() as int,
        ),
        forall|i: int| 0 <= i < ayah_hits@.len() ==> keyed(r.0@, #[trigger] ayah_hits@[i].0),
        forall|loc: (u16, u32)| #[trigger] window_part_at(windows@, windows@.len() as int, loc) ==> keyed(r.0@, loc),
{
    let ghost hits = ayah_hits@;
    let ghost all = windows@;
    assert(hits.len() == ayah_hits.len() && all.len() == windows.len());
    let mut verified: Vec<((u16, u32), AyahMatch)> = Vec::new();
    let mut rest = ayah_hits;
    let mut i: usize = 0;
    while rest.len() > 0
        invariant
            i + rest@.len() == hits.len(),
            hits.len() <= usize::MAX,
            rest@ == hits.skip(i as int),
            verified@ == ayah_level(hits, i as int),
        decreases rest.len(),
    {
        let (key, m) = rest.remove(0);
        assert((key, m) == hits[i as int]);
        proof {
            assert(rest@ =~= hits.skip(i + 1));
        }
        insert_first(&mut verified, key, m);
        i = i + 1;
    }
    let ghost base = verified@;
    proof {
        lemma_ayah_level_distinct(hits, hits.len() as int);
    }
    let mut wrest = windows;
    let mut k: usize = 0;
    while wrest.len() > 0
        invariant
            k + wrest@.len() == all.len(),
            all.len() <= usize::MAX,
            wrest@ == all.skip(k as int),
            verified@ == windows_merged(base, all, k as int),
        decreases wrest.len(),
    {
        let (surah, parts) = wrest.remove(0);
        assert((surah, parts) == all[k as int]);
        proof {
            assert(wrest@ =~= all.skip(k + 1));
        }
        merge_window_parts(&mut verified, surah, parts);
        k = k + 1;
    }
    proof {
        lemma_windows_merged(base, all, all.len() as int);
        windows_merged_covers(base, all, all.len() as int);
        assert forall|i: int| 0 <= i < hits.len() implies keyed(verified@, #[trigger] hits[i].0) by {
            assert(keyed(base, hits[i].0));
            let q = choose|q: int| 0 <= q < base.len() && (#[trigger] base[q]).0 == hits[i].0;
            assert(verified@.take(base.len() as int)[q] == base[q]);
            assert(verified@[q] == base[q]);
        }
    }
    let total = verified.len() as u64;
    (verified, total)
}

/// Detail of the refusal of a concatenated search spanning no ayah.
pub const SPAN_TOO_SMALL: &'static str = "max_ayah_span must be >= 1";

/// The concatenated search's guard on its span: at least one ayah, else the
/// query is refused (`QAI-IDX-0002`) before anything is opened.
pub fn check_ayah_span(max_ayah_span: u32) -> (r: Result<(), SearchError>)
    ensures
        r is Ok <==> max_ayah_span >= 1,
        max_ayah_span < 1 ==> (r matches Err(SearchError::Index(f)) && f.code@ == code_text(
            "QAI-IDX"@,
            2,
        ) && f.message@ == SPAN_TOO_SMALL@ && f.remedy is None),
{
    if max_ayah_span < 1 {
        let code = DiagnosticCode::new("QAI-IDX", 2).render();
        return Err(SearchError::Index(IndexFault { code, message: owned(SPAN_TOO_SMALL), remedy: None }));
    }
    Ok(())
}

/// Derived index `x` has its image in `lo..hi`.
pub open spec fn image_in(images: Seq<u32>, lo: int, hi: int, x: int) -> bool {
    lo <= images[x] && images[x] < hi
}

/// The first hit is the least index in `start..d` whose image lies in
/// `lo..hi`, and the last hit the greatest; neither exists exactly when no
/// index there has its image in the window.
pub proof fn hits_law(images: Seq<u32>, lo: int, hi: int, start: int, d: int)
    ensures
        match first_hit(images, lo, hi, start, d) {
            Some(x) => start <= x < d && image_in(images, lo, hi, x) && forall|y: int|
                start <= y < x ==> !#[trigger] image_in(images, lo, hi, y),
            None => forall|y: int| start <= y < d ==> !#[trigger] image_in(images, lo, hi, y),
        },
        match last_hit(images, lo, hi, start, d) {
            Some(x) => start <= x < d && image_in(images, lo, hi, x) && forall|y: int|
                x < y < d ==> !#[trigger] image_in(images, lo, hi, y),
            None => forall|y: int| start <= y < d ==> !#[trigger] image_in(images, lo, hi, y),
        },
    decreases d - start,
{
    if d > start {
        hits_law(images, lo, hi, start, d - 1);
    }
}

} // verus!
