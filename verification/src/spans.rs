//! Unit boundary between token rows and canonical spans: token offsets are
//! grapheme-cluster indices, spans count Unicode scalars. Also the tokens a
//! span overlaps.

use vstd::prelude::*;
use crate::rows::TokenRow;
use crate::text::chars_of;
use unicode_segmentation::UnicodeSegmentation;

verus! {

/// A span over canonical text, in characters (`start..end`), and whether the
/// mapping that produced it was exact.
#[derive(Debug, Clone, Copy, PartialEq, Eq)]
pub struct CanonicalSpan {
    /// First character.
    pub start: u32,
    /// End character (exclusive).
    pub end: u32,
    /// Whether the span maps exactly.
    pub exact: bool,
}

/// The extended grapheme clusters of `text`, in order, as
/// `unicode_segmentation::UnicodeSegmentation::graphemes(text, true)` yields
/// them (UAX #29).
pub uninterp spec fn extended_graphemes(text: Seq<char>) -> Seq<Seq<char>>;

/// Concatenation of a sequence of strings.
pub open spec fn joined(g: Seq<Seq<char>>) -> Seq<char>
    decreases g.len(),
{
    if g.len() == 0 {
        Seq::empty()
    } else {
        joined(g.drop_last()) + g.last()
    }
}

/// Views of a list of strings.
pub open spec fn views(v: Seq<String>) -> Seq<Seq<char>> {
    v.map_values(|s: String| s@)
}

/// `UnicodeSegmentation::graphemes(text, true)`, each cluster copied out.
/// Claims: the clusters are `extended_graphemes(text)`, and (the clusters
/// partition the text) their concatenation is `text`.
#[verifier::external_body]
fn grapheme_clusters(text: &str) -> (r: Vec<String>)
    ensures
        views(r@) == extended_graphemes(text@),
        joined(views(r@)) == text@,
{
    text.graphemes(true).map(|g| g.to_string()).collect()
}

/// Character offset at which cluster `k` starts.
pub open spec fn cluster_start(g: Seq<Seq<char>>, k: int) -> int {
    joined(g.take(k)).len() as int
}

proof fn lemma_joined_prefix(g: Seq<Seq<char>>, k: int)
    requires
        0 <= k <= g.len(),
    ensures
        joined(g.take(k)).len() <= joined(g).len(),
    decreases g.len(),
{
    if k < g.len() {
        assert(g.drop_last().take(k) =~= g.take(k));
        lemma_joined_prefix(g.drop_last(), k);
    } else {
        assert(g.take(k) =~= g);
    }
}

proof fn lemma_cluster_step(g: Seq<Seq<char>>, k: int)
    requires
        0 <= k < g.len(),
    ensures
        cluster_start(g, k + 1) == cluster_start(g, k) + g[k].len(),
{
    assert(g.take(k + 1).drop_last() =~= g.take(k));
    assert(g.take(k + 1).last() == g[k]);
}

/// Character start of every cluster of `text`, plus the end sentinel.
pub(crate) fn cluster_starts(text: &str) -> (starts: Vec<u32>)
    requires
        text@.len() <= u32::MAX,
    ensures
        starts@.len() == extended_graphemes(text@).len() + 1,
        forall|k: int|
            0 <= k < starts@.len() ==> #[trigger] starts@[k] == cluster_start(
                extended_graphemes(text@),
                k,
            ),
        forall|k: int| 0 <= k < starts@.len() ==> #[trigger] starts@[k] <= text@.len(),
{
    let clusters = grapheme_clusters(text);
    let ghost g = extended_graphemes(text@);
    let mut starts: Vec<u32> = Vec::new();
    starts.push(0);
    assert(g.take(0) =~= Seq::<Seq<char>>::empty());
    let mut chars: u32 = 0;
    let mut k: usize = 0;
    while k < clusters.len()
        invariant
            views(clusters@) == g,
            joined(g) == text@,
            text@.len() <= u32::MAX,
            k <= clusters.len(),
            starts@.len() == k + 1,
            chars == cluster_start(g, k as int),
            forall|j: int| 0 <= j <= k ==> #[trigger] starts@[j] == cluster_start(g, j),
            forall|j: int| 0 <= j <= k ==> #[trigger] starts@[j] <= text@.len(),
        decreases clusters.len() - k,
    {
        let piece = chars_of(clusters[k].as_str());
        proof {
            assert(views(clusters@)[k as int] == clusters@[k as int]@);
            lemma_cluster_step(g, k as int);
            lemma_joined_prefix(g, k + 1);
        }
        chars = chars + piece.len() as u32;
        starts.push(chars);
        k = k + 1;
    }
    starts
}

/// Character range of a token whose cluster range is
/// `char_start..char_end` (both read as `u32`), or `None` when the range is
/// reversed or runs past the last cluster.
pub open spec fn token_span(text: Seq<char>, char_start: i64, char_end: i64) -> Option<(int, int)> {
    let g = extended_graphemes(text);
    let from = char_start as u32;
    let to = char_end as u32;
    if from > to || to > g.len() {
        None
    } else {
        Some((cluster_start(g, from as int), cluster_start(g, to as int)))
    }
}

pub(crate) fn range_from_starts(starts: &Vec<u32>, token: &TokenRow) -> (r: Option<std::ops::Range<u32>>)
    requires
        starts@.len() >= 1,
    ensures
        ({
            let from = token.char_start as u32;
            let to = token.char_end as u32;
            &&& r is None <==> (from > to || to >= starts@.len())
            &&& r matches Some(rg) ==> rg.start == starts@[from as int] && rg.end
                == starts@[to as int]
        }),
{
    let clusters = starts.len() - 1;
    let from = token.char_start as u32;
    let to = token.char_end as u32;
    if from > to || (to as usize) > clusters {
        return None;
    }
    Some(std::ops::Range { start: starts[from as usize], end: starts[to as usize] })
}

/// Convert a token row's grapheme-cluster range to character offsets within
/// its ayah text; `None` for inconsistent rows (never a guessed range).
pub fn token_char_range(text: &str, token: &TokenRow) -> (r: Option<std::ops::Range<u32>>)
    requires
        text@.len() <= u32::MAX,
    ensures
        r is None <==> token_span(text@, token.char_start, token.char_end) is None,
        r matches Some(rg) ==> token_span(text@, token.char_start, token.char_end) == Some(
            (rg.start as int, rg.end as int),
        ),
{
    let starts = cluster_starts(text);
    range_from_starts(&starts, token)
}

/// Token `t` overlaps the character range `span` of `text`.
pub open spec fn overlaps(text: Seq<char>, t: TokenRow, span: CanonicalSpan) -> bool {
    match token_span(text, t.char_start, t.char_end) {
        Some((a, b)) => a < span.end && span.start < b,
        None => false,
    }
}

/// Indexes (ascending) of the first `n` tokens that overlap `span`.
pub open spec fn overlap_indices(
    text: Seq<char>,
    tokens: Seq<TokenRow>,
    span: CanonicalSpan,
    n: int,
) -> Seq<usize>
    decreases n,
{
    if n <= 0 {
        Seq::empty()
    } else if overlaps(text, tokens[n - 1], span) {
        overlap_indices(text, tokens, span, n - 1).push((n - 1) as usize)
    } else {
        overlap_indices(text, tokens, span, n - 1)
    }
}

/// The overlapping tokens are exactly the tokens that overlap the span,
/// in ascending order.
pub proof fn overlap_indices_law(text: Seq<char>, tokens: Seq<TokenRow>, span: CanonicalSpan, n: int)
    requires
        0 <= n <= tokens.len(),
        tokens.len() <= usize::MAX,
    ensures
        forall|i: int|
            0 <= i < overlap_indices(text, tokens, span, n).len() ==> (#[trigger] overlap_indices(text, tokens, span, n)[i]) < n && overlaps(text, tokens[overlap_indices(text, tokens, span, n)[i] as int], span),
        forall|i: int, j: int|
            0 <= i < j < overlap_indices(text, tokens, span, n).len() ==> #[trigger] overlap_indices(text, tokens, span, n)[i] < #[trigger] overlap_indices(text, tokens, span, n)[j],
        forall|k: int| 0 <= k < n && #[trigger] overlaps(text, tokens[k], span) ==> overlap_indices(text, tokens, span, n).contains(k as usize),
    decreases n,
{
    if n > 0 {
        overlap_indices_law(text, tokens, span, n - 1);
        let prev = overlap_indices(text, tokens, span, n - 1);
        let cur = overlap_indices(text, tokens, span, n);
        assert forall|i: int| 0 <= i < cur.len() implies (#[trigger] cur[i]) < n && overlaps(text, tokens[cur[i] as int], span) by {
            if i < prev.len() {
                assert(cur[i] == prev[i]);
            }
        }
        assert forall|i: int, j: int| 0 <= i < j < cur.len() implies #[trigger] cur[i] < #[trigger] cur[j] by {
            if j < prev.len() {
                assert(cur[i] == prev[i] && cur[j] == prev[j]);
            } else {
                assert(cur[i] == prev[i]);
            }
        }
        assert forall|m: int| 0 <= m < n && #[trigger] overlaps(text, tokens[m], span) implies cur.contains(m as usize) by {
            if m < n - 1 {
                let q = choose|q: int| 0 <= q < prev.len() && prev[q] == m as usize;
                assert(cur[q] == prev[q]);
            } else {
                assert(cur[prev.len() as int] == m as usize);
            }
        }
    }
}

/// Tokens overlapping a canonical span (cluster ranges converted to
/// characters first), by index in ascending order.
pub fn overlapping_tokens(text: &str, tokens: &[TokenRow], span: &CanonicalSpan) -> (r: Vec<usize>)
    requires
        text@.len() <= u32::MAX,
    ensures
        r@ == overlap_indices(text@, tokens@, *span, tokens@.len() as int),
        forall|i: int| 0 <= i < r@.len() ==> (#[trigger] r@[i]) < tokens@.len() && overlaps(text@, tokens@[r@[i] as int], *span),
        forall|i: int, j: int| 0 <= i < j < r@.len() ==> #[trigger] r@[i] < #[trigger] r@[j],
        forall|k: int| 0 <= k < tokens@.len() && #[trigger] overlaps(text@, tokens@[k], *span) ==> r@.contains(k as usize),
{
    proof {
        assert(tokens@.len() == tokens.len());
        overlap_indices_law(text@, tokens@, *span, tokens@.len() as int);
    }
    let starts = cluster_starts(text);
    let mut r: Vec<usize> = Vec::new();
    let mut i: usize = 0;
    while i < tokens.len()
        invariant
            i <= tokens.len(),
            starts@.len() == extended_graphemes(text@).len() + 1,
            forall|k: int|
                0 <= k < starts@.len() ==> #[trigger] starts@[k] == cluster_start(
                    extended_graphemes(text@),
                    k,
                ),
            r@ == overlap_indices(text@, tokens@, *span, i as int),
        decreases tokens.len() - i,
    {
        match range_from_starts(&starts, &tokens[i]) {
            Some(rg) => {
                if rg.start < span.end && span.start < rg.end {
                    r.push(i);
                }
            },
            None => {},
        }
        i = i + 1;
    }
    r
}

} // verus!
