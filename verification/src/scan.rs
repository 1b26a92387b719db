//! Scan-mode matching over derived (normalized) ayah text: where a query
//! matches as a whole token, as a substring, or as the ayah prefix, in
//! character offsets of the derived text.

use vstd::prelude::*;
use crate::search::{derived_tokens, lemma_token_end, token_end, tokens_from, word_ranges};
use crate::text::{chars_of, is_ws, str_eq};
use crate::filter::{admits_all, passes_filters, Filter};
use crate::paging::{order_candidates, strictly_sorted};
use crate::rows::AyahRow;

verus! {

/// Token match mode.
#[derive(Debug, Clone, Copy, PartialEq, Eq)]
pub enum MatchMode {
    /// Whole-token equality after normalization.
    WholeToken,
    /// Substring of normalized ayah text.
    Substring,
    /// Normalized ayah-text prefix.
    AyahPrefix,
}

/// Token ranges from `i` on are ordered, non-empty, separated and inside `s`.
pub open spec fn well_spaced(s: Seq<char>, t: Seq<(int, int)>, i: int) -> bool {
    &&& forall|k: int| 0 <= k < t.len() ==> i <= (#[trigger] t[k]).0 < t[k].1 <= s.len()
    &&& forall|k: int| 0 <= k < t.len() - 1 ==> (#[trigger] t[k]).1 < t[k + 1].0
}

proof fn lemma_prepend_spaced(s: Seq<char>, i: int, e: int, rest: Seq<(int, int)>)
    requires
        0 <= i < e <= s.len(),
        well_spaced(s, rest, e + 1) || rest.len() == 0,
    ensures
        well_spaced(s, seq![(i, e)] + rest, i),
{
    let t = seq![(i, e)] + rest;
    assert forall|k: int| 0 <= k < t.len() - 1 implies (#[trigger] t[k]).1 < t[k + 1].0 by {
        assert(t[k + 1] == rest[k]);
        if k > 0 {
            assert(t[k] == rest[k - 1]);
        }
    }
    assert forall|k: int| 0 <= k < t.len() implies i <= (#[trigger] t[k]).0 < t[k].1 <= s.len() by {
        if k > 0 {
            assert(t[k] == rest[k - 1]);
        }
    }
}

proof fn lemma_tokens_shape(s: Seq<char>, i: int)
    requires
        0 <= i <= s.len(),
    ensures
        well_spaced(s, tokens_from(s, i), i),
    decreases s.len() - i,
{
    if i < s.len() {
        if is_ws(s[i]) {
            lemma_tokens_shape(s, i + 1);
        } else {
            lemma_token_end(s, i + 1);
            let e = token_end(s, i + 1);
            assert(tokens_from(s, i) == seq![(i, e)] + tokens_from(s, e));
            if e < s.len() {
                lemma_tokens_shape(s, e + 1);
                assert(tokens_from(s, e) == tokens_from(s, e + 1));
            } else {
                assert(tokens_from(s, e).len() == 0);
            }
            lemma_prepend_spaced(s, i, e, tokens_from(s, e));
        }
    }
}

/// Offset the whole-token scan assigns to token `k`: each earlier token
/// counts its length plus one separator.
pub open spec fn ws_offset(w: Seq<(int, int)>, k: int) -> int
    decreases k,
{
    if k <= 0 {
        0
    } else {
        ws_offset(w, k - 1) + (w[k - 1].1 - w[k - 1].0) + 1
    }
}

proof fn lemma_ws_offset(s: Seq<char>, w: Seq<(int, int)>, k: int)
    requires
        well_spaced(s, w, 0),
        0 <= k <= w.len(),
    ensures
        k < w.len() ==> ws_offset(w, k) <= w[k].0,
        k == w.len() && k > 0 ==> ws_offset(w, k) <= s.len() + 1,
    decreases k,
{
    if k > 0 {
        lemma_ws_offset(s, w, k - 1);
        assert(w[k - 1].0 < w[k - 1].1);
        if k < w.len() {
            assert(w[k - 1].1 < w[k].0);
        }
    }
}

/// First token (from `k` on) whose text equals `q`.
pub open spec fn first_token_eq(s: Seq<char>, w: Seq<(int, int)>, q: Seq<char>, k: int) -> Option<int>
    decreases w.len() - k,
{
    if k < 0 || k >= w.len() {
        None
    } else if s.subrange(w[k].0, w[k].1) == q {
        Some(k)
    } else {
        first_token_eq(s, w, q, k + 1)
    }
}

/// First position (from `i` on) where `q` occurs in `s`.
pub open spec fn occurrence_from(s: Seq<char>, q: Seq<char>, i: int) -> Option<int>
    decreases s.len() + 1 - i,
{
    if i < 0 || i + q.len() > s.len() {
        None
    } else if s.subrange(i, i + q.len()) == q {
        Some(i)
    } else {
        occurrence_from(s, q, i + 1)
    }
}

/// `q` occurs in `s` at character `p`.
pub open spec fn occurs_at(s: Seq<char>, q: Seq<char>, p: int) -> bool {
    0 <= p && p + q.len() <= s.len() && s.subrange(p, p + q.len()) =~= q
}

proof fn lemma_occurrence_from(s: Seq<char>, q: Seq<char>, i: int)
    requires
        0 <= i,
    ensures
        occurrence_from(s, q, i) matches Some(p) ==> i <= p && occurs_at(s, q, p) && forall|k: int|
            i <= k < p ==> !#[trigger] occurs_at(s, q, k),
        occurrence_from(s, q, i) is None ==> forall|k: int| i <= k ==> !#[trigger] occurs_at(s, q, k),
    decreases s.len() + 1 - i,
{
    if i + q.len() <= s.len() && !(s.subrange(i, i + q.len()) == q) {
        lemma_occurrence_from(s, q, i + 1);
        assert(!occurs_at(s, q, i));
    }
}

/// A substring match is the first occurrence of the query: there is one
/// exactly when the query occurs anywhere in the text (the very start
/// included), and it covers the least position where it occurs.
pub proof fn substring_match_law(s: Seq<char>, q: Seq<char>)
    ensures
        scan_spec(s, q, MatchMode::Substring) is Some <==> exists|p: int| #[trigger] occurs_at(s, q, p),
        scan_spec(s, q, MatchMode::Substring) matches Some((a, b)) ==> occurs_at(s, q, a) && b == a + q.len()
            && forall|p: int| #[trigger] occurs_at(s, q, p) ==> a <= p,
{
    lemma_occurrence_from(s, q, 0);
    if exists|p: int| #[trigger] occurs_at(s, q, p) {
        let p = choose|p: int| #[trigger] occurs_at(s, q, p);
        assert(0 <= p);
    }
}

/// Where `q` matches derived text `s` under `mode`, in characters.
pub open spec fn scan_spec(s: Seq<char>, q: Seq<char>, mode: MatchMode) -> Option<(int, int)> {
    match mode {
        MatchMode::WholeToken => {
            let w = word_ranges(s);
            match first_token_eq(s, w, q, 0) {
                Some(k) => Some((ws_offset(w, k), ws_offset(w, k) + (w[k].1 - w[k].0))),
                None => None,
            }
        },
        MatchMode::Substring => match occurrence_from(s, q, 0) {
            Some(i) => Some((i, i + q.len())),
            None => None,
        },
        MatchMode::AyahPrefix => if q.len() <= s.len() && s.take(q.len() as int) == q {
            Some((0, q.len() as int))
        } else {
            None
        },
    }
}

/// Token `k` of `s` (by the ranges `w`) reads `q`.
pub open spec fn token_reads(s: Seq<char>, w: Seq<(int, int)>, k: int, q: Seq<char>) -> bool {
    s.subrange(w[k].0, w[k].1) =~= q
}

proof fn lemma_first_token_eq(s: Seq<char>, w: Seq<(int, int)>, q: Seq<char>, k: int)
    requires
        0 <= k,
    ensures
        first_token_eq(s, w, q, k) matches Some(x) ==> k <= x < w.len() && token_reads(s, w, x, q) && forall|y: int|
            k <= y < x ==> !#[trigger] token_reads(s, w, y, q),
        first_token_eq(s, w, q, k) is None ==> forall|y: int| k <= y < w.len() ==> !#[trigger] token_reads(s, w, y, q),
    decreases w.len() - k,
{
    if k < w.len() && !(s.subrange(w[k].0, w[k].1) == q) {
        lemma_first_token_eq(s, w, q, k + 1);
        assert(!token_reads(s, w, k, q));
    }
}

/// A whole-token match exists exactly when some whitespace token of the
/// text is the query, and it is found at the first such token; an ayah
/// prefix match exists exactly when the text begins with the query, and
/// covers it from the start.
pub proof fn token_and_prefix_match_law(s: Seq<char>, q: Seq<char>)
    ensures
        scan_spec(s, q, MatchMode::WholeToken) is Some <==> exists|k: int|
            0 <= k < word_ranges(s).len() && #[trigger] token_reads(s, word_ranges(s), k, q),
        first_token_eq(s, word_ranges(s), q, 0) matches Some(x) ==> token_reads(s, word_ranges(s), x, q)
            && forall|y: int| 0 <= y < x ==> !#[trigger] token_reads(s, word_ranges(s), y, q),
        scan_spec(s, q, MatchMode::AyahPrefix) is Some <==> (q.len() <= s.len() && s.subrange(0, q.len() as int)
            =~= q),
        scan_spec(s, q, MatchMode::AyahPrefix) matches Some((a, b)) ==> a == 0 && b == q.len(),
{
    lemma_first_token_eq(s, word_ranges(s), q, 0);
    if q.len() <= s.len() {
        assert(s.take(q.len() as int) =~= s.subrange(0, q.len() as int));
    }
}

fn matches_at(s: &[char], q: &[char], i: usize) -> (r: bool)
    requires
        i + q.len() <= s.len(),
    ensures
        r == (s@.subrange(i as int, i + q.len()) == q@),
{
    let mut j: usize = 0;
    while j < q.len()
        invariant
            i + q.len() <= s.len(),
            j <= q.len(),
            forall|k: int| 0 <= k < j ==> s@[i + k] == q@[k],
        decreases q.len() - j,
    {
        if s[i + j] != q[j] {
            assert(s@.subrange(i as int, i + q.len())[j as int] != q@[j as int]);
            return false;
        }
        j = j + 1;
    }
    assert(s@.subrange(i as int, i + q.len()) =~= q@);
    true
}

fn whole_token_offsets(text: &str, query: &str) -> (r: Option<(u32, u32)>)
    requires
        text@.len() < u32::MAX,
    ensures
        r is None <==> scan_spec(text@, query@, MatchMode::WholeToken) is None,
        r matches Some(p) ==> scan_spec(text@, query@, MatchMode::WholeToken) == Some(
            (p.0 as int, p.1 as int),
        ),
{
    let toks = derived_tokens(text);
    let ghost w = word_ranges(text@);
    proof {
        lemma_tokens_shape(text@, 0);
    }
    let mut offset: u32 = 0;
    let mut k: usize = 0;
    while k < toks.len()
        invariant
            toks@.len() == w.len(),
            w == word_ranges(text@),
            well_spaced(text@, w, 0),
            text@.len() < u32::MAX,
            forall|j: int|
                0 <= j < toks@.len() ==> {
                    &&& (#[trigger] toks@[j]).0.start == w[j].0
                    &&& toks@[j].0.end == w[j].1
                    &&& toks@[j].1@ == text@.subrange(w[j].0, w[j].1)
                },
            k <= toks.len(),
            offset == ws_offset(w, k as int),
            first_token_eq(text@, w, query@, 0) == first_token_eq(text@, w, query@, k as int),
        decreases toks.len() - k,
    {
        proof {
            lemma_ws_offset(text@, w, k as int);
        }
        let len = toks[k].0.end - toks[k].0.start;
        if str_eq(toks[k].1, query) {
            return Some((offset, offset + len));
        }
        offset = offset + len + 1;
        k = k + 1;
    }
    None
}

fn substring_offsets(text: &str, query: &str) -> (r: Option<(u32, u32)>)
    requires
        text@.len() < u32::MAX,
    ensures
        r is None <==> scan_spec(text@, query@, MatchMode::Substring) is None,
        r matches Some(p) ==> scan_spec(text@, query@, MatchMode::Substring) == Some(
            (p.0 as int, p.1 as int),
        ),
        r is None <==> forall|p: int| !#[trigger] occurs_at(text@, query@, p),
        r matches Some((a, b)) ==> occurs_at(text@, query@, a as int) && b == a + query@.len()
            && forall|p: int| #[trigger] occurs_at(text@, query@, p) ==> a <= p,
{
    proof {
        substring_match_law(text@, query@);
    }
    let s = chars_of(text);
    let q = chars_of(query);
    if q.len() > s.len() {
        return None;
    }
    let mut i: usize = 0;
    while i <= s.len() - q.len()
        invariant
            s@ == text@,
            q@ == query@,
            q.len() <= s.len(),
            s.len() < u32::MAX,
            i <= s.len() - q.len() + 1,
            occurrence_from(text@, query@, 0) == occurrence_from(text@, query@, i as int),
        decreases s.len() - q.len() + 1 - i,
    {
        if matches_at(s.as_slice(), q.as_slice(), i) {
            proof {
                assert(occurrence_from(text@, query@, i as int) == Some(i as int));
                substring_match_law(text@, query@);
            }
            return Some((i as u32, (i + q.len()) as u32));
        }
        i = i + 1;
    }
    None
}

/// Where the query matches the derived text under `mode`: the first whole
/// token equal to it (offsets counted token by token), its first occurrence,
/// or the prefix; in characters.
pub fn scan_offsets(text: &str, query: &str, mode: MatchMode) -> (r: Option<(u32, u32)>)
    requires
        text@.len() < u32::MAX,
    ensures
        r is None <==> scan_spec(text@, query@, mode) is None,
        r matches Some(p) ==> scan_spec(text@, query@, mode) == Some((p.0 as int, p.1 as int)),
        mode == MatchMode::Substring ==> (r is None <==> forall|p: int| !#[trigger] occurs_at(text@, query@, p)),
        mode == MatchMode::Substring ==> (r matches Some((a, b)) ==> occurs_at(text@, query@, a as int) && b
            == a + query@.len() && forall|p: int| #[trigger] occurs_at(text@, query@, p) ==> a <= p),
{
    proof {
        substring_match_law(text@, query@);
    }
    match mode {
        MatchMode::WholeToken => whole_token_offsets(text, query),
        MatchMode::Substring => substring_offsets(text, query),
        MatchMode::AyahPrefix => {
            let s = chars_of(text);
            let q = chars_of(query);
            if q.len() <= s.len() && matches_at(s.as_slice(), q.as_slice(), 0) {
                assert(text@.subrange(0, q.len() as int) =~= text@.take(q.len() as int));
                Some((0, q.len() as u32))
            } else {
                proof {
                    if q.len() <= s.len() {
                        assert(text@.subrange(0, q.len() as int) =~= text@.take(q.len() as int));
                    }
                }
                None
            }
        },
    }
}

/// The characters of `text` whose index lies in `start..end`.
pub open spec fn char_slice(text: Seq<char>, start: int, end: int) -> Seq<char> {
    if start >= end || start >= text.len() {
        Seq::empty()
    } else if end >= text.len() {
        text.subrange(start, text.len() as int)
    } else {
        text.subrange(start, end)
    }
}

/// The canonical characters a span covers (characters with index in
/// `start..end`, those past the text's end left out).
pub fn canonical_slice(text: &str, start: u32, end: u32) -> (r: String)
    ensures
        r@ == char_slice(text@, start as int, end as int),
{
    let s = chars_of(text);
    let mut r = String::new();
    let mut i: usize = start as usize;
    if start >= end || i >= s.len() {
        return r;
    }
    let stop: usize = if (end as usize) < s.len() {
        end as usize
    } else {
        s.len()
    };
    while i < stop
        invariant
            s@ == text@,
            start < end,
            start < s.len(),
            stop <= s.len(),
            stop == (if end < s.len() {
                end as int
            } else {
                s.len() as int
            }),
            start <= i <= stop,
            r@ == text@.subrange(start as int, i as int),
        decreases stop - i,
    {
        crate::text::push_char(&mut r, s[i]);
        i = i + 1;
        assert(text@.subrange(start as int, i as int) =~= text@.subrange(
            start as int,
            (i - 1) as int,
        ).push(text@[i - 1]));
    }
    r
}

/// Locations of the first `n` rows that pass the filters and whose derived
/// text matches the query under `mode`, in row order.
pub open spec fn scan_hits(
    rows: Seq<AyahRow>,
    places: Seq<Option<String>>,
    derived: Seq<String>,
    filters: Seq<Filter>,
    q: Seq<char>,
    mode: MatchMode,
    n: int,
) -> Seq<(u16, u32)>
    decreases n,
{
    if n <= 0 {
        Seq::empty()
    } else {
        let prev = scan_hits(rows, places, derived, filters, q, mode, n - 1);
        let place = match places[n - 1] {
            Some(p) => Some(p@),
            None => None,
        };
        if admits_all(rows[n - 1], place, filters) && scan_spec(derived[n - 1]@, q, mode) is Some {
            prev.push((rows[n - 1].surah as u16, rows[n - 1].ayah as u32))
        } else {
            prev
        }
    }
}

/// Scan-mode candidates: the rows (with each one's revelation place and
/// derived text) that pass the filters and match the query, in canonical
/// order, each location once.
pub fn scan_candidates(
    rows: &[AyahRow],
    places: &[Option<String>],
    derived: &[String],
    filters: &[Filter],
    query: &str,
    mode: MatchMode,
) -> (r: Vec<(u16, u32)>)
    requires
        rows@.len() == places@.len(),
        rows@.len() == derived@.len(),
        forall|i: int| 0 <= i < derived@.len() ==> (#[trigger] derived@[i])@.len() < u32::MAX,
    ensures
        strictly_sorted(r@),
        r@.to_set() == scan_hits(
            rows@,
            places@,
            derived@,
            filters@,
            query@,
            mode,
            rows@.len() as int,
        ).to_set(),
{
    let mut hits: Vec<(u16, u32)> = Vec::new();
    let mut i: usize = 0;
    while i < rows.len()
        invariant
            i <= rows@.len(),
            rows@.len() == places@.len(),
            rows@.len() == derived@.len(),
            forall|k: int| 0 <= k < derived@.len() ==> (#[trigger] derived@[k])@.len() < u32::MAX,
            hits@ == scan_hits(rows@, places@, derived@, filters@, query@, mode, i as int),
        decreases rows.len() - i,
    {
        let place: Option<&str> = match &places[i] {
            Some(p) => Some(p.as_str()),
            None => None,
        };
        let admitted = passes_filters(&rows[i], place, filters);
        if admitted {
            let found = scan_offsets(derived[i].as_str(), query, mode);
            if found.is_some() {
                hits.push((rows[i].surah as u16, rows[i].ayah as u32));
            }
        }
        i = i + 1;
    }
    order_candidates(hits.as_slice())
}

} // verus!
