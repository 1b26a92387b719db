//! Result assembly order and paging: candidates in canonical order without
//! duplicates, the requested page, the truncation flag, and the recall
//! bounds of phrase and concatenated search.

use vstd::prelude::*;
use crate::search::PhraseMode;

verus! {

/// Canonical order of `(surah, ayah)` locations.
pub open spec fn loc_lt(a: (u16, u32), b: (u16, u32)) -> bool {
    a.0 < b.0 || (a.0 == b.0 && a.1 < b.1)
}

/// Strictly increasing in canonical order (so without duplicates).
pub open spec fn strictly_sorted(s: Seq<(u16, u32)>) -> bool {
    forall|i: int, j: int| 0 <= i < j < s.len() ==> loc_lt(#[trigger] s[i], #[trigger] s[j])
}

fn loc_less(a: (u16, u32), b: (u16, u32)) -> (r: bool)
    ensures
        r == loc_lt(a, b),
{
    a.0 < b.0 || (a.0 == b.0 && a.1 < b.1)
}

/// Candidates in canonical order, each location once.
pub fn order_candidates(candidates: &[(u16, u32)]) -> (r: Vec<(u16, u32)>)
    ensures
        strictly_sorted(r@),
        r@.to_set() == candidates@.to_set(),
{
    let mut r: Vec<(u16, u32)> = Vec::new();
    let mut i: usize = 0;
    while i < candidates.len()
        invariant
            i <= candidates.len(),
            strictly_sorted(r@),
            r@.to_set() == candidates@.take(i as int).to_set(),
        decreases candidates.len() - i,
    {
        let c = candidates[i];
        let mut p: usize = 0;
        while p < r.len() && loc_less(r[p], c)
            invariant
                p <= r.len(),
                forall|j: int| 0 <= j < p ==> loc_lt(#[trigger] r@[j], c),
            decreases r.len() - p,
        {
            p = p + 1;
        }
        let ghost before = r@;
        if p < r.len() && r[p].0 == c.0 && r[p].1 == c.1 {
            assert(r@.to_set().contains(c));
        } else {
            r.insert(p, c);
            proof {
                assert forall|a: int, b: int| 0 <= a < b < r@.len() implies loc_lt(
                    #[trigger] r@[a],
                    #[trigger] r@[b],
                ) by {
                    if b < p {
                        assert(r@[a] == before[a] && r@[b] == before[b]);
                    } else if b == p {
                        assert(r@[a] == before[a]);
                    } else if a < p {
                        assert(r@[a] == before[a] && r@[b] == before[b - 1]);
                    } else if a == p {
                        assert(r@[b] == before[b - 1]);
                        assert(!loc_lt(before[p as int], c));
                        assert(before[p as int] != c);
                        if b - 1 > p {
                            assert(loc_lt(before[p as int], before[b - 1]));
                        }
                    } else {
                        assert(r@[a] == before[a - 1] && r@[b] == before[b - 1]);
                    }
                }
                assert(r@.to_set() =~= before.to_set().insert(c)) by {
                    assert forall|x: (u16, u32)| r@.to_set().contains(x) implies before.to_set().insert(
                        c,
                    ).contains(x) by {
                        let k = choose|k: int| 0 <= k < r@.len() && #[trigger] r@[k] == x;
                        if k < p {
                            assert(before[k] == x);
                        } else if k > p {
                            assert(before[k - 1] == x);
                        }
                    }
                    assert forall|x: (u16, u32)| before.to_set().insert(c).contains(x) implies r@.to_set().contains(
                        x,
                    ) by {
                        if x == c {
                            assert(r@[p as int] == c);
                        } else {
                            let k = choose|k: int| 0 <= k < before.len() && #[trigger] before[k] == x;
                            if k < p {
                                assert(r@[k] == x);
                            } else {
                                assert(r@[k + 1] == x);
                            }
                        }
                    }
                }
            }
        }
        proof {
            assert(candidates@.take(i + 1) =~= candidates@.take(i as int).push(c));
            assert(candidates@.take(i + 1).to_set() =~= candidates@.take(i as int).to_set().insert(c)) by {
                assert forall|x: (u16, u32)| candidates@.take(i + 1).to_set().contains(x) implies candidates@.take(
                    i as int,
                ).to_set().insert(c).contains(x) by {
                    let k = choose|k: int| 0 <= k < i + 1 && #[trigger] candidates@.take(i + 1)[k] == x;
                    if k < i {
                        assert(candidates@.take(i as int)[k] == x);
                    }
                }
                assert forall|x: (u16, u32)| candidates@.take(i as int).to_set().insert(c).contains(x) implies candidates@.take(
                    i + 1,
                ).to_set().contains(x) by {
                    if x == c {
                        assert(candidates@.take(i + 1)[i as int] == c);
                    } else {
                        let k = choose|k: int| 0 <= k < i && #[trigger] candidates@.take(i as int)[k] == x;
                        assert(candidates@.take(i + 1)[k] == x);
                    }
                }
            }
            if p < before.len() && before[p as int] == c {
                assert(r@.to_set() =~= before.to_set().insert(c));
            }
        }
        i = i + 1;
    }
    assert(candidates@.take(candidates.len() as int) =~= candidates@);
    r
}

/// Page size actually served: at least one.
pub open spec fn page_size(limit: u32) -> int {
    if limit == 0 {
        1
    } else {
        limit as int
    }
}

/// Positions `offset .. offset + page_size(limit)` of `ordered` (clipped).
pub open spec fn page_of(ordered: Seq<(u16, u32)>, offset: u32, limit: u32) -> Seq<(u16, u32)> {
    let start = if offset as int <= ordered.len() {
        offset as int
    } else {
        ordered.len() as int
    };
    let end = if offset as int + page_size(limit) <= ordered.len() {
        offset as int + page_size(limit)
    } else {
        ordered.len() as int
    };
    ordered.subrange(start, end)
}

/// The candidates a page assembles, in canonical order: ordered without
/// duplicates, then positions `offset .. offset + max(limit, 1)`.
pub fn page_candidates(candidates: &[(u16, u32)], offset: u32, limit: u32) -> (r: Vec<(u16, u32)>)
    ensures
        exists|ordered: Seq<(u16, u32)>|
            strictly_sorted(ordered) && ordered.to_set() == candidates@.to_set() && r@ == page_of(
                ordered,
                offset,
                limit,
            ),
{
    let ordered = order_candidates(candidates);
    let size: u64 = if limit == 0 {
        1
    } else {
        limit as u64
    };
    let n = ordered.len();
    let mut r: Vec<(u16, u32)> = Vec::new();
    let start: usize = if (offset as u64) <= (n as u64) {
        offset as usize
    } else {
        n
    };
    let end: usize = if (offset as u64) + size <= (n as u64) {
        (offset as u64 + size) as usize
    } else {
        n
    };
    let mut i: usize = start;
    assert(start <= end);
    while i < end
        invariant
            start <= i <= end,
            end <= n == ordered@.len(),
            r@ == ordered@.subrange(start as int, i as int),
        decreases end - i,
    {
        r.push(ordered[i]);
        i = i + 1;
        assert(r@ =~= ordered@.subrange(start as int, i as int));
    }
    assert(r@ =~= page_of(ordered@, offset, limit));
    r
}

/// Whether `limit` cut the hit list: the page is full and more matches
/// exist than it holds.
pub fn is_truncated(hits: usize, limit: u32, total_matches: u64) -> (r: bool)
    ensures
        r == (hits as int >= page_size(limit) && total_matches as int > page_size(limit)),
{
    let size: u64 = if limit == 0 {
        1
    } else {
        limit as u64
    };
    (hits as u128) >= (size as u128) && total_matches > size
}

/// Recall prefilter bounds of a phrase query with `n_terms` terms: the
/// positional slop and whether order is enforced. Loose on purpose:
/// verification enforces the exact semantics.
pub fn phrase_recall(mode: PhraseMode, slop: u32, n_terms: u32) -> (r: (u32, bool))
    requires
        mode == PhraseMode::OrderedNear ==> slop < u32::MAX,
        mode == PhraseMode::UnorderedNear ==> slop + n_terms <= u32::MAX,
    ensures
        r == (match mode {
            PhraseMode::OrderedExact => (0u32, true),
            PhraseMode::OrderedNear => ((slop + 1) as u32, false),
            PhraseMode::UnorderedNear => ((slop + n_terms) as u32, false),
        }),
{
    match mode {
        PhraseMode::OrderedExact => (0, true),
        PhraseMode::OrderedNear => (slop + 1, false),
        PhraseMode::UnorderedNear => (slop + n_terms, false),
    }
}

/// Whether a recalled skeleton row covering ayahs `start..=end` takes part:
/// ayah rows always; window rows only when cross-ayah search is on and the
/// window spans at most `max_ayah_span` ayahs.
pub fn window_admitted(start: i64, end: i64, allow_cross_ayah: bool, max_ayah_span: u32) -> (r: bool)
    ensures
        r == (start == end || (allow_cross_ayah && end - start + 1 <= max_ayah_span)),
{
    if start == end {
        return true;
    }
    if !allow_cross_ayah {
        return false;
    }
    (end as i128) - (start as i128) + 1 <= (max_ayah_span as i128)
}

} // verus!
