//! Search matching: whitespace tokens of derived text, phrase verification
//! (ordered, near, unordered), metadata filters, result paging, document ids,
//! and the per-principal regex rate limiter.

use vstd::prelude::*;
use crate::text::{chars_of, is_ws, is_ws_char, str_eq};

verus! {

/// End (exclusive) of the run of non-whitespace characters starting at `i`.
pub open spec fn token_end(s: Seq<char>, i: int) -> int
    decreases s.len() - i,
{
    if i < 0 || i >= s.len() || is_ws(s[i]) {
        i
    } else {
        token_end(s, i + 1)
    }
}

/// The token run from `i` stops at the first whitespace (or the end).
pub proof fn lemma_token_end(s: Seq<char>, i: int)
    requires
        0 <= i <= s.len(),
    ensures
        i <= token_end(s, i) <= s.len(),
        forall|j: int| i <= j < token_end(s, i) ==> !is_ws(#[trigger] s[j]),
        token_end(s, i) == s.len() || is_ws(s[token_end(s, i)]),
    decreases s.len() - i,
{
    if i < s.len() && !is_ws(s[i]) {
        lemma_token_end(s, i + 1);
    }
}

/// Whitespace-separated tokens of `s` from position `i` on, as
/// `(start, end)` character ranges (`str::split_whitespace` with offsets).
pub open spec fn tokens_from(s: Seq<char>, i: int) -> Seq<(int, int)>
    decreases s.len() - i,
{
    if i < 0 || i >= s.len() {
        Seq::empty()
    } else if is_ws(s[i]) {
        tokens_from(s, i + 1)
    } else {
        let e = token_end(s, i + 1);
        proof {
            lemma_token_end(s, i + 1);
        }
        seq![(i, e)] + tokens_from(s, e)
    }
}

/// Whitespace-separated tokens of `s` as character ranges.
pub open spec fn word_ranges(s: Seq<char>) -> Seq<(int, int)> {
    tokens_from(s, 0)
}

/// `derived_tokens` result matches the token ranges of `text`.
pub open spec fn tokens_match<'a>(text: Seq<char>, out: Seq<(std::ops::Range<u32>, &'a str)>) -> bool {
    let w = word_ranges(text);
    &&& out.len() == w.len()
    &&& forall|k: int|
        0 <= k < out.len() ==> {
            &&& (#[trigger] out[k]).0.start == w[k].0
            &&& out[k].0.end == w[k].1
            &&& out[k].1@ == text.subrange(w[k].0, w[k].1)
        }
}

/// Token range `t` of `s` is a maximal run of non-whitespace characters
/// starting at `i` or after a whitespace.
pub open spec fn maximal_run(s: Seq<char>, t: (int, int), i: int) -> bool {
    &&& i <= t.0 < t.1 <= s.len()
    &&& forall|j: int| t.0 <= j < t.1 ==> !is_ws(#[trigger] s[j])
    &&& t.1 == s.len() || is_ws(s[t.1])
    &&& t.0 == i || is_ws(s[t.0 - 1])
}

/// Some token range of `out` covers character `j`.
pub open spec fn covered(out: Seq<(int, int)>, j: int) -> bool {
    exists|k: int| 0 <= k < out.len() && (#[trigger] out[k]).0 <= j < out[k].1
}

proof fn lemma_tokens_from(s: Seq<char>, i: int)
    requires
        0 <= i <= s.len(),
    ensures
        forall|k: int| 0 <= k < tokens_from(s, i).len() ==> maximal_run(s, #[trigger] tokens_from(s, i)[k], i),
        forall|k: int, l: int|
            0 <= k < l < tokens_from(s, i).len() ==> (#[trigger] tokens_from(s, i)[k]).1 < (
            #[trigger] tokens_from(s, i)[l]).0,
        forall|j: int| i <= j < s.len() && !is_ws(#[trigger] s[j]) ==> covered(tokens_from(s, i), j),
    decreases s.len() - i,
{
    let out = tokens_from(s, i);
    if i < s.len() {
        if is_ws(s[i]) {
            lemma_tokens_from(s, i + 1);
            assert forall|k: int| 0 <= k < out.len() implies maximal_run(s, #[trigger] out[k], i) by {
                assert(maximal_run(s, out[k], i + 1));
            }
        } else {
            let e = token_end(s, i + 1);
            lemma_token_end(s, i + 1);
            lemma_tokens_from(s, e);
            let rest = tokens_from(s, e);
            assert(out == seq![(i, e)] + rest);
            assert forall|k: int| 0 <= k < out.len() implies maximal_run(s, #[trigger] out[k], i) by {
                if k == 0 {
                    assert(out[0] == (i, e));
                    assert forall|j: int| i <= j < e implies !is_ws(#[trigger] s[j]) by {
                        if j > i {
                            assert(i + 1 <= j < token_end(s, i + 1));
                        }
                    }
                } else {
                    assert(out[k] == rest[k - 1]);
                    assert(maximal_run(s, rest[k - 1], e));
                    if rest[k - 1].0 == e {
                        assert(is_ws(s[e]));
                        assert(!is_ws(s[rest[k - 1].0]));
                    }
                }
            }
            assert forall|k: int, l: int| 0 <= k < l < out.len() implies (#[trigger] out[k]).1 < (#[trigger] out[l]).0 by {
                assert(out[l] == rest[l - 1]);
                assert(maximal_run(s, rest[l - 1], e));
                if k == 0 {
                    if rest[l - 1].0 == e {
                        assert(is_ws(s[e]));
                        assert(!is_ws(s[rest[l - 1].0]));
                    }
                } else {
                    assert(out[k] == rest[k - 1]);
                }
            }
            assert forall|j: int| i <= j < s.len() && !is_ws(#[trigger] s[j]) implies covered(out, j) by {
                if j < e {
                    assert(out[0].0 <= j < out[0].1);
                } else {
                    let k = choose|k: int| 0 <= k < rest.len() && (#[trigger] rest[k]).0 <= j < rest[k].1;
                    assert(out[k + 1] == rest[k]);
                }
            }
        }
    }
}

/// The whitespace tokens of a text are its maximal runs of
/// non-whitespace characters, in order: each range is such a run, the
/// ranges are separated and ascending, and every non-whitespace character
/// lies in one of them.
pub proof fn word_ranges_law(s: Seq<char>)
    ensures
        forall|k: int| 0 <= k < word_ranges(s).len() ==> maximal_run(s, #[trigger] word_ranges(s)[k], 0),
        forall|k: int, l: int|
            0 <= k < l < word_ranges(s).len() ==> (#[trigger] word_ranges(s)[k]).1 < (#[trigger] word_ranges(s)[l]).0,
        forall|j: int| 0 <= j < s.len() && !is_ws(#[trigger] s[j]) ==> covered(word_ranges(s), j),
{
    lemma_tokens_from(s, 0);
}

/// Derived-text tokens with character ranges (for slop/window verification).
pub fn derived_tokens<'a>(text: &'a str) -> (out: Vec<(std::ops::Range<u32>, &'a str)>)
    requires
        text@.len() <= u32::MAX,
    ensures
        tokens_match(text@, out@),
{
    let s = chars_of(text);
    let n = s.len();
    let mut out: Vec<(std::ops::Range<u32>, &'a str)> = Vec::new();
    let ghost mut done: Seq<(int, int)> = Seq::empty();
    let mut i: usize = 0;
    while i < n
        invariant
            s@ == text@,
            n == s.len(),
            n <= u32::MAX,
            i <= n,
            word_ranges(text@) == done + tokens_from(text@, i as int),
            out.len() == done.len(),
            forall|k: int|
                0 <= k < out.len() ==> {
                    &&& (#[trigger] out@[k]).0.start == done[k].0
                    &&& out@[k].0.end == done[k].1
                    &&& out@[k].1@ == text@.subrange(done[k].0, done[k].1)
                },
        decreases n - i,
    {
        if is_ws_char(s[i]) {
            i = i + 1;
        } else {
            let start = i;
            let mut e = i + 1;
            proof {
                lemma_token_end(text@, i + 1);
            }
            while e < n && !is_ws_char(s[e])
                invariant
                    s@ == text@,
                    n == s.len(),
                    start < e <= n,
                    token_end(text@, start + 1) == token_end(text@, e as int),
                decreases n - e,
            {
                e = e + 1;
            }
            let piece = text.substring_char(start, e);
            proof {
                done = done.push((start as int, e as int));
                assert(tokens_from(text@, start as int) == seq![(start as int, e as int)]
                    + tokens_from(text@, e as int));
            }
            out.push((std::ops::Range { start: start as u32, end: e as u32 }, piece));
            i = e;
        }
    }
    assert(tokens_from(text@, i as int) == Seq::<(int, int)>::empty());
    assert(done + Seq::<(int, int)>::empty() =~= done);
    out
}

/// Phrase match mode.
#[derive(Debug, Clone, Copy, PartialEq, Eq)]
pub enum PhraseMode {
    /// Ordered tokens, no gaps.
    OrderedExact,
    /// Ordered tokens with up to `slop` intervening tokens between neighbors.
    OrderedNear,
    /// All terms within a `terms + slop` token window, any order.
    UnorderedNear,
}

/// Token `c` reads `term`.
pub open spec fn tok_is<'a>(tokens: Seq<(std::ops::Range<u32>, &'a str)>, c: int, term: Seq<char>) -> bool {
    tokens[c].1@ == term
}

/// Neighbouring placed positions `ps[i]` and `ps[i + 1]` come in order with
/// at most `slop` tokens between them.
pub open spec fn gap_ok(ps: Seq<int>, i: int, slop: int) -> bool {
    ps[i] < ps[i + 1] && ps[i + 1] - ps[i] - 1 <= slop
}

/// `ps` places the first `ps.len()` terms in order: `ps[i]` is a token
/// reading `terms[i]`, and neighbours are at most `slop` tokens apart.
pub open spec fn placed<'a>(
    tokens: Seq<(std::ops::Range<u32>, &'a str)>,
    terms: Seq<String>,
    slop: int,
    ps: Seq<int>,
) -> bool {
    &&& ps.len() <= terms.len()
    &&& forall|i: int|
        0 <= i < ps.len() ==> 0 <= #[trigger] ps[i] < tokens.len() && tok_is(tokens, ps[i], terms[i]@)
    &&& forall|i: int| 0 <= i < ps.len() - 1 ==> #[trigger] gap_ok(ps, i, slop)
}

/// `ps` places every term in order within the gap budget.
pub open spec fn ordered_placement<'a>(
    tokens: Seq<(std::ops::Range<u32>, &'a str)>,
    terms: Seq<String>,
    slop: int,
    ps: Seq<int>,
) -> bool {
    placed(tokens, terms, slop, ps) && ps.len() == terms.len()
}

/// The placement an ordered match reports: the leftmost first token, and
/// among placements from it the earliest last token.
pub open spec fn best_placement<'a>(
    tokens: Seq<(std::ops::Range<u32>, &'a str)>,
    terms: Seq<String>,
    slop: int,
    ps: Seq<int>,
) -> bool {
    &&& ordered_placement(tokens, terms, slop, ps)
    &&& forall|qs: Seq<int>|
        #[trigger] ordered_placement(tokens, terms, slop, qs) ==> ps[0] < qs[0] || (ps[0] == qs[0]
            && ps.last() <= qs.last())
}

/// Result of an ordered phrase match: the character range from the first to
/// the last token of the best placement, or `None` when no placement exists.
pub open spec fn ordered_result<'a>(
    tokens: Seq<(std::ops::Range<u32>, &'a str)>,
    terms: Seq<String>,
    slop: int,
    r: Option<(u32, u32)>,
) -> bool {
    match r {
        Some((a, b)) => exists|ps: Seq<int>|
            #[trigger] best_placement(tokens, terms, slop, ps) && a == tokens[ps[0]].0.start && b
                == tokens[ps.last()].0.end,
        None => forall|ps: Seq<int>| !#[trigger] ordered_placement(tokens, terms, slop, ps),
    }
}

/// Some placement of `terms[..=t]` starts at token `st` and puts term `t`
/// at token `p`.
spec fn ends_at<'a>(
    tokens: Seq<(std::ops::Range<u32>, &'a str)>,
    terms: Seq<String>,
    slop: int,
    st: int,
    t: int,
    p: int,
) -> bool {
    exists|ps: Seq<int>|
        #[trigger] placed(tokens, terms, slop, ps) && ps.len() == t + 1 && ps[0] == st && ps[t] == p
}

/// A placement followed by one more token within the gap budget.
proof fn lemma_placed_push(
    tokens: Seq<(std::ops::Range<u32>, &str)>,
    terms: Seq<String>,
    slop: int,
    ps: Seq<int>,
    p: int,
)
    requires
        placed(tokens, terms, slop, ps),
        1 <= ps.len() < terms.len(),
        0 <= p < tokens.len(),
        tok_is(tokens, p, terms[ps.len() as int]@),
        ps.last() < p,
        p - ps.last() - 1 <= slop,
    ensures
        placed(tokens, terms, slop, ps.push(p)),
{
    let qs = ps.push(p);
    assert forall|i: int| 0 <= i < qs.len() - 1 implies #[trigger] gap_ok(qs, i, slop) by {
        if i < ps.len() - 1 {
            assert(gap_ok(ps, i, slop));
        }
    }
    assert forall|i: int| 0 <= i < qs.len() implies 0 <= #[trigger] qs[i] < tokens.len() && tok_is(
        tokens,
        qs[i],
        terms[i]@,
    ) by {
        if i < ps.len() {
            assert(ps[i] == qs[i]);
        }
    }
}

/// Dropping the last position of a placement leaves a placement.
proof fn lemma_placed_prefix(
    tokens: Seq<(std::ops::Range<u32>, &str)>,
    terms: Seq<String>,
    slop: int,
    ps: Seq<int>,
)
    requires
        placed(tokens, terms, slop, ps),
        ps.len() >= 2,
    ensures
        placed(tokens, terms, slop, ps.drop_last()),
        gap_ok(ps, ps.len() - 2, slop),
{
    let qs = ps.drop_last();
    assert forall|i: int| 0 <= i < qs.len() - 1 implies #[trigger] gap_ok(qs, i, slop) by {
        assert(gap_ok(ps, i, slop));
    }
    assert forall|i: int| 0 <= i < qs.len() implies 0 <= #[trigger] qs[i] < tokens.len() && tok_is(
        tokens,
        qs[i],
        terms[i]@,
    ) by {
        assert(ps[i] == qs[i]);
    }
    assert(gap_ok(ps, ps.len() - 2, slop));
}

/// Whether some `reach[j]` with `lo <= j < hi` is set.
fn any_set(reach: &Vec<bool>, lo: usize, hi: usize) -> (r: bool)
    requires
        lo <= hi <= reach.len(),
    ensures
        r <==> exists|j: int| lo <= j < hi && #[trigger] reach@[j],
{
    let mut q: usize = lo;
    while q < hi
        invariant
            lo <= q <= hi <= reach.len(),
            forall|j: int| lo <= j < q ==> !#[trigger] reach@[j],
        decreases hi - q,
    {
        if reach[q] {
            return true;
        }
        q = q + 1;
    }
    false
}

/// For the start `st`, the tokens at which some placement of every term
/// from `st` ends.
fn placement_ends(tokens: &[(std::ops::Range<u32>, &str)], terms: &[String], st: usize, slop: u32) -> (reach: Vec<bool>)
    requires
        st < tokens.len(),
        terms.len() >= 1,
    ensures
        reach.len() == tokens.len(),
        forall|p: int|
            0 <= p < tokens.len() ==> (#[trigger] reach@[p] <==> ends_at(
                tokens@,
                terms@,
                slop as int,
                st as int,
                terms.len() - 1,
                p,
            )),
{
    let n = tokens.len();
    let first = str_eq(tokens[st].1, terms[0].as_str());
    let mut cur: Vec<bool> = Vec::new();
    let mut p: usize = 0;
    while p < n
        invariant
            n == tokens.len(),
            st < n,
            terms.len() >= 1,
            first == (tokens@[st as int].1@ == terms@[0]@),
            p <= n,
            cur.len() == p,
            forall|j: int|
                0 <= j < p ==> (#[trigger] cur@[j] <==> ends_at(
                    tokens@,
                    terms@,
                    slop as int,
                    st as int,
                    0,
                    j,
                )),
        decreases n - p,
    {
        let here = first && p == st;
        proof {
            let w = seq![st as int];
            if here {
                assert(w[0] == st as int);
                assert(placed(tokens@, terms@, slop as int, w));
            }
            if ends_at(tokens@, terms@, slop as int, st as int, 0, p as int) {
                let ps = choose|ps: Seq<int>|
                    #[trigger] placed(tokens@, terms@, slop as int, ps) && ps.len() == 1 && ps[0]
                        == st as int && ps[0] == p as int;
                assert(tok_is(tokens@, ps[0], terms@[0]@));
            }
        }
        cur.push(here);
        p = p + 1;
    }
    let slop_us = slop as usize;
    let mut t: usize = 1;
    while t < terms.len()
        invariant
            n == tokens.len(),
            st < n,
            1 <= t <= terms.len(),
            slop_us == slop as int,
            cur.len() == n,
            forall|j: int|
                0 <= j < n ==> (#[trigger] cur@[j] <==> ends_at(
                    tokens@,
                    terms@,
                    slop as int,
                    st as int,
                    t - 1,
                    j,
                )),
        decreases terms.len() - t,
    {
        let mut next: Vec<bool> = Vec::new();
        let mut p: usize = 0;
        while p < n
            invariant
                n == tokens.len(),
                st < n,
                1 <= t < terms.len(),
                slop_us == slop as int,
                cur.len() == n,
                forall|j: int|
                    0 <= j < n ==> (#[trigger] cur@[j] <==> ends_at(
                        tokens@,
                        terms@,
                        slop as int,
                        st as int,
                        t - 1,
                        j,
                    )),
                p <= n,
                next.len() == p,
                forall|j: int|
                    0 <= j < p ==> (#[trigger] next@[j] <==> ends_at(
                        tokens@,
                        terms@,
                        slop as int,
                        st as int,
                        t as int,
                        j,
                    )),
            decreases n - p,
        {
            let lo: usize = if p > slop_us {
                p - slop_us - 1
            } else {
                0
            };
            let here = str_eq(tokens[p].1, terms[t].as_str()) && any_set(&cur, lo, p);
            proof {
                let tt = t as int;
                let pp = p as int;
                if here {
                    let q = choose|q: int| lo <= q < p && #[trigger] cur@[q];
                    let ps = choose|ps: Seq<int>|
                        #[trigger] placed(tokens@, terms@, slop as int, ps) && ps.len() == tt && ps[0]
                            == st as int && ps[tt - 1] == q;
                    lemma_placed_push(tokens@, terms@, slop as int, ps, pp);
                    let w = ps.push(pp);
                    assert(w[0] == st as int && w[tt] == pp);
                }
                if ends_at(tokens@, terms@, slop as int, st as int, tt, pp) {
                    let ps = choose|ps: Seq<int>|
                        #[trigger] placed(tokens@, terms@, slop as int, ps) && ps.len() == tt + 1
                            && ps[0] == st as int && ps[tt] == pp;
                    lemma_placed_prefix(tokens@, terms@, slop as int, ps);
                    let w = ps.drop_last();
                    let q = ps[tt - 1];
                    assert(w[0] == st as int && w[tt - 1] == q);
                    assert(ends_at(tokens@, terms@, slop as int, st as int, tt - 1, q));
                    assert(0 <= q < n);
                    assert(cur@[q]);
                    assert(tok_is(tokens@, ps[tt], terms@[tt]@));
                    assert(lo <= q < p);
                }
            }
            next.push(here);
            p = p + 1;
        }
        cur = next;
        t = t + 1;
    }
    cur
}

/// Ordered match with a per-gap budget (`slop` intervening tokens at most
/// between neighbours): every placement of the terms is considered; the
/// match reported runs from the leftmost possible first token to the
/// earliest last token reachable from it.
pub fn find_ordered(tokens: &[(std::ops::Range<u32>, &str)], terms: &[String], slop: u32) -> (r: Option<(u32, u32)>)
    requires
        terms.len() >= 1,
    ensures
        ordered_result(tokens@, terms@, slop as int, r),
{
    let n = tokens.len();
    let k = terms.len();
    let mut st: usize = 0;
    while st < n
        invariant
            n == tokens.len(),
            k == terms.len(),
            k >= 1,
            st <= n,
            forall|ps: Seq<int>|
                #[trigger] ordered_placement(tokens@, terms@, slop as int, ps) ==> ps[0] >= st,
        decreases n - st,
    {
        let reach = placement_ends(tokens, terms, st, slop);
        let mut p: usize = 0;
        while p < n && !reach[p]
            invariant
                n == tokens.len(),
                reach.len() == n,
                p <= n,
                forall|j: int| 0 <= j < p ==> !#[trigger] reach@[j],
            decreases n - p,
        {
            p = p + 1;
        }
        if p < n {
            proof {
                let last = (k - 1) as int;
                assert(reach@[p as int]);
                let ps = choose|ps: Seq<int>|
                    #[trigger] placed(tokens@, terms@, slop as int, ps) && ps.len() == last + 1
                        && ps[0] == st as int && ps[last] == p as int;
                assert(ordered_placement(tokens@, terms@, slop as int, ps));
                assert forall|qs: Seq<int>|
                    #[trigger] ordered_placement(tokens@, terms@, slop as int, qs) implies ps[0]
                    < qs[0] || (ps[0] == qs[0] && ps.last() <= qs.last()) by {
                    if qs[0] == st as int {
                        assert(0 <= qs[last] < n);
                        assert(ends_at(tokens@, terms@, slop as int, st as int, last, qs[last]));
                        assert(reach@[qs[last]]);
                    }
                }
                assert(best_placement(tokens@, terms@, slop as int, ps));
            }
            return Some((tokens[st].0.start, tokens[p].0.end));
        }
        proof {
            assert forall|ps: Seq<int>|
                #[trigger] ordered_placement(tokens@, terms@, slop as int, ps) implies ps[0] >= st
                + 1 by {
                if ps[0] == st as int {
                    let last = (k - 1) as int;
                    assert(0 <= ps[last] < n);
                    assert(ends_at(tokens@, terms@, slop as int, st as int, last, ps[last]));
                    assert(reach@[ps[last]]);
                }
            }
        }
        st = st + 1;
    }
    proof {
        assert forall|ps: Seq<int>| !#[trigger] ordered_placement(tokens@, terms@, slop as int, ps) by {
            if ordered_placement(tokens@, terms@, slop as int, ps) {
                assert(0 <= ps[0] < n);
            }
        }
    }
    None
}

/// First unused index `i` (from `i` on) of the window `tokens[st..end]`
/// holding `term`.
pub open spec fn first_free<'a>(
    tokens: Seq<(std::ops::Range<u32>, &'a str)>,
    st: int,
    end: int,
    used: Seq<bool>,
    term: Seq<char>,
    i: int,
) -> Option<int>
    decreases end - st - i,
{
    if i < 0 || i >= end - st {
        None
    } else if !used[i] && tok_is(tokens, st + i, term) {
        Some(i)
    } else {
        first_free(tokens, st, end, used, term, i + 1)
    }
}

/// Greedy distinct assignment of `terms[t..]` inside the window
/// `tokens[st..end]`; the lowest and highest window index used.
pub open spec fn assign<'a>(
    tokens: Seq<(std::ops::Range<u32>, &'a str)>,
    st: int,
    end: int,
    terms: Seq<String>,
    t: int,
    used: Seq<bool>,
    first: int,
    last: int,
) -> Option<(int, int)>
    decreases terms.len() - t,
{
    if t < 0 || t >= terms.len() {
        Some((first, last))
    } else {
        match first_free(tokens, st, end, used, terms[t]@, 0) {
            Some(i) => assign(
                tokens,
                st,
                end,
                terms,
                t + 1,
                used.update(i, true),
                if i < first {
                    i
                } else {
                    first
                },
                if i > last {
                    i
                } else {
                    last
                },
            ),
            None => None,
        }
    }
}

/// End of the window starting at `st`: `min(st + terms + slop, len)`.
pub open spec fn window_end(len: int, st: int, width: int) -> int {
    if st + width < len {
        st + width
    } else {
        len
    }
}

/// Unordered match trying window starts from `st` to `len - terms`.
pub open spec fn unordered_from<'a>(
    tokens: Seq<(std::ops::Range<u32>, &'a str)>,
    terms: Seq<String>,
    slop: int,
    st: int,
) -> Option<(u32, u32)>
    decreases tokens.len() - st,
{
    if st < 0 || st > tokens.len() - terms.len() {
        None
    } else {
        let end = window_end(tokens.len() as int, st, terms.len() + slop);
        let w = end - st;
        match assign(tokens, st, end, terms, 0, Seq::new(w as nat, |i: int| false), w, 0) {
            Some((f, l)) => Some((tokens[st + f].0.start, tokens[st + l].0.end)),
            None => unordered_from(tokens, terms, slop, st + 1),
        }
    }
}

/// The unordered phrase match: every term (with multiplicity) inside a
/// `terms + slop` token window.
pub open spec fn unordered_spec<'a>(
    tokens: Seq<(std::ops::Range<u32>, &'a str)>,
    terms: Seq<String>,
    slop: int,
) -> Option<(u32, u32)> {
    if tokens.len() < terms.len() {
        None
    } else {
        unordered_from(tokens, terms, slop, 0)
    }
}

proof fn lemma_first_free(
    tokens: Seq<(std::ops::Range<u32>, &str)>,
    st: int,
    end: int,
    used: Seq<bool>,
    term: Seq<char>,
    i: int,
)
    requires
        0 <= i,
    ensures
        first_free(tokens, st, end, used, term, i) matches Some(x) ==> i <= x < end - st,
    decreases end - st - i,
{
    if i < end - st && !(!used[i] && tok_is(tokens, st + i, term)) {
        lemma_first_free(tokens, st, end, used, term, i + 1);
    }
}

proof fn lemma_assign(
    tokens: Seq<(std::ops::Range<u32>, &str)>,
    st: int,
    end: int,
    terms: Seq<String>,
    t: int,
    used: Seq<bool>,
    first: int,
    last: int,
)
    requires
        0 <= t,
        0 <= last < end - st || (t == 0 && last == 0),
        0 <= first <= end - st,
        t > 0 ==> first < end - st,
        terms.len() >= 1,
    ensures
        assign(tokens, st, end, terms, t, used, first, last) matches Some((f, l)) ==> 0 <= f < end
            - st && 0 <= l < end - st,
    decreases terms.len() - t,
{
    if t < terms.len() {
        lemma_first_free(tokens, st, end, used, terms[t]@, 0);
        match first_free(tokens, st, end, used, terms[t]@, 0) {
            Some(i) => {
                lemma_assign(
                    tokens,
                    st,
                    end,
                    terms,
                    t + 1,
                    used.update(i, true),
                    if i < first {
                        i
                    } else {
                        first
                    },
                    if i > last {
                        i
                    } else {
                        last
                    },
                );
            },
            None => {},
        }
    }
}


/// Tokens among the first `n` of the window from `st` that read `x`.
pub open spec fn window_count<'a>(tokens: Seq<(std::ops::Range<u32>, &'a str)>, st: int, x: Seq<char>, n: int) -> nat
    decreases n,
{
    if n <= 0 {
        0
    } else {
        window_count(tokens, st, x, n - 1) + if tok_is(tokens, st + n - 1, x) {
            1nat
        } else {
            0nat
        }
    }
}

/// Terms among the first `n` that read `x`.
pub open spec fn term_count(terms: Seq<String>, x: Seq<char>, n: int) -> nat
    decreases n,
{
    if n <= 0 {
        0
    } else {
        term_count(terms, x, n - 1) + if terms[n - 1]@ == x {
            1nat
        } else {
            0nat
        }
    }
}

/// The window `tokens[st..end]` holds every term, with multiplicity.
pub open spec fn window_holds<'a>(tokens: Seq<(std::ops::Range<u32>, &'a str)>, terms: Seq<String>, st: int, end: int) -> bool {
    forall|x: Seq<char>| #[trigger] term_count(terms, x, terms.len() as int) <= window_count(tokens, st, x, end - st)
}

/// Window positions among the first `n` whose flag is `flag` and that read `x`.
spec fn flagged_count<'a>(
    tokens: Seq<(std::ops::Range<u32>, &'a str)>,
    st: int,
    used: Seq<bool>,
    flag: bool,
    x: Seq<char>,
    n: int,
) -> nat
    decreases n,
{
    if n <= 0 {
        0
    } else {
        flagged_count(tokens, st, used, flag, x, n - 1) + if used[n - 1] == flag && tok_is(tokens, st + n - 1, x) {
            1nat
        } else {
            0nat
        }
    }
}

proof fn lemma_flagged_split(tokens: Seq<(std::ops::Range<u32>, &str)>, st: int, used: Seq<bool>, x: Seq<char>, n: int)
    ensures
        n >= 0 ==> flagged_count(tokens, st, used, true, x, n) + flagged_count(tokens, st, used, false, x, n)
            == window_count(tokens, st, x, n),
        n >= 0 ==> (flagged_count(tokens, st, used, false, x, n) > 0 <==> exists|i: int|
            0 <= i < n && !used[i] && #[trigger] tok_is(tokens, st + i, x)),
    decreases n,
{
    if n > 0 {
        lemma_flagged_split(tokens, st, used, x, n - 1);
        if flagged_count(tokens, st, used, false, x, n - 1) > 0 {
            let i = choose|i: int| 0 <= i < n - 1 && !used[i] && #[trigger] tok_is(tokens, st + i, x);
            assert(0 <= i < n && !used[i] && tok_is(tokens, st + i, x));
        }
        if !used[n - 1] && tok_is(tokens, st + n - 1, x) {
            assert(tok_is(tokens, st + (n - 1), x));
        }
    }
}

proof fn lemma_flagged_update(
    tokens: Seq<(std::ops::Range<u32>, &str)>,
    st: int,
    used: Seq<bool>,
    i: int,
    x: Seq<char>,
    n: int,
)
    requires
        0 <= i < used.len(),
        !used[i],
        n <= used.len(),
    ensures
        n >= 0 ==> flagged_count(tokens, st, used.update(i, true), true, x, n) == flagged_count(
            tokens,
            st,
            used,
            true,
            x,
            n,
        ) + if i < n && tok_is(tokens, st + i, x) {
            1nat
        } else {
            0nat
        },
    decreases n,
{
    if n > 0 {
        lemma_flagged_update(tokens, st, used, i, x, n - 1);
    }
}

proof fn lemma_term_count_grows(terms: Seq<String>, x: Seq<char>, m: int, n: int)
    requires
        0 <= m <= n,
    ensures
        term_count(terms, x, m) <= term_count(terms, x, n),
    decreases n - m,
{
    if m < n {
        lemma_term_count_grows(terms, x, m, n - 1);
    }
}

proof fn lemma_first_free_finds(
    tokens: Seq<(std::ops::Range<u32>, &str)>,
    st: int,
    end: int,
    used: Seq<bool>,
    term: Seq<char>,
    i: int,
)
    requires
        0 <= i,
        used.len() == end - st,
    ensures
        first_free(tokens, st, end, used, term, i) matches Some(k) ==> i <= k < end - st && !used[k]
            && tok_is(tokens, st + k, term),
        first_free(tokens, st, end, used, term, i) is None ==> forall|k: int|
            i <= k < end - st ==> !(!used[k] && #[trigger] tok_is(tokens, st + k, term)),
    decreases end - st - i,
{
    if i < end - st && !(!used[i] && tok_is(tokens, st + i, term)) {
        lemma_first_free_finds(tokens, st, end, used, term, i + 1);
    }
}

proof fn lemma_assign_holds(
    tokens: Seq<(std::ops::Range<u32>, &str)>,
    st: int,
    end: int,
    terms: Seq<String>,
    t: int,
    used: Seq<bool>,
    first: int,
    last: int,
)
    requires
        0 <= t <= terms.len(),
        used.len() == end - st,
        st <= end,
        forall|x: Seq<char>| #[trigger] flagged_count(tokens, st, used, true, x, end - st) == term_count(terms, x, t),
    ensures
        assign(tokens, st, end, terms, t, used, first, last) is Some <==> window_holds(tokens, terms, st, end),
    decreases terms.len() - t,
{
    let w = end - st;
    if t == terms.len() {
        assert forall|x: Seq<char>| #[trigger] term_count(terms, x, terms.len() as int) <= window_count(tokens, st, x, w) by {
            lemma_flagged_split(tokens, st, used, x, w);
            assert(flagged_count(tokens, st, used, true, x, w) == term_count(terms, x, t));
        }
    } else {
        let x0 = terms[t]@;
        lemma_first_free_finds(tokens, st, end, used, x0, 0);
        lemma_flagged_split(tokens, st, used, x0, w);
        assert(flagged_count(tokens, st, used, true, x0, w) == term_count(terms, x0, t));
        match first_free(tokens, st, end, used, x0, 0) {
            Some(i) => {
                let used2 = used.update(i, true);
                assert forall|x: Seq<char>| #[trigger] flagged_count(tokens, st, used2, true, x, w) == term_count(
                    terms,
                    x,
                    t + 1,
                ) by {
                    lemma_flagged_update(tokens, st, used, i, x, w);
                    assert(flagged_count(tokens, st, used, true, x, w) == term_count(terms, x, t));
                }
                lemma_assign_holds(
                    tokens,
                    st,
                    end,
                    terms,
                    t + 1,
                    used2,
                    if i < first {
                        i
                    } else {
                        first
                    },
                    if i > last {
                        i
                    } else {
                        last
                    },
                );
            },
            None => {
                assert(flagged_count(tokens, st, used, false, x0, w) == 0) by {
                    if flagged_count(tokens, st, used, false, x0, w) > 0 {
                        let k = choose|k: int| 0 <= k < w && !used[k] && #[trigger] tok_is(tokens, st + k, x0);
                        assert(!(!used[k] && tok_is(tokens, st + k, x0)));
                    }
                }
                lemma_term_count_grows(terms, x0, t + 1, terms.len() as int);
                assert(term_count(terms, x0, t + 1) == term_count(terms, x0, t) + 1);
                assert(term_count(terms, x0, terms.len() as int) > window_count(tokens, st, x0, w));
            },
        }
    }
}

/// Within one window the unordered match succeeds exactly when the window
/// holds every term with its multiplicity: the greedy assignment misses no
/// match.
pub proof fn unordered_window_law<'a>(
    tokens: Seq<(std::ops::Range<u32>, &'a str)>,
    terms: Seq<String>,
    st: int,
    end: int,
)
    requires
        0 <= st <= end <= tokens.len(),
    ensures
        assign(tokens, st, end, terms, 0, Seq::new((end - st) as nat, |i: int| false), end - st, 0) is Some
            <==> window_holds(tokens, terms, st, end),
{
    let used = Seq::new((end - st) as nat, |i: int| false);
    assert forall|x: Seq<char>| #[trigger] flagged_count(tokens, st, used, true, x, end - st) == term_count(terms, x, 0) by {
        lemma_flagged_none(tokens, st, used, x, end - st);
    }
    lemma_assign_holds(tokens, st, end, terms, 0, used, end - st, 0);
}

proof fn lemma_flagged_none(tokens: Seq<(std::ops::Range<u32>, &str)>, st: int, used: Seq<bool>, x: Seq<char>, n: int)
    requires
        n <= used.len(),
        forall|i: int| 0 <= i < used.len() ==> !used[i],
    ensures
        flagged_count(tokens, st, used, true, x, n) == 0,
    decreases n,
{
    if n > 0 {
        lemma_flagged_none(tokens, st, used, x, n - 1);
    }
}

/// The unordered phrase match succeeds exactly when some window of
/// `terms + slop` tokens holds every term with its multiplicity, and it
/// reports the first such window.
pub proof fn unordered_match_law<'a>(tokens: Seq<(std::ops::Range<u32>, &'a str)>, terms: Seq<String>, slop: int)
    requires
        terms.len() >= 1,
        slop >= 0,
    ensures
        unordered_spec(tokens, terms, slop) is Some <==> exists|s: int|
            0 <= s <= tokens.len() - terms.len() && #[trigger] window_holds(
                tokens,
                terms,
                s,
                window_end(tokens.len() as int, s, terms.len() + slop),
            ),
{
    if tokens.len() >= terms.len() {
        lemma_unordered_from(tokens, terms, slop, 0);
    }
}

proof fn lemma_unordered_from<'a>(tokens: Seq<(std::ops::Range<u32>, &'a str)>, terms: Seq<String>, slop: int, st: int)
    requires
        terms.len() >= 1,
        slop >= 0,
        0 <= st,
    ensures
        unordered_from(tokens, terms, slop, st) is Some <==> exists|s: int|
            st <= s <= tokens.len() - terms.len() && #[trigger] window_holds(
                tokens,
                terms,
                s,
                window_end(tokens.len() as int, s, terms.len() + slop),
            ),
    decreases tokens.len() - st,
{
    if st <= tokens.len() - terms.len() {
        let end = window_end(tokens.len() as int, st, terms.len() + slop);
        unordered_window_law(tokens, terms, st, end);
        lemma_unordered_from(tokens, terms, slop, st + 1);
        if window_holds(tokens, terms, st, end) {
            assert(window_holds(tokens, terms, st, window_end(tokens.len() as int, st, terms.len() + slop)));
        }
        if exists|s: int|
            st <= s <= tokens.len() - terms.len() && #[trigger] window_holds(
                tokens,
                terms,
                s,
                window_end(tokens.len() as int, s, terms.len() + slop),
            ) {
            let s = choose|s: int|
                st <= s <= tokens.len() - terms.len() && #[trigger] window_holds(
                    tokens,
                    terms,
                    s,
                    window_end(tokens.len() as int, s, terms.len() + slop),
                );
            if s > st {
                assert(st + 1 <= s);
            }
        }
    }
}

/// First unused window index holding `term`.
fn first_free_exec(
    tokens: &[(std::ops::Range<u32>, &str)],
    st: usize,
    end: usize,
    used: &Vec<bool>,
    term: &str,
) -> (r: Option<usize>)
    requires
        st <= end <= tokens.len(),
        used.len() == end - st,
    ensures
        r is None <==> first_free(tokens@, st as int, end as int, used@, term@, 0) is None,
        r matches Some(i) ==> first_free(tokens@, st as int, end as int, used@, term@, 0) == Some(
            i as int,
        ) && i < end - st,
{
    proof {
        lemma_first_free(tokens@, st as int, end as int, used@, term@, 0);
    }
    let w = end - st;
    let mut i: usize = 0;
    while i < w
        invariant
            st <= end <= tokens.len(),
            w == end - st,
            used.len() == w,
            i <= w,
            first_free(tokens@, st as int, end as int, used@, term@, 0) == first_free(
                tokens@,
                st as int,
                end as int,
                used@,
                term@,
                i as int,
            ),
        decreases w - i,
    {
        if !used[i] && str_eq(tokens[st + i].1, term) {
            return Some(i);
        }
        i = i + 1;
    }
    None
}

/// Greedy assignment of all terms inside the window `tokens[st..end]`.
fn assign_exec(tokens: &[(std::ops::Range<u32>, &str)], st: usize, end: usize, terms: &[String]) -> (r:
    Option<(usize, usize)>)
    requires
        st <= end <= tokens.len(),
        terms.len() >= 1,
    ensures
        r is None <==> assign(
            tokens@,
            st as int,
            end as int,
            terms@,
            0,
            Seq::new((end - st) as nat, |i: int| false),
            end - st,
            0,
        ) is None,
        r matches Some((f, l)) ==> assign(
            tokens@,
            st as int,
            end as int,
            terms@,
            0,
            Seq::new((end - st) as nat, |i: int| false),
            end - st,
            0,
        ) == Some((f as int, l as int)) && f < end - st && l < end - st,
{
    let w = end - st;
    let mut used: Vec<bool> = Vec::new();
    let mut k: usize = 0;
    while k < w
        invariant
            k <= w,
            used@ == Seq::new(k as nat, |i: int| false),
        decreases w - k,
    {
        used.push(false);
        k = k + 1;
        assert(used@ =~= Seq::new(k as nat, |i: int| false));
    }
    let ghost init = used@;
    assert(init =~= Seq::new((end - st) as nat, |i: int| false));
    proof {
        lemma_assign(tokens@, st as int, end as int, terms@, 0, init, w as int, 0);
    }
    let mut first: usize = w;
    let mut last: usize = 0;
    let mut t: usize = 0;
    while t < terms.len()
        invariant
            st <= end <= tokens.len(),
            w == end - st,
            used.len() == w,
            t <= terms.len(),
            terms.len() >= 1,
            first <= w,
            t > 0 ==> first < w && last < w,
            t == 0 ==> first == w && last == 0,
            init == Seq::new((end - st) as nat, |i: int| false),
            assign(tokens@, st as int, end as int, terms@, 0, init, w as int, 0) == assign(
                tokens@,
                st as int,
                end as int,
                terms@,
                t as int,
                used@,
                first as int,
                last as int,
            ),
        decreases terms.len() - t,
    {
        match first_free_exec(tokens, st, end, &used, terms[t].as_str()) {
            Some(i) => {
                used.set(i, true);
                if i < first {
                    first = i;
                }
                if i > last {
                    last = i;
                }
            },
            None => {
                assert(terms@[t as int]@ == terms[t as int]@);
                assert(assign(tokens@, st as int, end as int, terms@, t as int, used@, first as int, last as int) is None);
                return None;
            },
        }
        t = t + 1;
    }
    Some((first, last))
}

/// Unordered match: the first `terms + slop` token window that holds every
/// term with its multiplicity (`unordered_match_law`); the span runs from
/// the first to the last token the assignment uses.
pub fn find_unordered(tokens: &[(std::ops::Range<u32>, &str)], terms: &[String], slop: u32) -> (r: Option<(u32, u32)>)
    requires
        terms.len() >= 1,
    ensures
        r == unordered_spec(tokens@, terms@, slop as int),
{
    let n = tokens.len();
    let m = terms.len();
    if n < m {
        return None;
    }
    let mut st: usize = 0;
    while st <= n - m
        invariant
            n == tokens.len(),
            m == terms.len(),
            m >= 1,
            m <= n,
            st <= n - m + 1,
            unordered_spec(tokens@, terms@, slop as int) == unordered_from(
                tokens@,
                terms@,
                slop as int,
                st as int,
            ),
        decreases n - m + 1 - st,
    {
        let width: u128 = (m as u128) + (slop as u128);
        let end: usize = if (st as u128) + width < (n as u128) {
            st + m + slop as usize
        } else {
            n
        };
        assert(end == window_end(n as int, st as int, m + slop));
        match assign_exec(tokens, st, end, terms) {
            Some((f, l)) => {
                return Some((tokens[st + f].0.start, tokens[st + l].0.end));
            },
            None => {},
        }
        st = st + 1;
    }
    None
}

/// Locate a term sequence under phrase semantics; the derived character
/// range covering the match. An empty term list matches nothing.
pub fn find_term_sequence(
    tokens: &[(std::ops::Range<u32>, &str)],
    terms: &[String],
    mode: PhraseMode,
    slop: u32,
) -> (r: Option<(u32, u32)>)
    ensures
        terms.len() == 0 ==> r is None,
        terms.len() > 0 ==> match mode {
            PhraseMode::OrderedExact => ordered_result(tokens@, terms@, 0, r),
            PhraseMode::OrderedNear => ordered_result(tokens@, terms@, slop as int, r),
            PhraseMode::UnorderedNear => r == unordered_spec(tokens@, terms@, slop as int),
        },
{
    if terms.len() == 0 {
        return None;
    }
    match mode {
        PhraseMode::OrderedExact => find_ordered(tokens, terms, 0),
        PhraseMode::OrderedNear => find_ordered(tokens, terms, slop),
        PhraseMode::UnorderedNear => find_unordered(tokens, terms, slop),
    }
}

} // verus!
