//! Co-occurrence within token windows: every form found near an occurrence
//! of the target, how many times, and whether some pairing crosses an ayah
//! boundary; then the ranking the tool reports.

use vstd::prelude::*;
use crate::counts::{lemma_positions_step, positions_where};
use crate::counting::CooccurrenceHit;
use crate::order::{lemma_lt_total, lemma_lt_transitive, str_increasing, str_less, str_lt};
use crate::text::str_eq;
use crate::index_checks::{first_k, indices_below, lemma_insert_ordered, ordered_by};

verus! {

/// A token of the scanned stream: its form under the counting column and
/// its location.
pub type StreamToken = (String, i64, i64);

/// First position of the window around `i`.
pub open spec fn win_lo(i: int, radius: int) -> int {
    if i >= radius {
        i - radius
    } else {
        0
    }
}

/// End (exclusive) of the window around `i`.
pub open spec fn win_hi(i: int, radius: int, n: int) -> int {
    if i + radius + 1 <= n {
        i + radius + 1
    } else {
        n
    }
}

/// Pairings of occurrence `i` with window positions `from..to` that hold
/// another form: the form, and whether it sits in another ayah.
pub open spec fn window_pairs(s: Seq<StreamToken>, t: Seq<char>, i: int, from: int, to: int) -> Seq<(Seq<char>, bool)>
    decreases to - from,
{
    if to <= from {
        Seq::empty()
    } else {
        let prev = window_pairs(s, t, i, from, to - 1);
        if s[to - 1].0@ != t {
            prev.push((s[to - 1].0@, s[to - 1].1 != s[i].1 || s[to - 1].2 != s[i].2))
        } else {
            prev
        }
    }
}

/// All pairings of the first `n` positions that hold the target.
pub open spec fn pair_list(s: Seq<StreamToken>, t: Seq<char>, radius: int, n: int) -> Seq<(Seq<char>, bool)>
    decreases n,
{
    if n <= 0 {
        Seq::empty()
    } else {
        let prev = pair_list(s, t, radius, n - 1);
        if s[n - 1].0@ == t {
            prev + window_pairs(s, t, n - 1, win_lo(n - 1, radius), win_hi(n - 1, radius, s.len() as int))
        } else {
            prev
        }
    }
}

/// Position `j` holds another form within `radius` positions of the
/// occurrence `i` of the target.
pub open spec fn near_pair(s: Seq<StreamToken>, t: Seq<char>, radius: int, i: int, j: int) -> bool {
    &&& 0 <= i < s.len()
    &&& 0 <= j < s.len()
    &&& s[i].0@ == t
    &&& s[j].0@ != t
    &&& i - radius <= j <= i + radius
}

/// The pairing of occurrence `i` with position `j`: the form at `j`, and
/// whether it sits in another ayah.
pub open spec fn pairing_of(s: Seq<StreamToken>, i: int, j: int) -> (Seq<char>, bool) {
    (s[j].0@, s[j].1 != s[i].1 || s[j].2 != s[i].2)
}

/// Some occurrence among the first `n` positions pairs with some position
/// giving `p`.
pub open spec fn paired(s: Seq<StreamToken>, t: Seq<char>, radius: int, n: int, p: (Seq<char>, bool)) -> bool {
    exists|i: int, j: int| 0 <= i < n && #[trigger] near_pair(s, t, radius, i, j) && pairing_of(s, i, j) == p
}

/// Some position `j` in `from..to` holds another form and pairs with `i`
/// giving `p`.
pub open spec fn window_source(s: Seq<StreamToken>, t: Seq<char>, i: int, from: int, to: int, p: (Seq<char>, bool)) -> bool {
    exists|j: int| from <= j < to && s[j].0@ != t && #[trigger] pairing_of(s, i, j) == p
}

proof fn lemma_window_pairs(s: Seq<StreamToken>, t: Seq<char>, i: int, from: int, to: int)
    requires
        0 <= i < s.len(),
        0 <= from,
        to <= s.len(),
    ensures
        forall|k: int|
            0 <= k < window_pairs(s, t, i, from, to).len() ==> window_source(
                s,
                t,
                i,
                from,
                to,
                #[trigger] window_pairs(s, t, i, from, to)[k],
            ),
        forall|j: int|
            from <= j < to && s[j].0@ != t ==> window_pairs(s, t, i, from, to).contains(#[trigger] pairing_of(s, i, j)),
    decreases to - from,
{
    if to > from {
        lemma_window_pairs(s, t, i, from, to - 1);
        let prev = window_pairs(s, t, i, from, to - 1);
        let cur = window_pairs(s, t, i, from, to);
        assert forall|k: int| 0 <= k < cur.len() implies window_source(s, t, i, from, to, #[trigger] cur[k]) by {
            if k < prev.len() {
                assert(cur[k] == prev[k]);
                assert(window_source(s, t, i, from, to - 1, prev[k]));
                let j = choose|j: int| from <= j < to - 1 && s[j].0@ != t && #[trigger] pairing_of(s, i, j) == prev[k];
                assert(pairing_of(s, i, j) == cur[k]);
            } else {
                assert(pairing_of(s, i, to - 1) == cur[k]);
            }
        }
        assert forall|j: int| from <= j < to && s[j].0@ != t implies cur.contains(#[trigger] pairing_of(s, i, j)) by {
            if j < to - 1 {
                let q = choose|q: int| 0 <= q < prev.len() && prev[q] == pairing_of(s, i, j);
                assert(cur[q] == prev[q]);
            } else {
                assert(cur[prev.len() as int] == pairing_of(s, i, j));
            }
        }
    }
}

/// The pairings are exactly those of an occurrence of the target with
/// another form at most `radius` positions away: every listed pairing is
/// one, and every one is listed.
pub proof fn pairings_law(s: Seq<StreamToken>, t: Seq<char>, radius: int, n: int)
    requires
        0 <= n <= s.len(),
        radius >= 0,
    ensures
        forall|k: int|
            0 <= k < pair_list(s, t, radius, n).len() ==> paired(s, t, radius, n, #[trigger] pair_list(s, t, radius, n)[k]),
        forall|i: int, j: int|
            0 <= i < n && #[trigger] near_pair(s, t, radius, i, j) ==> pair_list(s, t, radius, n).contains(
                pairing_of(s, i, j),
            ),
    decreases n,
{
    if n > 0 {
        pairings_law(s, t, radius, n - 1);
        let prev = pair_list(s, t, radius, n - 1);
        let cur = pair_list(s, t, radius, n);
        let i0 = n - 1;
        let lo = win_lo(i0, radius);
        let hi = win_hi(i0, radius, s.len() as int);
        if s[i0].0@ == t {
            lemma_window_pairs(s, t, i0, lo, hi);
            let w = window_pairs(s, t, i0, lo, hi);
            assert(cur == prev + w);
            assert forall|k: int| 0 <= k < cur.len() implies paired(s, t, radius, n, #[trigger] cur[k]) by {
                if k < prev.len() {
                    assert(cur[k] == prev[k]);
                    assert(paired(s, t, radius, n - 1, prev[k]));
                    let (a, b) = choose|a: int, b: int| 0 <= a < n - 1 && #[trigger] near_pair(s, t, radius, a, b) && pairing_of(s, a, b) == prev[k];
                    assert(near_pair(s, t, radius, a, b));
                } else {
                    assert(cur[k] == w[k - prev.len()]);
                    assert(window_source(s, t, i0, lo, hi, w[k - prev.len()]));
                    let j = choose|j: int| lo <= j < hi && s[j].0@ != t && #[trigger] pairing_of(s, i0, j) == w[k - prev.len()];
                    assert(near_pair(s, t, radius, i0, j));
                }
            }
            assert forall|a: int, b: int| 0 <= a < n && #[trigger] near_pair(s, t, radius, a, b) implies cur.contains(
                pairing_of(s, a, b),
            ) by {
                if a < n - 1 {
                    let q = choose|q: int| 0 <= q < prev.len() && prev[q] == pairing_of(s, a, b);
                    assert(cur[q] == prev[q]);
                } else {
                    assert(lo <= b < hi);
                    assert(w.contains(pairing_of(s, i0, b)));
                    let q = choose|q: int| 0 <= q < w.len() && w[q] == pairing_of(s, i0, b);
                    assert(cur[q + prev.len()] == w[q]);
                }
            }
        } else {
            assert forall|k: int| 0 <= k < cur.len() implies paired(s, t, radius, n, #[trigger] cur[k]) by {
                assert(paired(s, t, radius, n - 1, prev[k]));
                let (a, b) = choose|a: int, b: int| 0 <= a < n - 1 && #[trigger] near_pair(s, t, radius, a, b) && pairing_of(s, a, b) == prev[k];
                assert(near_pair(s, t, radius, a, b));
            }
        }
    }
}

/// The pairings of every occurrence of `target` with the other forms at
/// most `radius` positions away, in stream order.
pub fn pairings(stream: &[StreamToken], target: &str, radius: usize) -> (r: Vec<(String, bool)>)
    ensures
        r@.map_values(|p: (String, bool)| (p.0@, p.1)) == pair_list(
            stream@,
            target@,
            radius as int,
            stream@.len() as int,
        ),
        forall|k: int|
            0 <= k < r@.len() ==> paired(
                stream@,
                target@,
                radius as int,
                stream@.len() as int,
                ((#[trigger] r@[k]).0@, r@[k].1),
            ),
        forall|i: int, j: int|
            0 <= i < stream@.len() && #[trigger] near_pair(stream@, target@, radius as int, i, j) ==> r@.map_values(
                |p: (String, bool)| (p.0@, p.1),
            ).contains(pairing_of(stream@, i, j)),
{
    let n = stream.len();
    let mut r: Vec<(String, bool)> = Vec::new();
    let mut i: usize = 0;
    while i < n
        invariant
            n == stream@.len(),
            i <= n,
            r@.map_values(|p: (String, bool)| (p.0@, p.1)) == pair_list(
                stream@,
                target@,
                radius as int,
                i as int,
            ),
        decreases n - i,
    {
        if str_eq(stream[i].0.as_str(), target) {
            let lo: usize = if i >= radius {
                i - radius
            } else {
                0
            };
            let hi: usize = if radius < n - i {
                i + radius + 1
            } else {
                n
            };
            let ghost head = r@.map_values(|p: (String, bool)| (p.0@, p.1));
            let mut j: usize = lo;
            while j < hi
                invariant
                    n == stream@.len(),
                    i < n,
                    lo <= j <= hi <= n,
                    lo == win_lo(i as int, radius as int),
                    hi == win_hi(i as int, radius as int, n as int),
                    r@.map_values(|p: (String, bool)| (p.0@, p.1)) == head + window_pairs(
                        stream@,
                        target@,
                        i as int,
                        lo as int,
                        j as int,
                    ),
                decreases hi - j,
            {
                if !str_eq(stream[j].0.as_str(), target) {
                    let differs = stream[j].1 != stream[i].1 || stream[j].2 != stream[i].2;
                    let ghost before = r@;
                    let e = (crate::text::owned(stream[j].0.as_str()), differs);
                    r.push(e);
                    assert(r@.map_values(|p: (String, bool)| (p.0@, p.1)) =~= before.map_values(
                        |p: (String, bool)| (p.0@, p.1),
                    ).push((e.0@, e.1)));
                }
                j = j + 1;
            }
        }
        i = i + 1;
    }
    proof {
        pairings_law(stream@, target@, radius as int, stream@.len() as int);
        let views = r@.map_values(|p: (String, bool)| (p.0@, p.1));
        assert forall|k: int| 0 <= k < r@.len() implies paired(
            stream@,
            target@,
            radius as int,
            stream@.len() as int,
            ((#[trigger] r@[k]).0@, r@[k].1),
        ) by {
            assert(views[k] == (r@[k].0@, r@[k].1));
        }
    }
    r
}


/// How many of the first `m` pairings hold form `f`.
pub open spec fn pair_count(list: Seq<(Seq<char>, bool)>, f: Seq<char>, m: int) -> nat
    decreases m,
{
    if m <= 0 {
        0
    } else {
        pair_count(list, f, m - 1) + if list[m - 1].0 == f {
            1nat
        } else {
            0nat
        }
    }
}

/// Whether one of the first `m` pairings of form `f` crosses an ayah.
pub open spec fn pair_crosses(list: Seq<(Seq<char>, bool)>, f: Seq<char>, m: int) -> bool
    decreases m,
{
    if m <= 0 {
        false
    } else {
        pair_crosses(list, f, m - 1) || (list[m - 1].0 == f && list[m - 1].1)
    }
}

/// Forms of the pairings.
pub open spec fn pair_forms(list: Seq<(Seq<char>, bool)>) -> Seq<Seq<char>> {
    list.map_values(|p: (Seq<char>, bool)| p.0)
}

/// Forms of a list of hits.
pub open spec fn hit_forms(v: Seq<CooccurrenceHit>) -> Seq<Seq<char>> {
    v.map_values(|h: CooccurrenceHit| h.form@)
}

/// `t` tallies `list`: one hit per form of the pairings, in string order,
/// with that form's pairing count and whether one of them crosses an ayah.
pub open spec fn is_tally(list: Seq<(Seq<char>, bool)>, t: Seq<CooccurrenceHit>) -> bool {
    &&& str_increasing(hit_forms(t))
    &&& hit_forms(t).to_set() == pair_forms(list).to_set()
    &&& forall|k: int|
        0 <= k < t.len() ==> (#[trigger] t[k]).count == pair_count(list, t[k].form@, list.len() as int)
            && t[k].spans_ayah_boundary == pair_crosses(list, t[k].form@, list.len() as int)
            && t[k].count <= list.len()
}

/// Per-form tallies of the pairings: one hit per form (in string order)
/// with its pairing count and whether any pairing crosses an ayah.
pub fn tally_pairings(pairs: &[(String, bool)]) -> (r: Vec<CooccurrenceHit>)
    ensures
        is_tally(pairs@.map_values(|p: (String, bool)| (p.0@, p.1)), r@),
{
    let ghost list = pairs@.map_values(|p: (String, bool)| (p.0@, p.1));
    let mut r: Vec<CooccurrenceHit> = Vec::new();
    let mut m: usize = 0;
    while m < pairs.len()
        invariant
            m <= pairs@.len(),
            list == pairs@.map_values(|p: (String, bool)| (p.0@, p.1)),
            str_increasing(hit_forms(r@)),
            hit_forms(r@).to_set() == pair_forms(list.take(m as int)).to_set(),
            forall|k: int|
                0 <= k < r@.len() ==> (#[trigger] r@[k]).count == pair_count(list, r@[k].form@, m as int)
                    && r@[k].spans_ayah_boundary == pair_crosses(list, r@[k].form@, m as int),
            forall|k: int| 0 <= k < r@.len() ==> (#[trigger] r@[k]).count <= m,
        decreases pairs.len() - m,
    {
        let f = &pairs[m].0;
        let d = pairs[m].1;
        let ghost fv = f@;
        assert(list[m as int] == (fv, d));
        let mut p: usize = 0;
        while p < r.len() && str_less(r[p].form.as_str(), f.as_str())
            invariant
                p <= r@.len(),
                forall|j: int| 0 <= j < p ==> str_lt(#[trigger] r@[j].form@, fv),
                fv == f@,
            decreases r.len() - p,
        {
            p = p + 1;
        }
        let ghost before = r@;
        let ghost bv = hit_forms(before);
        proof {
            assert(list.take(m + 1) =~= list.take(m as int).push((fv, d)));
            assert(pair_forms(list.take(m + 1)) =~= pair_forms(list.take(m as int)).push(fv));
        }
        if p < r.len() && str_eq(r[p].form.as_str(), f.as_str()) {
            let h = CooccurrenceHit {
                form: crate::text::owned(f.as_str()),
                count: r[p].count + 1,
                spans_ayah_boundary: r[p].spans_ayah_boundary || d,
            };
            r.set(p, h);
            proof {
                assert(hit_forms(r@) =~= bv);
                assert forall|k: int| 0 <= k < r@.len() implies (#[trigger] r@[k]).count == pair_count(
                    list,
                    r@[k].form@,
                    m + 1,
                ) && r@[k].spans_ayah_boundary == pair_crosses(list, r@[k].form@, m + 1) by {
                    if k != p {
                        assert(r@[k] == before[k]);
                        assert(bv[k] != bv[p as int]) by {
                            if k < p {
                                assert(str_lt(bv[k], bv[p as int]));
                            } else {
                                assert(str_lt(bv[p as int], bv[k]));
                            }
                            crate::order::lemma_lt_irreflexive(bv[k]);
                        }
                    }
                }
                assert(pair_forms(list.take(m as int)).to_set().contains(fv)) by {
                    assert(bv.to_set().contains(fv)) by {
                        assert(bv[p as int] == fv);
                    }
                }
                lemma_push_set(pair_forms(list.take(m as int)), fv);
                assert(bv.to_set().insert(fv) =~= bv.to_set());
            }
        } else {
            let h = CooccurrenceHit { form: crate::text::owned(f.as_str()), count: 1, spans_ayah_boundary: d };
            r.insert(p, h);
            proof {
                let sv = hit_forms(r@);
                assert(sv =~= bv.insert(p as int, fv));
                assert forall|a: int, b: int| 0 <= a < b < sv.len() implies str_lt(
                    #[trigger] sv[a],
                    #[trigger] sv[b],
                ) by {
                    if b < p {
                        assert(sv[a] == bv[a] && sv[b] == bv[b]);
                    } else if b == p {
                        assert(sv[a] == bv[a]);
                    } else if a < p {
                        assert(sv[a] == bv[a] && sv[b] == bv[b - 1]);
                    } else if a == p {
                        assert(sv[b] == bv[b - 1]);
                        lemma_lt_total(fv, bv[p as int]);
                        if b - 1 > p {
                            lemma_lt_transitive(fv, bv[p as int], bv[b - 1]);
                        }
                    } else {
                        assert(sv[a] == bv[a - 1] && sv[b] == bv[b - 1]);
                    }
                }
                assert(!bv.contains(fv)) by {
                    if bv.contains(fv) {
                        let k = choose|k: int| 0 <= k < bv.len() && bv[k] == fv;
                        if k < p {
                            assert(str_lt(bv[k], fv));
                            crate::order::lemma_lt_irreflexive(fv);
                        } else if k > p {
                            assert(str_lt(bv[p as int], bv[k]));
                            lemma_lt_total(fv, bv[p as int]);
                            crate::order::lemma_lt_asymmetric(bv[p as int], fv);
                        }
                    }
                }
                assert forall|k: int| 0 <= k < r@.len() implies (#[trigger] r@[k]).count == pair_count(
                    list,
                    r@[k].form@,
                    m + 1,
                ) && r@[k].spans_ayah_boundary == pair_crosses(list, r@[k].form@, m + 1) by {
                    if k < p {
                        assert(r@[k] == before[k]);
                        assert(bv[k] != fv);
                    } else if k > p {
                        assert(r@[k] == before[k - 1]);
                        assert(bv[k - 1] != fv);
                    } else {
                        lemma_absent_zero(list, fv, m as int);
                    }
                }
                assert forall|k: int| 0 <= k < r@.len() implies (#[trigger] r@[k]).count <= m + 1 by {
                    if k < p {
                        assert(r@[k] == before[k]);
                    } else if k > p {
                        assert(r@[k] == before[k - 1]);
                    }
                }
                assert(sv.to_set() =~= bv.to_set().insert(fv)) by {
                    assert forall|x: Seq<char>| sv.to_set().contains(x) implies bv.to_set().insert(fv).contains(x) by {
                        let k = choose|k: int| 0 <= k < sv.len() && #[trigger] sv[k] == x;
                        if k < p {
                            assert(bv[k] == x);
                        } else if k > p {
                            assert(bv[k - 1] == x);
                        }
                    }
                    assert forall|x: Seq<char>| bv.to_set().insert(fv).contains(x) implies sv.to_set().contains(x) by {
                        if x == fv {
                            assert(sv[p as int] == fv);
                        } else {
                            let k = choose|k: int| 0 <= k < bv.len() && #[trigger] bv[k] == x;
                            if k < p {
                                assert(sv[k] == x);
                            } else {
                                assert(sv[k + 1] == x);
                            }
                        }
                    }
                }
                lemma_push_set(pair_forms(list.take(m as int)), fv);
            }
        }
        m = m + 1;
    }
    assert(list.take(pairs@.len() as int) =~= list);
    r
}

proof fn lemma_push_set(s: Seq<Seq<char>>, x: Seq<char>)
    ensures
        s.push(x).to_set() == s.to_set().insert(x),
{
    let t = s.push(x);
    assert forall|y: Seq<char>| t.to_set().contains(y) implies s.to_set().insert(x).contains(y) by {
        let k = choose|k: int| 0 <= k < t.len() && #[trigger] t[k] == y;
        if k < s.len() {
            assert(s[k] == y);
        }
    }
    assert forall|y: Seq<char>| s.to_set().insert(x).contains(y) implies t.to_set().contains(y) by {
        if y == x {
            assert(t[s.len() as int] == x);
        } else {
            let k = choose|k: int| 0 <= k < s.len() && #[trigger] s[k] == y;
            assert(t[k] == y);
        }
    }
    assert(t.to_set() =~= s.to_set().insert(x));
}

proof fn lemma_absent_zero(list: Seq<(Seq<char>, bool)>, f: Seq<char>, m: int)
    requires
        0 <= m <= list.len(),
        !pair_forms(list.take(m)).to_set().contains(f),
    ensures
        pair_count(list, f, m) == 0,
        !pair_crosses(list, f, m),
    decreases m,
{
    if m > 0 {
        assert(pair_forms(list.take(m))[m - 1] == list[m - 1].0);
        assert(list[m - 1].0 != f);
        assert(pair_forms(list.take(m - 1)).to_set().contains(f) ==> pair_forms(list.take(m)).to_set().contains(f)) by {
            if pair_forms(list.take(m - 1)).to_set().contains(f) {
                let k = choose|k: int| 0 <= k < m - 1 && #[trigger] pair_forms(list.take(m - 1))[k] == f;
                assert(pair_forms(list.take(m))[k] == f);
            }
        }
        lemma_absent_zero(list, f, m - 1);
    }
}


/// Hit `i` ranks before hit `j`: more pairings first, then the form in
/// string order (then list position).
pub open spec fn hit_before(h: Seq<CooccurrenceHit>, i: usize, j: usize) -> bool {
    let a = h[i as int];
    let b = h[j as int];
    a.count > b.count || (a.count == b.count && (str_lt(a.form@, b.form@) || (a.form@ == b.form@
        && i < j)))
}

/// `order` lists every hit index once, in rank order.
pub open spec fn in_hit_order(h: Seq<CooccurrenceHit>, order: Seq<usize>) -> bool {
    &&& ordered_by(order, |i: usize, j: usize| hit_before(h, i, j))
    &&& order.to_set() == indices_below(h.len() as int)
    &&& forall|k: int| 0 <= k < order.len() ==> (#[trigger] order[k]) < h.len()
}

fn hit_before_exec(h: &[CooccurrenceHit], i: usize, j: usize) -> (r: bool)
    requires
        i < h@.len(),
        j < h@.len(),
    ensures
        r == hit_before(h@, i, j),
{
    let a = &h[i];
    let b = &h[j];
    if a.count != b.count {
        return a.count > b.count;
    }
    if str_less(a.form.as_str(), b.form.as_str()) {
        return true;
    }
    str_eq(a.form.as_str(), b.form.as_str()) && i < j
}

proof fn lemma_hit_order_transitive(h: Seq<CooccurrenceHit>)
    ensures
        forall|x: usize, y: usize, z: usize|
            #[trigger] hit_before(h, x, y) && #[trigger] hit_before(h, y, z) ==> hit_before(h, x, z),
{
    assert forall|x: usize, y: usize, z: usize|
        #[trigger] hit_before(h, x, y) && #[trigger] hit_before(h, y, z) implies hit_before(h, x, z) by {
        let a = h[x as int].form@;
        let b = h[y as int].form@;
        let c = h[z as int].form@;
        if h[x as int].count == h[y as int].count && h[y as int].count == h[z as int].count {
            if str_lt(a, b) && str_lt(b, c) {
                lemma_lt_transitive(a, b, c);
            }
        }
    }
}

/// Hits in rank order (more pairings first, then by form), at most
/// `limit` of them (at least one).
pub fn rank_hits(h: &[CooccurrenceHit], limit: usize) -> (r: Vec<CooccurrenceHit>)
    ensures
        exists|order: Seq<usize>|
            #[trigger] in_hit_order(h@, order) && r@ == first_k(
                order.map_values(|i: usize| h@[i as int]),
                if limit == 0 {
                    1
                } else {
                    limit as int
                },
            ),
{
    let ghost lt = |i: usize, j: usize| hit_before(h@, i, j);
    proof {
        lemma_hit_order_transitive(h@);
    }
    let mut order: Vec<usize> = Vec::new();
    let mut i: usize = 0;
    assert(order@.to_set() =~= indices_below(0));
    while i < h.len()
        invariant
            i <= h@.len(),
            lt == (|i: usize, j: usize| hit_before(h@, i, j)),
            ordered_by(order@, lt),
            order@.to_set() == indices_below(i as int),
            forall|k: int| 0 <= k < order@.len() ==> (#[trigger] order@[k]) < i,
            forall|x: usize, y: usize, z: usize|
                #[trigger] hit_before(h@, x, y) && #[trigger] hit_before(h@, y, z) ==> hit_before(h@, x, z),
        decreases h.len() - i,
    {
        let mut p: usize = 0;
        while p < order.len() && hit_before_exec(h, order[p], i)
            invariant
                p <= order@.len(),
                i < h@.len(),
                forall|k: int| 0 <= k < order@.len() ==> (#[trigger] order@[k]) < i,
                forall|j: int| 0 <= j < p ==> lt(#[trigger] order@[j], i),
                lt == (|i: usize, j: usize| hit_before(h@, i, j)),
            decreases order.len() - p,
        {
            p = p + 1;
        }
        let ghost before = order@;
        proof {
            if p < before.len() {
                let q = before[p as int];
                assert(q < i);
                assert(!hit_before(h@, q, i));
                lemma_lt_total(h@[i as int].form@, h@[q as int].form@);
                assert(lt(i, q));
            }
            assert forall|x: usize, y: usize, z: usize| #[trigger] lt(x, y) && #[trigger] lt(y, z) implies lt(x, z) by {
                assert(hit_before(h@, x, y) && hit_before(h@, y, z));
            }
            lemma_insert_ordered(before, p as int, i, lt);
        }
        order.insert(p, i);
        proof {
            assert(order@.to_set() =~= indices_below(i + 1));
            assert forall|k: int| 0 <= k < order@.len() implies (#[trigger] order@[k]) < i + 1 by {
                if k < p {
                    assert(order@[k] == before[k]);
                } else if k > p {
                    assert(order@[k] == before[k - 1]);
                }
            }
        }
        i = i + 1;
    }
    assert(in_hit_order(h@, order@));
    let cap: usize = if limit == 0 {
        1
    } else {
        limit
    };
    let mut r: Vec<CooccurrenceHit> = Vec::new();
    let mut k: usize = 0;
    while k < order.len() && k < cap
        invariant
            k <= order@.len(),
            k <= cap,
            forall|j: int| 0 <= j < order@.len() ==> (#[trigger] order@[j]) < h@.len(),
            r@ == order@.take(k as int).map_values(|i: usize| h@[i as int]),
        decreases order.len() - k,
    {
        let e = &h[order[k]];
        r.push(CooccurrenceHit {
            form: e.form.clone(),
            count: e.count,
            spans_ayah_boundary: e.spans_ayah_boundary,
        });
        proof {
            assert(order@.take(k + 1) =~= order@.take(k as int).push(order@[k as int]));
            assert(r@ =~= order@.take(k + 1).map_values(|i: usize| h@[i as int]));
        }
        k = k + 1;
    }
    proof {
        let all = order@.map_values(|i: usize| h@[i as int]);
        if order@.len() <= cap {
            assert(order@.take(order@.len() as int) =~= order@);
            assert(r@ =~= all);
        } else {
            assert(r@ =~= all.take(cap as int));
        }
    }
    r
}


/// Window radius a request runs with: at least one token.
pub open spec fn radius_of(window_tokens: usize) -> int {
    if window_tokens == 0 {
        1
    } else {
        window_tokens as int
    }
}

/// Window definition recorded in the counting rules: `token:<radius>`.
pub fn window_label(window_tokens: usize) -> (r: String)
    ensures
        r@ == "token:"@ + crate::text::decimal(radius_of(window_tokens) as nat),
{
    let radius: usize = if window_tokens == 0 {
        1
    } else {
        window_tokens
    };
    let mut r = crate::text::owned("token:");
    crate::text::push_decimal(&mut r, radius as u64);
    r
}

/// Co-occurrence over a token stream: the forms paired with occurrences of
/// `target` within `window_tokens` positions (at least one), tallied per
/// form, ranked by pairing count then form, at most `limit` (at least one).
pub fn cooccurrence(stream: &[StreamToken], target: &str, window_tokens: usize, limit: usize) -> (r: Vec<CooccurrenceHit>)
    ensures
        exists|t: Seq<CooccurrenceHit>, order: Seq<usize>|
            #[trigger] is_tally(
                pair_list(stream@, target@, radius_of(window_tokens), stream@.len() as int),
                t,
            ) && #[trigger] in_hit_order(t, order) && r@ == first_k(
                order.map_values(|i: usize| t[i as int]),
                if limit == 0 {
                    1
                } else {
                    limit as int
                },
            ),
{
    let radius: usize = if window_tokens == 0 {
        1
    } else {
        window_tokens
    };
    let pairs = pairings(stream, target, radius);
    let tally = tally_pairings(pairs.as_slice());
    let r = rank_hits(tally.as_slice(), limit);
    proof {
        let cap = if limit == 0 {
            1
        } else {
            limit as int
        };
        let order = choose|o: Seq<usize>|
            #[trigger] in_hit_order(tally@, o) && r@ == first_k(o.map_values(|i: usize| tally@[i as int]), cap);
        assert(radius_of(window_tokens) == radius as int);
        assert(is_tally(pair_list(stream@, target@, radius_of(window_tokens), stream@.len() as int), tally@));
        assert(in_hit_order(tally@, order));
    }
    r
}

/// Pairings of form `f`.
pub open spec fn pairs_with(list: Seq<(Seq<char>, bool)>, f: Seq<char>) -> spec_fn(int) -> bool {
    |k: int| list[k].0 == f
}

/// A form's count is the number of its pairings (among the first `m`), and
/// it crosses an ayah exactly when one of its pairings does.
pub proof fn pair_tally_law(list: Seq<(Seq<char>, bool)>, f: Seq<char>, m: int)
    requires
        0 <= m,
    ensures
        pair_count(list, f, m) == positions_where(pairs_with(list, f), m).len(),
        pair_crosses(list, f, m) <==> exists|k: int| 0 <= k < m && (#[trigger] list[k]).0 == f && list[k].1,
    decreases m,
{
    lemma_positions_step(pairs_with(list, f), 0);
    if m > 0 {
        pair_tally_law(list, f, m - 1);
        lemma_positions_step(pairs_with(list, f), m - 1);
        if exists|k: int| 0 <= k < m && (#[trigger] list[k]).0 == f && list[k].1 {
            let k = choose|k: int| 0 <= k < m && (#[trigger] list[k]).0 == f && list[k].1;
            if k < m - 1 {
                assert(exists|j: int| 0 <= j < m - 1 && (#[trigger] list[j]).0 == f && list[j].1);
            }
        }
    }
}

} // verus!
