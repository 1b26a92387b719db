//! String order (`Ord` on `str`: code point by code point, a proper prefix
//! first) and the sorts built on it.

use vstd::prelude::*;
use crate::text::chars_of;

verus! {

/// `a < b` in string order.
pub open spec fn str_lt(a: Seq<char>, b: Seq<char>) -> bool
    decreases a.len(),
{
    if a.len() == 0 {
        b.len() > 0
    } else if b.len() == 0 {
        false
    } else if a[0] == b[0] {
        str_lt(a.drop_first(), b.drop_first())
    } else {
        (a[0] as int) < (b[0] as int)
    }
}

/// `a <= b` in string order.
pub open spec fn str_le(a: Seq<char>, b: Seq<char>) -> bool {
    a == b || str_lt(a, b)
}

/// No string precedes itself.
pub proof fn lemma_lt_irreflexive(a: Seq<char>)
    ensures
        !str_lt(a, a),
    decreases a.len(),
{
    if a.len() > 0 {
        lemma_lt_irreflexive(a.drop_first());
    }
}

/// String order is transitive.
pub proof fn lemma_lt_transitive(a: Seq<char>, b: Seq<char>, c: Seq<char>)
    requires
        str_lt(a, b),
        str_lt(b, c),
    ensures
        str_lt(a, c),
    decreases a.len(),
{
    if a.len() > 0 && b.len() > 0 && c.len() > 0 {
        if a[0] == b[0] && b[0] == c[0] {
            lemma_lt_transitive(a.drop_first(), b.drop_first(), c.drop_first());
        }
    }
}

/// Any two strings are equal or ordered one way.
pub proof fn lemma_lt_total(a: Seq<char>, b: Seq<char>)
    ensures
        a == b || str_lt(a, b) || str_lt(b, a),
    decreases a.len(),
{
    if a.len() > 0 && b.len() > 0 {
        if a[0] == b[0] {
            lemma_lt_total(a.drop_first(), b.drop_first());
            if a.drop_first() == b.drop_first() {
                assert(a =~= seq![a[0]] + a.drop_first());
                assert(b =~= seq![b[0]] + b.drop_first());
            }
        } else {
            assert((a[0] as int) != (b[0] as int));
        }
    } else if a.len() == 0 && b.len() == 0 {
        assert(a =~= b);
    }
}

/// String order is asymmetric.
pub proof fn lemma_lt_asymmetric(a: Seq<char>, b: Seq<char>)
    requires
        str_lt(a, b),
    ensures
        !str_lt(b, a),
{
    if str_lt(b, a) {
        lemma_lt_transitive(a, b, a);
        lemma_lt_irreflexive(a);
    }
}

/// String order on character slices.
pub fn chars_less(a: &[char], b: &[char]) -> (r: bool)
    ensures
        r == str_lt(a@, b@),
{
    let mut i: usize = 0;
    assert(a@.skip(0) =~= a@);
    assert(b@.skip(0) =~= b@);
    while i < a.len() && i < b.len() && a[i] == b[i]
        invariant
            i <= a.len(),
            i <= b.len(),
            str_lt(a@, b@) == str_lt(a@.skip(i as int), b@.skip(i as int)),
        decreases a.len() - i,
    {
        assert(a@.skip(i as int).drop_first() =~= a@.skip(i + 1));
        assert(b@.skip(i as int).drop_first() =~= b@.skip(i + 1));
        i = i + 1;
    }
    if i == a.len() {
        i < b.len()
    } else if i == b.len() {
        false
    } else {
        assert(a@.skip(i as int)[0] == a@[i as int]);
        assert(b@.skip(i as int)[0] == b@[i as int]);
        a[i] < b[i]
    }
}

/// String order on string slices.
pub fn str_less(a: &str, b: &str) -> (r: bool)
    ensures
        r == str_lt(a@, b@),
{
    let x = chars_of(a);
    let y = chars_of(b);
    chars_less(x.as_slice(), y.as_slice())
}

/// Views of a list of strings.
pub open spec fn str_views(v: Seq<String>) -> Seq<Seq<char>> {
    v.map_values(|s: String| s@)
}

/// Nondecreasing in string order.
pub open spec fn str_sorted(s: Seq<Seq<char>>) -> bool {
    forall|i: int, j: int| 0 <= i < j < s.len() ==> str_le(#[trigger] s[i], #[trigger] s[j])
}

/// Strictly increasing in string order (so without duplicates).
pub open spec fn str_increasing(s: Seq<Seq<char>>) -> bool {
    forall|i: int, j: int| 0 <= i < j < s.len() ==> str_lt(#[trigger] s[i], #[trigger] s[j])
}

proof fn lemma_views_insert(v: Seq<String>, p: int, x: String)
    requires
        0 <= p <= v.len(),
    ensures
        str_views(v.insert(p, x)) == str_views(v).insert(p, x@),
{
    assert(str_views(v.insert(p, x)) =~= str_views(v).insert(p, x@));
}

/// The strings of `v` in string order (duplicates kept), as `sort` leaves
/// them.
pub fn sort_strings(v: Vec<String>) -> (r: Vec<String>)
    ensures
        str_sorted(str_views(r@)),
        str_views(r@).to_multiset() == str_views(v@).to_multiset(),
{
    broadcast use vstd::seq_lib::group_to_multiset_ensures;
    let mut r: Vec<String> = Vec::new();
    let mut i: usize = 0;
    while i < v.len()
        invariant
            i <= v.len(),
            str_sorted(str_views(r@)),
            str_views(r@).to_multiset() == str_views(v@.take(i as int)).to_multiset(),
        decreases v.len() - i,
    {
        let c = owned_copy(&v[i]);
        let mut p: usize = 0;
        while p < r.len() && !str_less(c.as_str(), r[p].as_str())
            invariant
                p <= r.len(),
                forall|j: int| 0 <= j < p ==> !str_lt(c@, #[trigger] r@[j]@),
            decreases r.len() - p,
        {
            p = p + 1;
        }
        let ghost before = r@;
        let ghost cv = c@;
        r.insert(p, c);
        proof {
            lemma_views_insert(before, p as int, c);
            let sv = str_views(r@);
            let bv = str_views(before);
            assert forall|a: int, b: int| 0 <= a < b < sv.len() implies str_le(
                #[trigger] sv[a],
                #[trigger] sv[b],
            ) by {
                if b < p {
                    assert(sv[a] == bv[a] && sv[b] == bv[b]);
                } else if b == p {
                    assert(sv[a] == bv[a]);
                    assert(sv[b] == cv);
                    assert(!str_lt(cv, before[a]@));
                    lemma_lt_total(cv, bv[a]);
                } else if a < p {
                    assert(sv[a] == bv[a] && sv[b] == bv[b - 1]);
                } else if a == p {
                    assert(sv[a] == cv);
                    assert(sv[b] == bv[b - 1]);
                    assert(str_lt(cv, before[p as int]@));
                    if b - 1 > p {
                        assert(str_le(bv[p as int], bv[b - 1]));
                        if bv[p as int] != bv[b - 1] {
                            lemma_lt_transitive(cv, bv[p as int], bv[b - 1]);
                        }
                    }
                } else {
                    assert(sv[a] == bv[a - 1] && sv[b] == bv[b - 1]);
                }
            }
            assert(v@.take(i + 1) =~= v@.take(i as int).push(v@[i as int]));
            assert(str_views(v@.take(i + 1)) =~= str_views(v@.take(i as int)).push(v@[i as int]@));
            vstd::seq_lib::to_multiset_insert(bv, p as int, cv);
            vstd::seq_lib::to_multiset_build(str_views(v@.take(i as int)), cv);
            assert(cv == v@[i as int]@);
        }
        i = i + 1;
    }
    assert(v@.take(v.len() as int) =~= v@);
    r
}

/// A fresh copy of a string.
pub fn owned_copy(s: &String) -> (r: String)
    ensures
        r@ == s@,
{
    crate::text::owned(s.as_str())
}

/// The strings of `v` in string order, each once (a `BTreeSet`'s order).
pub fn sorted_distinct_strings(v: &[String]) -> (r: Vec<String>)
    ensures
        str_increasing(str_views(r@)),
        str_views(r@).to_set() == str_views(v@).to_set(),
{
    let mut r: Vec<String> = Vec::new();
    let mut i: usize = 0;
    while i < v.len()
        invariant
            i <= v.len(),
            str_increasing(str_views(r@)),
            str_views(r@).to_set() == str_views(v@.take(i as int)).to_set(),
        decreases v.len() - i,
    {
        let c = owned_copy(&v[i]);
        let mut p: usize = 0;
        while p < r.len() && str_less(r[p].as_str(), c.as_str())
            invariant
                p <= r.len(),
                forall|j: int| 0 <= j < p ==> str_lt(#[trigger] r@[j]@, c@),
            decreases r.len() - p,
        {
            p = p + 1;
        }
        let ghost before = r@;
        let ghost cv = c@;
        let ghost bv = str_views(before);
        let dup = p < r.len() && crate::text::str_eq(r[p].as_str(), c.as_str());
        if !dup {
            r.insert(p, c);
            proof {
                lemma_views_insert(before, p as int, c);
                let sv = str_views(r@);
                assert forall|a: int, b: int| 0 <= a < b < sv.len() implies str_lt(
                    #[trigger] sv[a],
                    #[trigger] sv[b],
                ) by {
                    if b < p {
                        assert(sv[a] == bv[a] && sv[b] == bv[b]);
                    } else if b == p {
                        assert(sv[a] == bv[a]);
                    } else if a < p {
                        assert(sv[a] == bv[a] && sv[b] == bv[b - 1]);
                    } else if a == p {
                        assert(sv[b] == bv[b - 1]);
                        assert(!str_lt(bv[p as int], cv));
                        assert(bv[p as int] != cv);
                        lemma_lt_total(cv, bv[p as int]);
                        if b - 1 > p {
                            lemma_lt_transitive(cv, bv[p as int], bv[b - 1]);
                        }
                    } else {
                        assert(sv[a] == bv[a - 1] && sv[b] == bv[b - 1]);
                    }
                }
                assert(sv.to_set() =~= bv.to_set().insert(cv)) by {
                    assert forall|x: Seq<char>| sv.to_set().contains(x) implies bv.to_set().insert(
                        cv,
                    ).contains(x) by {
                        let k = choose|k: int| 0 <= k < sv.len() && #[trigger] sv[k] == x;
                        if k < p {
                            assert(bv[k] == x);
                        } else if k > p {
                            assert(bv[k - 1] == x);
                        }
                    }
                    assert forall|x: Seq<char>| bv.to_set().insert(cv).contains(x) implies sv.to_set().contains(
                        x,
                    ) by {
                        if x == cv {
                            assert(sv[p as int] == cv);
                        } else {
                            let k = choose|k: int| 0 <= k < bv.len() && #[trigger] bv[k] == x;
                            if k < p {
                                assert(sv[k] == x);
                            } else {
                                assert(sv[k + 1] == x);
                            }
                        }
                    }
                }
            }
        } else {
            proof {
                assert(bv[p as int] == cv);
                assert(bv.to_set() =~= bv.to_set().insert(cv));
            }
        }
        proof {
            let t1 = str_views(v@.take(i + 1));
            let t0 = str_views(v@.take(i as int));
            assert(t1 =~= t0.push(cv));
            assert(t1.to_set() =~= t0.to_set().insert(cv)) by {
                assert forall|x: Seq<char>| t1.to_set().contains(x) implies t0.to_set().insert(
                    cv,
                ).contains(x) by {
                    let k = choose|k: int| 0 <= k < t1.len() && #[trigger] t1[k] == x;
                    if k < t0.len() {
                        assert(t0[k] == x);
                    }
                }
                assert forall|x: Seq<char>| t0.to_set().insert(cv).contains(x) implies t1.to_set().contains(
                    x,
                ) by {
                    if x == cv {
                        assert(t1[t0.len() as int] == cv);
                    } else {
                        let k = choose|k: int| 0 <= k < t0.len() && #[trigger] t0[k] == x;
                        assert(t1[k] == x);
                    }
                }
            }
        }
        i = i + 1;
    }
    assert(v@.take(v.len() as int) =~= v@);
    r
}

} // verus!
