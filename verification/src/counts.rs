//! Counting over index ranges: how many of the first `n` positions satisfy
//! a property, as the size of the set of those positions.

use vstd::prelude::*;

verus! {

/// The positions among the first `n` where `p` holds.
pub open spec fn positions_where(p: spec_fn(int) -> bool, n: int) -> Set<int> {
    Set::new(|k: int| 0 <= k < n && p(k))
}

/// The positions where `p` holds form a finite set, and extending the
/// range by one position adds that position exactly when `p` holds there.
pub proof fn lemma_positions_step(p: spec_fn(int) -> bool, n: int)
    requires
        0 <= n,
    ensures
        positions_where(p, n).finite(),
        positions_where(p, n + 1).finite(),
        positions_where(p, n + 1).len() == positions_where(p, n).len() + if p(n) {
            1int
        } else {
            0int
        },
        positions_where(p, 0).len() == 0,
{
    vstd::set_lib::lemma_int_range(0, n);
    vstd::set_lib::lemma_int_range(0, n + 1);
    assert(positions_where(p, n).subset_of(vstd::set_lib::set_int_range(0, n)));
    assert(positions_where(p, n + 1).subset_of(vstd::set_lib::set_int_range(0, n + 1)));
    vstd::set_lib::lemma_len_subset(positions_where(p, n), vstd::set_lib::set_int_range(0, n));
    vstd::set_lib::lemma_len_subset(positions_where(p, n + 1), vstd::set_lib::set_int_range(0, n + 1));
    if p(n) {
        assert(positions_where(p, n + 1) =~= positions_where(p, n).insert(n));
    } else {
        assert(positions_where(p, n + 1) =~= positions_where(p, n));
    }
    assert(positions_where(p, 0) =~= Set::<int>::empty());
}

/// The values `f(k)` of the positions `k` among the first `n` where `p`
/// holds, in position order.
pub open spec fn kept_values<A>(p: spec_fn(int) -> bool, f: spec_fn(int) -> A, n: int) -> Seq<A>
    decreases n,
{
    if n <= 0 {
        Seq::empty()
    } else if p(n - 1) {
        kept_values(p, f, n - 1).push(f(n - 1))
    } else {
        kept_values(p, f, n - 1)
    }
}

/// Some position among the first `n` where `p` holds has value `x`.
pub open spec fn kept_from<A>(p: spec_fn(int) -> bool, f: spec_fn(int) -> A, n: int, x: A) -> bool {
    exists|k: int| 0 <= k < n && #[trigger] p(k) && f(k) == x
}

/// The kept values are one per position where `p` holds: each is the
/// value of such a position, and each such position's value is kept.
pub proof fn kept_values_law<A>(p: spec_fn(int) -> bool, f: spec_fn(int) -> A, n: int)
    requires
        0 <= n,
    ensures
        kept_values(p, f, n).len() == positions_where(p, n).len(),
        forall|i: int| 0 <= i < kept_values(p, f, n).len() ==> kept_from(p, f, n, #[trigger] kept_values(p, f, n)[i]),
        forall|k: int| 0 <= k < n && #[trigger] p(k) ==> kept_values(p, f, n).contains(f(k)),
    decreases n,
{
    lemma_positions_step(p, 0);
    if n > 0 {
        kept_values_law(p, f, n - 1);
        lemma_positions_step(p, n - 1);
        let prev = kept_values(p, f, n - 1);
        let cur = kept_values(p, f, n);
        assert forall|i: int| 0 <= i < cur.len() implies kept_from(p, f, n, #[trigger] cur[i]) by {
            if i < prev.len() {
                assert(cur[i] == prev[i]);
                assert(kept_from(p, f, n - 1, prev[i]));
                let k = choose|k: int| 0 <= k < n - 1 && #[trigger] p(k) && f(k) == prev[i];
                assert(p(k));
            } else {
                assert(p(n - 1));
            }
        }
        assert forall|k: int| 0 <= k < n && #[trigger] p(k) implies cur.contains(f(k)) by {
            if k < n - 1 {
                let q = choose|q: int| 0 <= q < prev.len() && prev[q] == f(k);
                assert(cur[q] == prev[q]);
            } else {
                assert(cur[prev.len() as int] == f(k));
            }
        }
    }
}

} // verus!
