//! Near-duplicate passages: character shingles, MinHash signatures over
//! SHA-256, the signature prefilter and the exact shingle overlap that
//! verifies a candidate pair.

use vstd::prelude::*;
use crate::counts::{lemma_positions_step, positions_where};
use sha2::Digest;
use crate::order::{sorted_distinct_strings, str_increasing, str_views};
use crate::text::{chars_of, slice_chars, string_of};

verus! {

/// The `k`-character windows of `c`, in order.
pub open spec fn windows(c: Seq<char>, k: int) -> Seq<Seq<char>> {
    Seq::new((c.len() - k + 1) as nat, |i: int| c.subrange(i, i + k))
}

/// The shingles of a text: its `k`-character windows, or the whole text
/// when it is shorter than `k`.
pub open spec fn shingle_set(text: Seq<char>, k: int) -> Set<Seq<char>> {
    if text.len() < k {
        set![text]
    } else {
        windows(text, k).to_set()
    }
}

/// Character `k`-shingles of `text`, ascending, each once.
pub fn char_shingles(text: &str, k: usize) -> (r: Vec<String>)
    requires
        k > 0,
    ensures
        str_increasing(str_views(r@)),
        str_views(r@).to_set() == shingle_set(text@, k as int),
{
    let c = chars_of(text);
    let mut all: Vec<String> = Vec::new();
    if c.len() < k {
        all.push(string_of(c.as_slice()));
        let r = sorted_distinct_strings(all.as_slice());
        assert(str_views(all@) =~= seq![text@]);
        assert(seq![text@].to_set() =~= set![text@]) by {
            assert(seq![text@][0] == text@);
        }
        return r;
    }
    let n = c.len() - k + 1;
    let mut i: usize = 0;
    while i < n
        invariant
            c@ == text@,
            c@.len() == c.len(),
            k <= c@.len(),
            n == c@.len() - k + 1,
            i <= n,
            str_views(all@) == windows(text@, k as int).take(i as int),
        decreases n - i,
    {
        assert(i + k <= c@.len());
        let w = slice_chars(c.as_slice(), i, i + k);
        let s = string_of(w.as_slice());
        let ghost before = all@;
        all.push(s);
        proof {
            assert(str_views(all@) =~= str_views(before).push(s@));
            assert(windows(text@, k as int).take(i + 1) =~= windows(text@, k as int).take(i as int).push(
                windows(text@, k as int)[i as int],
            ));
        }
        i = i + 1;
    }
    assert(windows(text@, k as int).take(n as int) =~= windows(text@, k as int));
    sorted_distinct_strings(all.as_slice())
}

/// How many of the first `n` shingles of `a` also occur in `b`.
pub open spec fn shared_count(a: Seq<Seq<char>>, b: Seq<Seq<char>>, n: int) -> nat
    decreases n,
{
    if n <= 0 {
        0
    } else {
        shared_count(a, b, n - 1) + if b.contains(a[n - 1]) {
            1nat
        } else {
            0nat
        }
    }
}

fn holds_string(b: &[String], x: &String) -> (r: bool)
    ensures
        r == str_views(b@).contains(x@),
{
    let mut k: usize = 0;
    while k < b.len()
        invariant
            k <= b@.len(),
            forall|j: int| 0 <= j < k ==> (#[trigger] b@[j])@ != x@,
        decreases b.len() - k,
    {
        if crate::text::str_eq(b[k].as_str(), x.as_str()) {
            assert(str_views(b@)[k as int] == x@);
            return true;
        }
        k = k + 1;
    }
    proof {
        if str_views(b@).contains(x@) {
            let j = choose|j: int| 0 <= j < str_views(b@).len() && str_views(b@)[j] == x@;
            assert(b@[j]@ == x@);
        }
    }
    false
}

/// Exact overlap of two shingle sets (each listed once): the shared
/// shingles and the size of the union (at least one).
pub fn shingle_overlap(a: &[String], b: &[String]) -> (r: (usize, usize))
    requires
        a@.len() + b@.len() <= usize::MAX,
    ensures
        r.0 == shared_count(str_views(a@), str_views(b@), a@.len() as int),
        r.0 == positions_where(shared_positions(str_views(a@), str_views(b@)), a@.len() as int).len(),
        r.1 == (if a@.len() + b@.len() - r.0 >= 1 {
            a@.len() + b@.len() - r.0
        } else {
            1
        }),
{
    proof {
        shared_count_law(str_views(a@), str_views(b@), a@.len() as int);
    }
    let mut shared: usize = 0;
    let mut i: usize = 0;
    while i < a.len()
        invariant
            i <= a@.len(),
            shared <= i,
            shared == shared_count(str_views(a@), str_views(b@), i as int),
        decreases a.len() - i,
    {
        if holds_string(b, &a[i]) {
            shared = shared + 1;
        }
        i = i + 1;
    }
    let total: usize = a.len() + b.len() - shared;
    let union: usize = if total >= 1 {
        total
    } else {
        1
    };
    (shared, union)
}


/// Lowercase hexadecimal SHA-256 digest of the UTF-8 encoding of `text`.
pub uninterp spec fn sha256_hex_of(text: Seq<char>) -> Seq<char>;

/// A lowercase hexadecimal digit.
pub open spec fn is_hex_digit(c: char) -> bool {
    ('0' <= c && c <= '9') || ('a' <= c && c <= 'f')
}

/// Value of a lowercase hexadecimal digit.
pub open spec fn hex_digit_value(c: char) -> nat {
    if '0' <= c && c <= '9' {
        (c as int - '0' as int) as nat
    } else {
        (c as int - 'a' as int + 10) as nat
    }
}

/// Value of a string of hexadecimal digits.
pub open spec fn hex_value(s: Seq<char>) -> nat
    decreases s.len(),
{
    if s.len() == 0 {
        0
    } else {
        hex_value(s.drop_last()) * 16 + hex_digit_value(s.last())
    }
}

/// `sha2::Sha256::digest` of the text's UTF-8 bytes, rendered with `{:x}`
/// (generic-array's `LowerHex`: two lowercase digits per byte). Claims:
/// the result is `sha256_hex_of(text)`, sixty-four characters long, every
/// one a lowercase hexadecimal digit.
#[verifier::external_body]
pub(crate) fn sha256_hex(text: &str) -> (r: String)
    ensures
        r@ == sha256_hex_of(text@),
        r@.len() == 64,
        forall|i: int| 0 <= i < 64 ==> is_hex_digit(#[trigger] r@[i]),
{
    format!("{:x}", sha2::Sha256::digest(text.as_bytes()))
}

/// `16^n`.
pub open spec fn pow16(n: nat) -> nat
    decreases n,
{
    if n == 0 {
        1
    } else {
        16 * pow16((n - 1) as nat)
    }
}

proof fn lemma_pow16_grows(a: nat, b: nat)
    requires
        a <= b,
    ensures
        pow16(a) <= pow16(b),
    decreases b,
{
    if a < b {
        lemma_pow16_grows(a, (b - 1) as nat);
    }
}

proof fn lemma_hex_bound(s: Seq<char>)
    requires
        forall|i: int| 0 <= i < s.len() ==> is_hex_digit(#[trigger] s[i]),
    ensures
        hex_value(s) < pow16(s.len()),
    decreases s.len(),
{
    if s.len() > 0 {
        let p = s.drop_last();
        assert forall|i: int| 0 <= i < p.len() implies is_hex_digit(#[trigger] p[i]) by {
            assert(p[i] == s[i]);
        }
        lemma_hex_bound(p);
        assert(is_hex_digit(s[s.len() - 1]));
        let a = hex_value(p);
        let d = hex_digit_value(s.last());
        let q = pow16(p.len());
        assert(d < 16);
        assert(a * 16 + d < q * 16) by (nonlinear_arith)
            requires
                a < q,
                d < 16,
        ;
    }
}

/// Slot value of one shingle under seed `i`: the first sixteen hex digits
/// of `sha256("<i>:<shingle>")`, as a number.
pub open spec fn slot_value(i: nat, shingle: Seq<char>) -> nat {
    hex_value(sha256_hex_of(crate::text::decimal(i) + ":"@ + shingle).take(16))
}

/// Minimum slot value over the first `n` shingles (`u64::MAX` for none).
pub open spec fn slot_min(shingles: Seq<Seq<char>>, i: nat, n: int) -> nat
    decreases n,
{
    if n <= 0 {
        u64::MAX as nat
    } else {
        let prev = slot_min(shingles, i, n - 1);
        let v = slot_value(i, shingles[n - 1]);
        if v < prev {
            v
        } else {
            prev
        }
    }
}

/// The running minimum is at most `u64::MAX` and every slot value seen, and
/// is `u64::MAX` or one of them.
proof fn lemma_slot_min_bounds(s: Seq<Seq<char>>, i: nat, n: int)
    requires
        0 <= n <= s.len(),
    ensures
        slot_min(s, i, n) <= u64::MAX,
        forall|k: int| 0 <= k < n ==> slot_min(s, i, n) <= #[trigger] slot_value(i, s[k]),
        slot_min(s, i, n) == u64::MAX || exists|k: int|
            0 <= k < n && slot_min(s, i, n) == #[trigger] slot_value(i, s[k]),
    decreases n,
{
    if n > 0 {
        lemma_slot_min_bounds(s, i, n - 1);
        if slot_min(s, i, n) != u64::MAX && slot_min(s, i, n) != slot_value(i, s[n - 1]) {
            let k = choose|k: int| 0 <= k < n - 1 && slot_min(s, i, n - 1) == #[trigger] slot_value(i, s[k]);
            assert(0 <= k < n && slot_min(s, i, n) == slot_value(i, s[k]));
        }
    }
}

/// MinHash of nothing: with no shingle, every slot is `u64::MAX`.
pub proof fn minhash_slot_empty(shingles: Seq<Seq<char>>, i: nat)
    requires
        shingles.len() == 0,
    ensures
        slot_min(shingles, i, shingles.len() as int) == u64::MAX,
{
}

/// MinHash of a union: when the shingles of `c` are those of `a` and `b`
/// together, each slot of `c` is the lesser of the slots of `a` and `b`.
pub proof fn minhash_slot_union(a: Seq<Seq<char>>, b: Seq<Seq<char>>, c: Seq<Seq<char>>, i: nat)
    requires
        c.to_set() == a.to_set().union(b.to_set()),
    ensures
        slot_min(c, i, c.len() as int) == (if slot_min(a, i, a.len() as int) <= slot_min(
            b,
            i,
            b.len() as int,
        ) {
            slot_min(a, i, a.len() as int)
        } else {
            slot_min(b, i, b.len() as int)
        }),
{
    lemma_slot_min_bounds(a, i, a.len() as int);
    lemma_slot_min_bounds(b, i, b.len() as int);
    lemma_slot_min_bounds(c, i, c.len() as int);
    let ma = slot_min(a, i, a.len() as int);
    let mb = slot_min(b, i, b.len() as int);
    let mc = slot_min(c, i, c.len() as int);
    if ma != u64::MAX {
        let k = choose|k: int| 0 <= k < a.len() && ma == #[trigger] slot_value(i, a[k]);
        assert(a.contains(a[k]));
        assert(c.to_set().contains(a[k]));
        let j = choose|j: int| 0 <= j < c.len() && c[j] == a[k];
        assert(mc <= slot_value(i, c[j]));
    }
    if mb != u64::MAX {
        let k = choose|k: int| 0 <= k < b.len() && mb == #[trigger] slot_value(i, b[k]);
        assert(b.contains(b[k]));
        assert(c.to_set().contains(b[k]));
        let j = choose|j: int| 0 <= j < c.len() && c[j] == b[k];
        assert(mc <= slot_value(i, c[j]));
    }
    if mc != u64::MAX {
        let j = choose|j: int| 0 <= j < c.len() && mc == #[trigger] slot_value(i, c[j]);
        assert(c.contains(c[j]));
        assert(a.to_set().union(b.to_set()).contains(c[j]));
        if a.contains(c[j]) {
            let k = choose|k: int| 0 <= k < a.len() && a[k] == c[j];
            assert(ma <= slot_value(i, a[k]));
        } else {
            let k = choose|k: int| 0 <= k < b.len() && b[k] == c[j];
            assert(mb <= slot_value(i, b[k]));
        }
    }
}

/// MinHash depends on the shingle set alone: two lists with the same
/// shingles, in any order and with any repetition, get the same slots.
pub proof fn minhash_slot_set_determined(a: Seq<Seq<char>>, b: Seq<Seq<char>>, i: nat)
    requires
        a.to_set() == b.to_set(),
    ensures
        slot_min(a, i, a.len() as int) == slot_min(b, i, b.len() as int),
{
    assert(a.to_set().union(a.to_set()) =~= a.to_set());
    minhash_slot_union(a, a, b, i);
}

fn slot_of(i: u64, shingle: &str) -> (r: u64)
    ensures
        r == slot_value(i as nat, shingle@),
{
    let mut key = crate::text::decimal_string(i);
    crate::text::append_str(&mut key, ":");
    crate::text::append_str(&mut key, shingle);
    let digest = sha256_hex(key.as_str());
    let d = chars_of(digest.as_str());
    let ghost head = d@.take(16);
    let mut v: u64 = 0;
    let mut k: usize = 0;
    proof {
        reveal_with_fuel(pow16, 17);
        assert(pow16(16) == 0x1_0000_0000_0000_0000);
    }
    while k < 16
        invariant
            k <= 16,
            d@ == digest@,
            d@.len() == 64,
            forall|j: int| 0 <= j < 64 ==> is_hex_digit(#[trigger] d@[j]),
            v == hex_value(d@.take(k as int)),
            pow16(16) == 0x1_0000_0000_0000_0000,
        decreases 16 - k,
    {
        let c = d[k];
        let digit: u64 = if '0' <= c && c <= '9' {
            (c as u64) - ('0' as u64)
        } else {
            (c as u64) - ('a' as u64) + 10
        };
        proof {
            let t = d@.take(k + 1);
            assert(t.drop_last() =~= d@.take(k as int));
            assert(t.last() == c);
            assert forall|j: int| 0 <= j < t.len() implies is_hex_digit(#[trigger] t[j]) by {
                assert(t[j] == d@[j]);
            }
            lemma_hex_bound(t);
            lemma_pow16_grows((k + 1) as nat, 16);
        }
        v = v * 16 + digit;
        k = k + 1;
    }
    proof {
        reveal_strlit(":");
    }
    v
}

/// MinHash signature of a shingle set: for each of the sixty-four seeds,
/// the least slot value over the shingles.
pub fn minhash_signature(shingles: &[String]) -> (r: Vec<u64>)
    ensures
        r@.len() == 64,
        forall|i: int| 0 <= i < 64 ==> #[trigger] r@[i] == slot_min(str_views(shingles@), i as nat, shingles@.len() as int),
{
    let mut sig: Vec<u64> = Vec::new();
    let mut i: u64 = 0;
    while i < 64
        invariant
            i <= 64,
            sig@.len() == i,
            forall|j: int| 0 <= j < i ==> #[trigger] sig@[j] == slot_min(str_views(shingles@), j as nat, 0),
        decreases 64 - i,
    {
        sig.push(u64::MAX);
        i = i + 1;
    }
    let mut n: usize = 0;
    while n < shingles.len()
        invariant
            n <= shingles@.len(),
            sig@.len() == 64,
            forall|j: int| 0 <= j < 64 ==> #[trigger] sig@[j] == slot_min(str_views(shingles@), j as nat, n as int),
        decreases shingles.len() - n,
    {
        let mut s: usize = 0;
        while s < 64
            invariant
                s <= 64,
                n < shingles@.len(),
                sig@.len() == 64,
                forall|j: int| 0 <= j < s ==> #[trigger] sig@[j] == slot_min(str_views(shingles@), j as nat, n + 1),
                forall|j: int| s <= j < 64 ==> #[trigger] sig@[j] == slot_min(str_views(shingles@), j as nat, n as int),
            decreases 64 - s,
        {
            let v = slot_of(s as u64, shingles[n].as_str());
            assert(str_views(shingles@)[n as int] == shingles@[n as int]@);
            if v < sig[s] {
                sig.set(s, v);
            }
            s = s + 1;
        }
        n = n + 1;
    }
    sig
}


/// Slots among the first `n` where two signatures agree.
pub open spec fn agreement(a: Seq<u64>, b: Seq<u64>, n: int) -> nat
    decreases n,
{
    if n <= 0 {
        0
    } else {
        agreement(a, b, n - 1) + if a[n - 1] == b[n - 1] {
            1nat
        } else {
            0nat
        }
    }
}

/// The slots where two signatures hold the same value.
pub open spec fn agreeing_slots(a: Seq<u64>, b: Seq<u64>) -> spec_fn(int) -> bool {
    |k: int| a[k] == b[k]
}

/// Signature agreement counts the slots (among the first `n`) where the
/// two signatures hold the same value.
pub proof fn agreement_law(a: Seq<u64>, b: Seq<u64>, n: int)
    requires
        0 <= n,
    ensures
        agreement(a, b, n) == positions_where(agreeing_slots(a, b), n).len(),
    decreases n,
{
    lemma_positions_step(agreeing_slots(a, b), 0);
    if n > 0 {
        agreement_law(a, b, n - 1);
        lemma_positions_step(agreeing_slots(a, b), n - 1);
    }
}

/// The shingles of `a` that also occur in `b`.
pub open spec fn shared_positions(a: Seq<Seq<char>>, b: Seq<Seq<char>>) -> spec_fn(int) -> bool {
    |k: int| b.contains(a[k])
}

/// The shared count is the number of shingles of `a` (among the first
/// `n`) that also occur in `b`.
pub proof fn shared_count_law(a: Seq<Seq<char>>, b: Seq<Seq<char>>, n: int)
    requires
        0 <= n,
    ensures
        shared_count(a, b, n) == positions_where(shared_positions(a, b), n).len(),
    decreases n,
{
    lemma_positions_step(shared_positions(a, b), 0);
    if n > 0 {
        shared_count_law(a, b, n - 1);
        lemma_positions_step(shared_positions(a, b), n - 1);
    }
}

/// Slots where two signatures agree.
pub fn signature_agreement(a: &[u64], b: &[u64]) -> (r: usize)
    requires
        a@.len() == b@.len(),
    ensures
        r == agreement(a@, b@, a@.len() as int),
        r == positions_where(agreeing_slots(a@, b@), a@.len() as int).len(),
{
    proof {
        agreement_law(a@, b@, a@.len() as int);
    }
    let mut r: usize = 0;
    let mut i: usize = 0;
    while i < a.len()
        invariant
            i <= a@.len() == b@.len(),
            r <= i,
            r == agreement(a@, b@, i as int),
        decreases a.len() - i,
    {
        if a[i] == b[i] {
            r = r + 1;
        }
        i = i + 1;
    }
    r
}

/// A pair that passed the signature prefilter, with its exact overlap.
#[derive(Debug, Clone, Copy, PartialEq, Eq)]
pub struct Candidate {
    /// Index of the first passage.
    pub first: usize,
    /// Index of the second passage (greater than `first`).
    pub second: usize,
    /// Shingles the two share.
    pub shared: usize,
    /// Size of the union of their shingle sets (at least one).
    pub union: usize,
}

/// The candidate of pair `(i, j)` when at least half the signature slots
/// agree.
pub open spec fn candidate_of(sets: Seq<Vec<String>>, sigs: Seq<Vec<u64>>, i: int, j: int) -> Seq<Candidate> {
    if agreement(sigs[i]@, sigs[j]@, 64) >= 32 {
        let shared = shared_count(str_views(sets[i]@), str_views(sets[j]@), sets[i]@.len() as int);
        let total = sets[i]@.len() + sets[j]@.len() - shared;
        seq![
            Candidate {
                first: i as usize,
                second: j as usize,
                shared: shared as usize,
                union: (if total >= 1 {
                    total
                } else {
                    1
                }) as usize,
            },
        ]
    } else {
        Seq::empty()
    }
}

/// Candidates among pairs from `(i, j)` on, pairs in order (`i < j`, by
/// `i` then `j`).
pub open spec fn candidates_from(sets: Seq<Vec<String>>, sigs: Seq<Vec<u64>>, i: int, j: int) -> Seq<Candidate>
    decreases sets.len() - i, sets.len() - j,
{
    if i < 0 || i >= sets.len() || j < 0 {
        Seq::empty()
    } else if j >= sets.len() {
        candidates_from(sets, sigs, i + 1, i + 2)
    } else {
        candidate_of(sets, sigs, i, j) + candidates_from(sets, sigs, i, j + 1)
    }
}


/// Passages `a` and `b` pass the signature prefilter: their signatures
/// agree on at least thirty-two of the sixty-four slots.
pub open spec fn pair_passes(sigs: Seq<Vec<u64>>, a: int, b: int) -> bool {
    agreement(sigs[a]@, sigs[b]@, 64) >= 32
}

/// A candidate carries the exact overlap of its two passages: the
/// shingles they share and the size of their union (at least one).
pub open spec fn exact_overlap(sets: Seq<Vec<String>>, c: Candidate) -> bool {
    let a = str_views(sets[c.first as int]@);
    let b = str_views(sets[c.second as int]@);
    let shared = shared_count(a, b, a.len() as int);
    &&& c.shared == shared as usize
    &&& c.union == (if a.len() + b.len() - shared >= 1 {
        a.len() + b.len() - shared
    } else {
        1
    }) as usize
}

/// Pair `(a, b)` comes at or after pair `(i, j)` in pair order.
pub open spec fn pair_at_or_after(a: int, b: int, i: int, j: int, n: int) -> bool {
    (a == i && j <= b && b < n) || (i < a && a < b && b < n)
}

/// Candidate `c` comes strictly before candidate `d` in pair order.
pub open spec fn pair_before(c: Candidate, d: Candidate) -> bool {
    c.first < d.first || (c.first == d.first && c.second < d.second)
}

proof fn lemma_candidates_from(sets: Seq<Vec<String>>, sigs: Seq<Vec<u64>>, i: int, j: int)
    requires
        sets.len() == sigs.len(),
        sets.len() <= usize::MAX,
        0 <= i < sets.len(),
        i + 1 <= j <= sets.len(),
    ensures
        forall|k: int|
            0 <= k < candidates_from(sets, sigs, i, j).len() ==> {
                let c = #[trigger] candidates_from(sets, sigs, i, j)[k];
                &&& pair_at_or_after(c.first as int, c.second as int, i, j, sets.len() as int)
                &&& pair_passes(sigs, c.first as int, c.second as int)
                &&& exact_overlap(sets, c)
            },
        forall|k: int, l: int|
            0 <= k < l < candidates_from(sets, sigs, i, j).len() ==> pair_before(
                #[trigger] candidates_from(sets, sigs, i, j)[k],
                #[trigger] candidates_from(sets, sigs, i, j)[l],
            ),
        forall|a: int, b: int|
            pair_at_or_after(a, b, i, j, sets.len() as int) && #[trigger] pair_passes(sigs, a, b) ==> exists|k: int|
                0 <= k < candidates_from(sets, sigs, i, j).len() && (#[trigger] candidates_from(sets, sigs, i, j)[k]).first
                    == a && candidates_from(sets, sigs, i, j)[k].second == b,
    decreases sets.len() - i, sets.len() - j,
{
    let n = sets.len() as int;
    let res = candidates_from(sets, sigs, i, j);
    if j >= n {
        if i + 1 < n {
            lemma_candidates_from(sets, sigs, i + 1, i + 2);
            let rest = candidates_from(sets, sigs, i + 1, i + 2);
            assert(res == rest);
            assert forall|k: int| 0 <= k < res.len() implies {
                let c = #[trigger] res[k];
                &&& pair_at_or_after(c.first as int, c.second as int, i, j, n)
                &&& pair_passes(sigs, c.first as int, c.second as int)
                &&& exact_overlap(sets, c)
            } by {
                assert(res[k] == rest[k]);
            }
            assert forall|k: int, l: int| 0 <= k < l < res.len() implies pair_before(
                #[trigger] res[k],
                #[trigger] res[l],
            ) by {
                assert(res[k] == rest[k] && res[l] == rest[l]);
            }
            assert forall|a: int, b: int|
                pair_at_or_after(a, b, i, j, n) && #[trigger] pair_passes(sigs, a, b) implies exists|k: int|
                    0 <= k < res.len() && (#[trigger] res[k]).first == a && res[k].second == b by {
                assert(pair_at_or_after(a, b, i + 1, i + 2, n));
            }
        } else {
            assert(candidates_from(sets, sigs, i + 1, i + 2).len() == 0);
            assert(res.len() == 0);
        }
    } else {
        lemma_candidates_from(sets, sigs, i, j + 1);
        let head = candidate_of(sets, sigs, i, j);
        let tail = candidates_from(sets, sigs, i, j + 1);
        assert(res == head + tail);
        assert forall|k: int| 0 <= k < res.len() implies {
            let c = #[trigger] res[k];
            &&& pair_at_or_after(c.first as int, c.second as int, i, j, n)
            &&& pair_passes(sigs, c.first as int, c.second as int)
            &&& exact_overlap(sets, c)
        } by {
            if k >= head.len() {
                assert(res[k] == tail[k - head.len()]);
            } else {
                let c = head[0];
                assert(res[k] == c);
                assert(c.first as int == i && c.second as int == j);
                assert(str_views(sets[i]@).len() == sets[i]@.len());
                assert(str_views(sets[j]@).len() == sets[j]@.len());
                assert(exact_overlap(sets, c));
            }
        }
        assert forall|k: int, l: int| 0 <= k < l < res.len() implies pair_before(
            #[trigger] res[k],
            #[trigger] res[l],
        ) by {
            if k >= head.len() {
                assert(res[k] == tail[k - head.len()]);
                assert(res[l] == tail[l - head.len()]);
            } else {
                assert(res[l] == tail[l - head.len()]);
            }
        }
        assert forall|a: int, b: int|
            pair_at_or_after(a, b, i, j, n) && #[trigger] pair_passes(sigs, a, b) implies exists|k: int|
                0 <= k < res.len() && (#[trigger] res[k]).first == a && res[k].second == b by {
            if a == i && b == j {
                assert(res[0] == head[0]);
            } else {
                assert(pair_at_or_after(a, b, i, j + 1, n));
                let k = choose|k: int| 0 <= k < tail.len() && (#[trigger] tail[k]).first == a && tail[k].second == b;
                assert(res[k + head.len()] == tail[k]);
            }
        }
    }
}

/// The near-duplicate candidates are exactly the pairs `i < j` whose
/// signatures agree on at least thirty-two of the sixty-four slots: every
/// such pair is reported (each once, in pair order), no other pair is,
/// and each carries its exact shingle overlap.
pub proof fn near_duplicate_pairs_law(sets: Seq<Vec<String>>, sigs: Seq<Vec<u64>>)
    requires
        sets.len() == sigs.len(),
        sets.len() <= usize::MAX,
    ensures
        forall|k: int|
            0 <= k < candidates_from(sets, sigs, 0, 1).len() ==> {
                let c = #[trigger] candidates_from(sets, sigs, 0, 1)[k];
                &&& c.first < c.second < sets.len()
                &&& pair_passes(sigs, c.first as int, c.second as int)
                &&& exact_overlap(sets, c)
            },
        forall|k: int, l: int|
            0 <= k < l < candidates_from(sets, sigs, 0, 1).len() ==> pair_before(
                #[trigger] candidates_from(sets, sigs, 0, 1)[k],
                #[trigger] candidates_from(sets, sigs, 0, 1)[l],
            ),
        forall|a: int, b: int|
            0 <= a < b < sets.len() && #[trigger] pair_passes(sigs, a, b) ==> exists|k: int|
                0 <= k < candidates_from(sets, sigs, 0, 1).len() && (#[trigger] candidates_from(sets, sigs, 0, 1)[k]).first
                    == a && candidates_from(sets, sigs, 0, 1)[k].second == b,
{
    if sets.len() > 0 {
        lemma_candidates_from(sets, sigs, 0, 1);
        assert forall|a: int, b: int|
            0 <= a < b < sets.len() && #[trigger] pair_passes(sigs, a, b) implies exists|k: int|
                0 <= k < candidates_from(sets, sigs, 0, 1).len() && (#[trigger] candidates_from(sets, sigs, 0, 1)[k]).first
                    == a && candidates_from(sets, sigs, 0, 1)[k].second == b by {
            assert(pair_at_or_after(a, b, 0, 1, sets.len() as int));
        }
    } else {
        assert(candidates_from(sets, sigs, 0, 1).len() == 0);
    }
}

/// Every pair of passages (shingle sets with their signatures) whose
/// signatures agree on at least thirty-two of the sixty-four slots, with the
/// exact overlap that verifies it.
pub fn near_duplicate_candidates(sets: &[Vec<String>], sigs: &[Vec<u64>]) -> (r: Vec<Candidate>)
    requires
        sets@.len() == sigs@.len(),
        forall|k: int| 0 <= k < sigs@.len() ==> (#[trigger] sigs@[k])@.len() == 64,
        forall|a: int, b: int|
            0 <= a < sets@.len() && 0 <= b < sets@.len() ==> (#[trigger] sets@[a])@.len() + (
            #[trigger] sets@[b])@.len() <= usize::MAX,
    ensures
        r@ == candidates_from(sets@, sigs@, 0, 1),
        forall|k: int|
            0 <= k < r@.len() ==> {
                let c = #[trigger] r@[k];
                &&& c.first < c.second < sets@.len()
                &&& pair_passes(sigs@, c.first as int, c.second as int)
                &&& exact_overlap(sets@, c)
            },
        forall|k: int, l: int| 0 <= k < l < r@.len() ==> pair_before(#[trigger] r@[k], #[trigger] r@[l]),
        forall|a: int, b: int|
            0 <= a < b < sets@.len() && #[trigger] pair_passes(sigs@, a, b) ==> exists|k: int|
                0 <= k < r@.len() && (#[trigger] r@[k]).first == a && r@[k].second == b,
{
    proof {
        assert(sets@.len() == sets.len());
        near_duplicate_pairs_law(sets@, sigs@);
    }
    let n = sets.len();
    let mut r: Vec<Candidate> = Vec::new();
    let mut i: usize = 0;
    while i < n
        invariant
            n == sets@.len() == sigs@.len(),
            i <= n,
            forall|k: int| 0 <= k < sigs@.len() ==> (#[trigger] sigs@[k])@.len() == 64,
            forall|a: int, b: int|
                0 <= a < sets@.len() && 0 <= b < sets@.len() ==> (#[trigger] sets@[a])@.len() + (
                #[trigger] sets@[b])@.len() <= usize::MAX,
            r@ + candidates_from(sets@, sigs@, i as int, i + 1) == candidates_from(sets@, sigs@, 0, 1),
        decreases n - i,
    {
        let mut j: usize = i + 1;
        while j < n
            invariant
                n == sets@.len() == sigs@.len(),
                i < n,
                i + 1 <= j <= n,
                forall|k: int| 0 <= k < sigs@.len() ==> (#[trigger] sigs@[k])@.len() == 64,
                forall|a: int, b: int|
                    0 <= a < sets@.len() && 0 <= b < sets@.len() ==> (#[trigger] sets@[a])@.len() + (
                    #[trigger] sets@[b])@.len() <= usize::MAX,
                r@ + candidates_from(sets@, sigs@, i as int, j as int) == candidates_from(sets@, sigs@, 0, 1),
            decreases n - j,
        {
            let ghost before = r@;
            let agree = signature_agreement(sigs[i].as_slice(), sigs[j].as_slice());
            if agree >= 32 {
                let (shared, union) = shingle_overlap(sets[i].as_slice(), sets[j].as_slice());
                r.push(Candidate { first: i, second: j, shared, union });
            }
            proof {
                assert(r@ =~= before + candidate_of(sets@, sigs@, i as int, j as int));
                assert(r@ + candidates_from(sets@, sigs@, i as int, j + 1) =~= before + candidates_from(
                    sets@,
                    sigs@,
                    i as int,
                    j as int,
                ));
            }
            j = j + 1;
        }
        proof {
            assert(candidates_from(sets@, sigs@, i as int, n as int) == candidates_from(
                sets@,
                sigs@,
                i + 1,
                i + 2,
            ));
        }
        i = i + 1;
    }
    r
}

} // verus!
