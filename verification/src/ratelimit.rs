//! Sliding-window rate limiter for regex search: per principal, at most
//! `max_per_minute` admitted requests in any 60-second window.

use vstd::prelude::*;
use crate::serving::SearchError;
use crate::text::{owned, str_eq};

verus! {

/// `std::time::Instant`, carried opaquely.
#[verifier::external_type_specification]
#[verifier::external_body]
pub struct ExInstant(std::time::Instant);

/// `Instant::now()`: the current monotonic time. Nothing is claimed of it.
#[verifier::external_body]
fn instant_now() -> std::time::Instant {
    std::time::Instant::now()
}

/// `Instant::elapsed`: the time since `origin`. Depends on the clock:
/// nothing is claimed of it.
#[verifier::external_body]
fn elapsed_since(origin: &std::time::Instant) -> std::time::Duration {
    origin.elapsed()
}

/// `Duration::as_nanos`: the whole nanoseconds of `d`. `Duration` is opaque
/// here, so nothing is claimed of the number.
#[verifier::external_body]
fn duration_nanos(d: &std::time::Duration) -> u128 {
    d.as_nanos()
}

/// Nanoseconds in one second.
pub const NANOS_PER_SEC: u64 = 1_000_000_000;

/// Sliding-window rate limiter. Times are nanoseconds since the limiter
/// was made.
#[derive(Debug)]
pub struct RateLimiter {
    max_per_minute: u32,
    origin: std::time::Instant,
    last: u64,
    windows: Vec<(String, Vec<u64>)>,
}

/// Whole seconds from `t` to `now` (zero when `now` is earlier).
pub open spec fn secs_between(t: u64, now: u64) -> int {
    if now >= t {
        (now - t) as int / NANOS_PER_SEC as int
    } else {
        0
    }
}

/// A request at `t` no longer counts at `now`.
pub open spec fn expired(t: u64, now: u64) -> bool {
    secs_between(t, now) >= 60
}

/// Window with the expired requests dropped from its front.
pub open spec fn prune(w: Seq<u64>, now: u64) -> Seq<u64>
    decreases w.len(),
{
    if w.len() > 0 && expired(w[0], now) {
        prune(w.drop_first(), now)
    } else {
        w
    }
}

/// Index of the first window of principal `p` at or after `i`.
pub open spec fn key_index(ws: Seq<(String, Vec<u64>)>, p: Seq<char>, i: int) -> Option<int>
    decreases ws.len() - i,
{
    if i < 0 || i >= ws.len() {
        None
    } else if ws[i].0@ == p {
        Some(i)
    } else {
        key_index(ws, p, i + 1)
    }
}

/// Request times of principal `p` (empty for a principal never seen).
pub open spec fn window_of(ws: Seq<(String, Vec<u64>)>, p: Seq<char>) -> Seq<u64> {
    match key_index(ws, p, 0) {
        Some(j) => ws[j].1@,
        None => Seq::empty(),
    }
}

/// Seconds until the oldest counted request of `w` leaves the window.
pub open spec fn retry_after(w: Seq<u64>, now: u64) -> int {
    if w.len() == 0 {
        60
    } else if secs_between(w[0], now) >= 60 {
        0
    } else {
        60 - secs_between(w[0], now)
    }
}

proof fn lemma_key_index_same_keys(
    a: Seq<(String, Vec<u64>)>,
    b: Seq<(String, Vec<u64>)>,
    p: Seq<char>,
    i: int,
)
    requires
        a.len() == b.len(),
        forall|k: int| 0 <= k < a.len() ==> (#[trigger] a[k]).0@ == b[k].0@,
        0 <= i,
    ensures
        key_index(a, p, i) == key_index(b, p, i),
    decreases a.len() - i,
{
    if i < a.len() {
        lemma_key_index_same_keys(a, b, p, i + 1);
    }
}

proof fn lemma_key_index_push(a: Seq<(String, Vec<u64>)>, x: (String, Vec<u64>), p: Seq<char>, i: int)
    requires
        x.0@ != p,
        0 <= i,
    ensures
        key_index(a.push(x), p, i) == key_index(a, p, i),
    decreases a.len() + 1 - i,
{
    if i < a.len() {
        assert(a.push(x)[i] == a[i]);
        lemma_key_index_push(a, x, p, i + 1);
    } else if i == a.len() {
        assert(a.push(x)[i] == x);
        assert(key_index(a.push(x), p, i + 1) is None);
    }
}

proof fn lemma_key_index_found(ws: Seq<(String, Vec<u64>)>, p: Seq<char>, i: int)
    requires
        0 <= i,
    ensures
        key_index(ws, p, i) matches Some(j) ==> i <= j < ws.len() && ws[j].0@ == p,
        key_index(ws, p, i) is None ==> forall|k: int| i <= k < ws.len() ==> (#[trigger] ws[k]).0@ != p,
    decreases ws.len() - i,
{
    if i < ws.len() {
        lemma_key_index_found(ws, p, i + 1);
    }
}

/// The state change and answer of one request of `p` at time `now`.
pub open spec fn admits(
    old_limiter: RateLimiter,
    p: Seq<char>,
    now: u64,
    r: Result<(), SearchError>,
    new_limiter: RateLimiter,
) -> bool {
    let pr = prune(old_limiter.window(p), now);
    &&& new_limiter.limit() == old_limiter.limit()
    &&& forall|q: Seq<char>| q != p ==> #[trigger] new_limiter.window(q) == old_limiter.window(q)
    &&& if pr.len() >= old_limiter.limit() {
        &&& r matches Err(SearchError::RateLimited { retry_after_secs }) && retry_after_secs
            == retry_after(pr, now)
        &&& new_limiter.window(p) == pr
    } else {
        &&& r is Ok
        &&& new_limiter.window(p) == pr.push(now)
    }
}

impl RateLimiter {
    /// A limiter always admits at least one request per minute.
    #[verifier::type_invariant]
    spec fn limit_positive(self) -> bool {
        self.max_per_minute >= 1
    }

    /// Most requests admitted per principal per minute.
    pub closed spec fn limit(&self) -> nat {
        self.max_per_minute as nat
    }

    /// The latest time a request was checked at (zero before the first).
    pub closed spec fn last_reading(&self) -> u64 {
        self.last
    }

    /// Request times of principal `p` the limiter holds.
    pub closed spec fn window(&self, p: Seq<char>) -> Seq<u64> {
        window_of(self.windows@, p)
    }

    /// Limiter admitting `max_per_minute` requests per principal (at least
    /// one), with no request seen yet.
    pub fn new(max_per_minute: u32) -> (r: RateLimiter)
        ensures
            r.limit() == (if max_per_minute == 0 {
                1
            } else {
                max_per_minute
            }),
            r.last_reading() == 0,
            forall|p: Seq<char>| #[trigger] r.window(p) == Seq::<u64>::empty(),
    {
        let max = if max_per_minute == 0 {
            1
        } else {
            max_per_minute
        };
        RateLimiter { max_per_minute: max, origin: instant_now(), last: 0, windows: Vec::new() }
    }

    /// Default limiter: ten regex searches per minute per principal.
    pub fn default_regex() -> (r: RateLimiter)
        ensures
            r.limit() == 10,
            r.last_reading() == 0,
            forall|p: Seq<char>| #[trigger] r.window(p) == Seq::<u64>::empty(),
    {
        RateLimiter::new(10)
    }

    fn find(&self, principal: &str) -> (r: Option<usize>)
        ensures
            r is None <==> key_index(self.windows@, principal@, 0) is None,
            r matches Some(j) ==> key_index(self.windows@, principal@, 0) == Some(j as int),
    {
        let mut i: usize = 0;
        while i < self.windows.len()
            invariant
                i <= self.windows.len(),
                key_index(self.windows@, principal@, 0) == key_index(
                    self.windows@,
                    principal@,
                    i as int,
                ),
            decreases self.windows.len() - i,
        {
            if str_eq(self.windows[i].0.as_str(), principal) {
                return Some(i);
            }
            i = i + 1;
        }
        None
    }

    /// Admit or refuse one request of `principal` at time `now`
    /// (nanoseconds since the limiter was made): requests 60 seconds old or
    /// older leave the window first; a full window refuses with the seconds
    /// until its oldest request leaves, else the request is recorded.
    pub fn check_at(&mut self, principal: &str, now: u64) -> (r: Result<(), SearchError>)
        ensures
            admits(*old(self), principal@, now, r, *final(self)),
            final(self).last_reading() == (if now > old(self).last_reading() {
                now
            } else {
                old(self).last_reading()
            }),
            final(self).limit() >= 1,
            r is Ok ==> final(self).window(principal@).len() <= final(self).limit(),
    {
        proof {
            use_type_invariant(&*self);
        }
        let found = self.find(principal);
        proof {
            lemma_key_index_found(self.windows@, principal@, 0);
        }
        let w: Vec<u64> = match found {
            Some(j) => self.windows[j].1.clone(),
            None => Vec::new(),
        };
        assert(w@ == window_of(self.windows@, principal@));
        let mut k: usize = 0;
        assert(w@.skip(0) =~= w@);
        while k < w.len() && now >= w[k] && (now - w[k]) / NANOS_PER_SEC >= 60
            invariant
                k <= w.len(),
                prune(w@, now) == prune(w@.skip(k as int), now),
            decreases w.len() - k,
        {
            assert(w@.skip(k as int).drop_first() =~= w@.skip(k + 1));
            k = k + 1;
        }
        let mut pruned: Vec<u64> = Vec::new();
        let mut i: usize = k;
        while i < w.len()
            invariant
                k <= i <= w.len(),
                pruned@ == w@.subrange(k as int, i as int),
            decreases w.len() - i,
        {
            pruned.push(w[i]);
            i = i + 1;
            assert(pruned@ =~= w@.subrange(k as int, i as int));
        }
        proof {
            assert(pruned@ =~= w@.skip(k as int));
            if k < w.len() {
                assert(w@.skip(k as int)[0] == w@[k as int]);
            }
            assert(prune(w@, now) == pruned@);
        }
        let ghost before = self.windows@;
        let limited = (pruned.len() as u64) >= (self.max_per_minute as u64);
        let r: Result<(), SearchError> = if limited {
            let retry = if pruned.len() == 0 {
                60
            } else if now >= pruned[0] && (now - pruned[0]) / NANOS_PER_SEC >= 60 {
                0
            } else if now >= pruned[0] {
                60 - (now - pruned[0]) / NANOS_PER_SEC
            } else {
                60
            };
            Err(SearchError::RateLimited { retry_after_secs: retry })
        } else {
            pruned.push(now);
            Ok(())
        };
        let ghost neww = pruned@;
        let mut table: Vec<(String, Vec<u64>)> = Vec::new();
        std::mem::swap(&mut table, &mut self.windows);
        assert(table@ == before);
        match found {
            Some(j) => {
                let key = owned(principal);
                table.set(j, (key, pruned));
                proof {
                    lemma_key_index_found(before, principal@, 0);
                    lemma_key_index_same_keys(table@, before, principal@, 0);
                    assert forall|q: Seq<char>| q != principal@ implies #[trigger] window_of(
                        table@,
                        q,
                    ) == window_of(before, q) by {
                        lemma_key_index_same_keys(table@, before, q, 0);
                        lemma_key_index_found(before, q, 0);
                    }
                }
            },
            None => {
                let key = owned(principal);
                table.push((key, pruned));
                proof {
                    lemma_key_index_found(before, principal@, 0);
                    assert(table@ == before.push((key, pruned)));
                    lemma_key_index_push_new(before, (key, pruned), principal@, 0);
                    assert forall|q: Seq<char>| q != principal@ implies #[trigger] window_of(
                        table@,
                        q,
                    ) == window_of(before, q) by {
                        lemma_key_index_push(before, (key, pruned), q, 0);
                        assert(table@ == before.push((key, pruned)));
                        lemma_key_index_found(before, q, 0);
                    }
                }
            },
        }
        self.windows = table;
        if now > self.last {
            self.last = now;
        }
        r
    }

    /// Admit or refuse one request of `principal` now (see `check_at`): the
    /// time is the clock reading since the limiter was made, never earlier
    /// than the last request checked, and is kept as the new last reading.
    pub fn check(&mut self, principal: &str) -> (r: Result<(), SearchError>)
        ensures
            final(self).last_reading() >= old(self).last_reading(),
            admits(*old(self), principal@, final(self).last_reading(), r, *final(self)),
            final(self).limit() >= 1,
    {
        let elapsed = elapsed_since(&self.origin);
        let nanos = duration_nanos(&elapsed);
        let reading: u64 = if nanos > 0xffff_ffff_ffff_ffffu128 {
            0xffff_ffff_ffff_ffffu64
        } else {
            nanos as u64
        };
        let now = if reading > self.last {
            reading
        } else {
            self.last
        };
        self.check_at(principal, now)
    }
}

proof fn lemma_key_index_push_new(a: Seq<(String, Vec<u64>)>, x: (String, Vec<u64>), p: Seq<char>, i: int)
    requires
        x.0@ == p,
        0 <= i <= a.len(),
        forall|k: int| i <= k < a.len() ==> (#[trigger] a[k]).0@ != p,
    ensures
        key_index(a.push(x), p, i) == Some(a.len() as int),
    decreases a.len() - i,
{
    if i < a.len() {
        assert(a.push(x)[i] == a[i]);
        lemma_key_index_push_new(a, x, p, i + 1);
    } else {
        assert(a.push(x)[i] == x);
    }
}


/// Requests of `w` that still count at `now`, in order.
pub open spec fn live(w: Seq<u64>, now: u64) -> Seq<u64>
    decreases w.len(),
{
    if w.len() == 0 {
        w
    } else if expired(w.last(), now) {
        live(w.drop_last(), now)
    } else {
        live(w.drop_last(), now).push(w.last())
    }
}

/// Times of the admitted requests of `p` among the first `k` calls of a
/// history (`calls[j]` is the principal and time of call `j`, `answers[j]`
/// what it was told).
pub open spec fn admitted_times(
    calls: Seq<(Seq<char>, u64)>,
    answers: Seq<Result<(), SearchError>>,
    k: int,
    p: Seq<char>,
) -> Seq<u64>
    decreases k,
{
    if k <= 0 {
        Seq::empty()
    } else if calls[k - 1].0 == p && answers[k - 1] is Ok {
        admitted_times(calls, answers, k - 1, p).push(calls[k - 1].1)
    } else {
        admitted_times(calls, answers, k - 1, p)
    }
}

/// Admitted requests of `p` among the first `k` calls that still count at
/// `now`: those less than sixty seconds old.
pub open spec fn counted(
    calls: Seq<(Seq<char>, u64)>,
    answers: Seq<Result<(), SearchError>>,
    k: int,
    p: Seq<char>,
    now: u64,
) -> Seq<u64> {
    live(admitted_times(calls, answers, k, p), now)
}

/// `limiters` is a run of one limiter over the calls: it starts empty, the
/// clock never goes back, and call `k` takes `limiters[k]` to
/// `limiters[k + 1]` with answer `answers[k]`.
pub open spec fn is_run(
    limiters: Seq<RateLimiter>,
    calls: Seq<(Seq<char>, u64)>,
    answers: Seq<Result<(), SearchError>>,
) -> bool {
    &&& limiters.len() == calls.len() + 1
    &&& answers.len() == calls.len()
    &&& forall|p: Seq<char>| #[trigger] limiters[0].window(p) == Seq::<u64>::empty()
    &&& forall|k: int|
        0 <= k < calls.len() ==> #[trigger] admits(
            limiters[k],
            calls[k].0,
            calls[k].1,
            answers[k],
            limiters[k + 1],
        )
    &&& forall|j: int, k: int| 0 <= j <= k < calls.len() ==> #[trigger] calls[j].1 <= #[trigger] calls[k].1
}

/// Time of the latest call of `p` among the first `k` (zero for none).
spec fn last_call(calls: Seq<(Seq<char>, u64)>, k: int, p: Seq<char>) -> u64
    decreases k,
{
    if k <= 0 {
        0
    } else if calls[k - 1].0 == p {
        calls[k - 1].1
    } else {
        last_call(calls, k - 1, p)
    }
}

/// Time of call `k - 1` (zero before the first call).
spec fn top(calls: Seq<(Seq<char>, u64)>, k: int) -> u64 {
    if k <= 0 {
        0
    } else {
        calls[k - 1].1
    }
}

spec fn ascending(w: Seq<u64>) -> bool {
    forall|i: int, j: int| 0 <= i <= j < w.len() ==> #[trigger] w[i] <= #[trigger] w[j]
}

proof fn lemma_expired_earlier(s1: u64, s2: u64, now: u64)
    requires
        s1 <= s2,
        expired(s2, now),
    ensures
        expired(s1, now),
{
    vstd::arithmetic::div_mod::lemma_div_is_ordered(
        (now - s2) as int,
        (now - s1) as int,
        NANOS_PER_SEC as int,
    );
}

proof fn lemma_expired_later(s: u64, then: u64, now: u64)
    requires
        then <= now,
        expired(s, then),
    ensures
        expired(s, now),
{
    vstd::arithmetic::div_mod::lemma_div_is_ordered(
        (then - s) as int,
        (now - s) as int,
        NANOS_PER_SEC as int,
    );
}

proof fn lemma_prune_twice(w: Seq<u64>, then: u64, now: u64)
    requires
        then <= now,
    ensures
        prune(prune(w, then), now) == prune(w, now),
    decreases w.len(),
{
    if w.len() > 0 && expired(w[0], then) {
        lemma_expired_later(w[0], then, now);
        lemma_prune_twice(w.drop_first(), then, now);
    }
}

proof fn lemma_prune_push(w: Seq<u64>, x: u64, now: u64)
    requires
        !expired(x, now),
    ensures
        prune(w.push(x), now) == prune(w, now).push(x),
    decreases w.len(),
{
    if w.len() > 0 && expired(w[0], now) {
        assert(w.push(x).drop_first() =~= w.drop_first().push(x));
        lemma_prune_push(w.drop_first(), x, now);
    } else if w.len() == 0 {
        assert(w.push(x).drop_first() =~= w);
    }
}

proof fn lemma_live_all(w: Seq<u64>, now: u64)
    requires
        forall|i: int| 0 <= i < w.len() ==> !expired(#[trigger] w[i], now),
    ensures
        live(w, now) == w,
    decreases w.len(),
{
    if w.len() > 0 {
        lemma_live_all(w.drop_last(), now);
        assert(w.drop_last().push(w.last()) =~= w);
    }
}

proof fn lemma_live_drop_first(w: Seq<u64>, now: u64)
    requires
        w.len() > 0,
        expired(w[0], now),
    ensures
        live(w, now) == live(w.drop_first(), now),
    decreases w.len(),
{
    if w.len() == 1 {
        assert(w.drop_first() =~= Seq::<u64>::empty());
        assert(w.drop_last() =~= Seq::<u64>::empty());
    } else {
        lemma_live_drop_first(w.drop_last(), now);
        assert(w.drop_last().drop_first() =~= w.drop_first().drop_last());
        assert(w.drop_first().last() == w.last());
    }
}

/// On an ascending window, dropping the expired front leaves exactly the
/// requests that still count.
proof fn lemma_prune_is_live(w: Seq<u64>, now: u64)
    requires
        ascending(w),
    ensures
        prune(w, now) == live(w, now),
    decreases w.len(),
{
    if w.len() > 0 && expired(w[0], now) {
        assert(ascending(w.drop_first())) by {
            assert forall|i: int, j: int| 0 <= i <= j < w.drop_first().len() implies #[trigger] w.drop_first()[i]
                <= #[trigger] w.drop_first()[j] by {
                assert(w[i + 1] <= w[j + 1]);
            }
        }
        lemma_prune_is_live(w.drop_first(), now);
        lemma_live_drop_first(w, now);
    } else {
        assert forall|i: int| 0 <= i < w.len() implies !expired(#[trigger] w[i], now) by {
            if expired(w[i], now) {
                assert(w[0] <= w[i]);
                lemma_expired_earlier(w[0], w[i], now);
            }
        }
        lemma_live_all(w, now);
    }
}

/// A later time counts no more requests.
proof fn lemma_live_shrinks(w: Seq<u64>, then: u64, now: u64)
    requires
        then <= now,
    ensures
        live(w, now).len() <= live(w, then).len(),
    decreases w.len(),
{
    if w.len() > 0 {
        lemma_live_shrinks(w.drop_last(), then, now);
        if expired(w.last(), then) {
            lemma_expired_later(w.last(), then, now);
        }
    }
}

/// What holds after the first `k` calls of a run, for every principal.
proof fn lemma_run_prefix(
    limiters: Seq<RateLimiter>,
    calls: Seq<(Seq<char>, u64)>,
    answers: Seq<Result<(), SearchError>>,
    k: int,
)
    requires
        is_run(limiters, calls, answers),
        0 <= k <= calls.len(),
    ensures
        limiters[k].limit() == limiters[0].limit(),
        forall|p: Seq<char>|
            #![trigger admitted_times(calls, answers, k, p)]
            {
                &&& limiters[k].window(p) == prune(admitted_times(calls, answers, k, p), last_call(calls, k, p))
                &&& ascending(admitted_times(calls, answers, k, p))
                &&& forall|i: int|
                    0 <= i < admitted_times(calls, answers, k, p).len() ==> #[trigger] admitted_times(
                        calls,
                        answers,
                        k,
                        p,
                    )[i] <= top(calls, k)
                &&& last_call(calls, k, p) <= top(calls, k)
                &&& forall|t: u64|
                    top(calls, k) <= t ==> (#[trigger] counted(calls, answers, k, p, t)).len()
                        <= limiters[0].limit()
            },
    decreases k,
{
    if k == 0 {
        assert forall|p: Seq<char>| #![trigger admitted_times(calls, answers, k, p)] {
            &&& limiters[k].window(p) == prune(admitted_times(calls, answers, k, p), last_call(calls, k, p))
            &&& ascending(admitted_times(calls, answers, k, p))
        } by {
            assert(limiters[0].window(p) == Seq::<u64>::empty());
        }
    } else {
        lemma_run_prefix(limiters, calls, answers, k - 1);
        let j = k - 1;
        let q = calls[j].0;
        let now = calls[j].1;
        assert(admits(limiters[j], calls[j].0, calls[j].1, answers[j], limiters[j + 1]));
        if j > 0 {
            assert(calls[j - 1].1 <= calls[j].1);
        }
        assert forall|p: Seq<char>| #![trigger admitted_times(calls, answers, k, p)] {
            &&& limiters[k].window(p) == prune(admitted_times(calls, answers, k, p), last_call(calls, k, p))
            &&& ascending(admitted_times(calls, answers, k, p))
            &&& forall|i: int|
                0 <= i < admitted_times(calls, answers, k, p).len() ==> #[trigger] admitted_times(
                    calls,
                    answers,
                    k,
                    p,
                )[i] <= top(calls, k)
            &&& last_call(calls, k, p) <= top(calls, k)
            &&& forall|t: u64|
                top(calls, k) <= t ==> (#[trigger] counted(calls, answers, k, p, t)).len()
                    <= limiters[0].limit()
        } by {
            let a = admitted_times(calls, answers, j, p);
            let a2 = admitted_times(calls, answers, k, p);
            assert(top(calls, j) <= now);
            if p != q {
                assert(limiters[k].window(p) == limiters[j].window(p));
                assert forall|t: u64| top(calls, k) <= t implies (#[trigger] counted(calls, answers, k, p, t)).len()
                    <= limiters[0].limit() by {
                    assert(counted(calls, answers, j, p, t).len() <= limiters[0].limit());
                }
            } else {
                let w = limiters[j].window(p);
                lemma_prune_twice(a, last_call(calls, j, p), now);
                assert(prune(w, now) == prune(a, now));
                lemma_prune_is_live(a, now);
                if answers[j] is Ok {
                    assert(a2 == a.push(now));
                    assert(!expired(now, now));
                    lemma_prune_push(a, now, now);
                    assert(ascending(a2)) by {
                        assert forall|x: int, y: int| 0 <= x <= y < a2.len() implies #[trigger] a2[x]
                            <= #[trigger] a2[y] by {
                            if y < a.len() {
                                assert(a[x] <= a[y]);
                            } else if x < a.len() {
                                assert(a[x] <= top(calls, j));
                            }
                        }
                    }
                    assert forall|i: int| 0 <= i < a2.len() implies #[trigger] a2[i] <= top(calls, k) by {
                        if i < a.len() {
                            assert(a[i] <= top(calls, j));
                        }
                    }
                    assert forall|t: u64| top(calls, k) <= t implies (#[trigger] counted(
                        calls,
                        answers,
                        k,
                        p,
                        t,
                    )).len() <= limiters[0].limit() by {
                        assert(a2.drop_last() =~= a);
                        lemma_live_shrinks(a, now, t);
                        assert(live(a, now).len() < limiters[0].limit());
                    }
                } else {
                    assert(a2 == a);
                    assert forall|t: u64| top(calls, k) <= t implies (#[trigger] counted(
                        calls,
                        answers,
                        k,
                        p,
                        t,
                    )).len() <= limiters[0].limit() by {
                        assert(counted(calls, answers, j, p, t).len() <= limiters[0].limit());
                    }
                }
            }
        }
    }
}

/// The sliding-window law over any run of one limiter on a monotonic clock:
/// a call is refused exactly when its principal already had `limit`
/// admitted requests in the last sixty seconds (refused calls use no
/// budget, and other principals' calls do not matter), and at no time after
/// a prefix of the run does any principal have more than `limit` admitted
/// requests in the last sixty seconds.
pub proof fn sliding_window_law(
    limiters: Seq<RateLimiter>,
    calls: Seq<(Seq<char>, u64)>,
    answers: Seq<Result<(), SearchError>>,
)
    requires
        is_run(limiters, calls, answers),
    ensures
        forall|k: int|
            0 <= k < calls.len() ==> (#[trigger] answers[k] is Err <==> counted(
                calls,
                answers,
                k,
                calls[k].0,
                calls[k].1,
            ).len() >= limiters[0].limit()),
        forall|k: int, p: Seq<char>, t: u64|
            0 <= k <= calls.len() && (k > 0 ==> calls[k - 1].1 <= t) ==> (#[trigger] counted(
                calls,
                answers,
                k,
                p,
                t,
            )).len() <= limiters[0].limit(),
{
    assert forall|k: int|
        0 <= k < calls.len() implies (#[trigger] answers[k] is Err <==> counted(
            calls,
            answers,
            k,
            calls[k].0,
            calls[k].1,
        ).len() >= limiters[0].limit()) by {
        lemma_run_prefix(limiters, calls, answers, k);
        let p = calls[k].0;
        let now = calls[k].1;
        let a = admitted_times(calls, answers, k, p);
        assert(admits(limiters[k], calls[k].0, calls[k].1, answers[k], limiters[k + 1]));
        if k > 0 {
            assert(calls[k - 1].1 <= calls[k].1);
        }
        lemma_prune_twice(a, last_call(calls, k, p), now);
        lemma_prune_is_live(a, now);
    }
    assert forall|k: int, p: Seq<char>, t: u64|
        0 <= k <= calls.len() && (k > 0 ==> calls[k - 1].1 <= t) implies (#[trigger] counted(
            calls,
            answers,
            k,
            p,
            t,
        )).len() <= limiters[0].limit() by {
        lemma_run_prefix(limiters, calls, answers, k);
        assert(admitted_times(calls, answers, k, p) == admitted_times(calls, answers, k, p));
    }
}


/// `limiters` is a run of `check` on one limiter: it starts empty, and call
/// `k` of `principals[k]` takes `limiters[k]` to `limiters[k + 1]`, told
/// `answers[k]`, at the time it records as its last reading, never earlier
/// than the one before.
pub open spec fn is_check_run(
    limiters: Seq<RateLimiter>,
    principals: Seq<Seq<char>>,
    answers: Seq<Result<(), SearchError>>,
) -> bool {
    &&& limiters.len() == principals.len() + 1
    &&& answers.len() == principals.len()
    &&& forall|p: Seq<char>| #[trigger] limiters[0].window(p) == Seq::<u64>::empty()
    &&& forall|k: int|
        0 <= k < principals.len() ==> {
            &&& limiters[k].last_reading() <= (#[trigger] limiters[k + 1]).last_reading()
            &&& admits(limiters[k], principals[k], limiters[k + 1].last_reading(), answers[k], limiters[k + 1])
        }
}

/// The principal and time of each call of a run of `check`.
pub open spec fn check_calls(limiters: Seq<RateLimiter>, principals: Seq<Seq<char>>) -> Seq<(Seq<char>, u64)> {
    Seq::new(principals.len(), |k: int| (principals[k], limiters[k + 1].last_reading()))
}

proof fn lemma_readings_ascend(limiters: Seq<RateLimiter>, principals: Seq<Seq<char>>, answers: Seq<Result<(), SearchError>>, j: int, k: int)
    requires
        is_check_run(limiters, principals, answers),
        0 <= j <= k < principals.len(),
    ensures
        limiters[j + 1].last_reading() <= limiters[k + 1].last_reading(),
    decreases k - j,
{
    if j < k {
        lemma_readings_ascend(limiters, principals, answers, j, k - 1);
        assert(limiters[k].last_reading() <= limiters[k + 1].last_reading());
    }
}

/// The sliding-window law for runs of `check`: a run of `check` is a run of
/// `check_at` on a clock that never goes back, so a call is refused exactly
/// when its principal already had `limit` admitted requests in the last
/// sixty seconds, and no principal ever has more than `limit` of them.
pub proof fn check_sliding_window_law(
    limiters: Seq<RateLimiter>,
    principals: Seq<Seq<char>>,
    answers: Seq<Result<(), SearchError>>,
)
    requires
        is_check_run(limiters, principals, answers),
    ensures
        is_run(limiters, check_calls(limiters, principals), answers),
        forall|k: int|
            0 <= k < principals.len() ==> (#[trigger] answers[k] is Err <==> counted(
                check_calls(limiters, principals),
                answers,
                k,
                principals[k],
                limiters[k + 1].last_reading(),
            ).len() >= limiters[0].limit()),
        forall|k: int, p: Seq<char>, t: u64|
            0 <= k <= principals.len() && (k > 0 ==> limiters[k].last_reading() <= t) ==> (
            #[trigger] counted(check_calls(limiters, principals), answers, k, p, t)).len()
                <= limiters[0].limit(),
{
    let calls = check_calls(limiters, principals);
    assert forall|k: int|
        0 <= k < calls.len() implies #[trigger] admits(
            limiters[k],
            calls[k].0,
            calls[k].1,
            answers[k],
            limiters[k + 1],
        ) by {
        assert(limiters[k].last_reading() <= limiters[k + 1].last_reading());
    }
    assert forall|j: int, k: int| 0 <= j <= k < calls.len() implies #[trigger] calls[j].1
        <= #[trigger] calls[k].1 by {
        lemma_readings_ascend(limiters, principals, answers, j, k);
    }
    assert(is_run(limiters, calls, answers));
    sliding_window_law(limiters, calls, answers);
    assert forall|k: int|
        0 <= k < principals.len() implies (#[trigger] answers[k] is Err <==> counted(
            calls,
            answers,
            k,
            principals[k],
            limiters[k + 1].last_reading(),
        ).len() >= limiters[0].limit()) by {
        assert(calls[k] == (principals[k], limiters[k + 1].last_reading()));
    }
    assert forall|k: int, p: Seq<char>, t: u64|
        0 <= k <= principals.len() && (k > 0 ==> limiters[k].last_reading() <= t) implies (
        #[trigger] counted(calls, answers, k, p, t)).len() <= limiters[0].limit() by {
        if k > 0 {
            assert(calls[k - 1].1 == limiters[k].last_reading());
        }
    }
}

} // verus!
