use application::ratelimit::RateLimiter;
use application::serving::SearchError;

const SEC: u64 = 1_000_000_000;

#[test]
fn a_full_window_refuses_with_the_wait_until_the_oldest_request_leaves() {
    let mut limiter = RateLimiter::new(2);
    assert!(limiter.check_at("alice", 0).is_ok());
    assert!(limiter.check_at("alice", 10 * SEC).is_ok());
    match limiter.check_at("alice", 15 * SEC) {
        Err(SearchError::RateLimited { retry_after_secs }) => assert_eq!(retry_after_secs, 45),
        other => panic!("expected a refusal, got {other:?}"),
    }
    // Other principals are untouched.
    assert!(limiter.check_at("bob", 15 * SEC).is_ok());
    // Sixty seconds after the first request it leaves the window.
    assert!(limiter.check_at("alice", 60 * SEC).is_ok());
}

#[test]
fn default_regex_limiter_admits_ten_per_minute() {
    let mut limiter = RateLimiter::default_regex();
    for i in 0..10u64 {
        assert!(limiter.check_at("local", i * SEC).is_ok());
    }
    assert!(matches!(limiter.check_at("local", 11 * SEC), Err(SearchError::RateLimited { .. })));
}

#[test]
fn a_zero_limit_still_admits_one() {
    let mut limiter = RateLimiter::new(0);
    assert!(limiter.check("p").is_ok());
    assert!(limiter.check("p").is_err());
}

#[test]
fn refused_requests_use_no_budget_in_the_sliding_window() {
    let mut limiter = RateLimiter::new(2);
    assert!(limiter.check_at("carol", 0).is_ok());
    assert!(limiter.check_at("carol", 30 * SEC).is_ok());
    // Refused calls are not counted against later ones.
    assert!(limiter.check_at("carol", 40 * SEC).is_err());
    assert!(limiter.check_at("carol", 50 * SEC).is_err());
    // At 60 s the request from 0 s no longer counts: exactly one slot frees.
    assert!(limiter.check_at("carol", 60 * SEC).is_ok());
    assert!(limiter.check_at("carol", 61 * SEC).is_err());
    // At 90 s the request from 30 s leaves as well.
    assert!(limiter.check_at("carol", 90 * SEC).is_ok());
}
