use slowclaw::limiter::{
    normalize_max_keys, GatewayRateLimiter, SlidingWindowRateLimiter, RATE_LIMIT_MAX_KEYS_DEFAULT,
    RATE_LIMIT_WINDOW_SECS, SWEEP_INTERVAL_MS,
};

#[test]
fn normalize_max_keys_uses_fallback_for_zero() {
    assert_eq!(normalize_max_keys(0, 10_000), 10_000);
    assert_eq!(normalize_max_keys(0, 0), 1);
}

#[test]
fn normalize_max_keys_preserves_nonzero_values() {
    assert_eq!(normalize_max_keys(2_048, 10_000), 2_048);
    assert_eq!(normalize_max_keys(1, 10_000), 1);
}

#[test]
fn limiter_constants_have_documented_values() {
    assert_eq!(RATE_LIMIT_WINDOW_SECS, 60);
    assert_eq!(RATE_LIMIT_MAX_KEYS_DEFAULT, 10_000);
    assert_eq!(SWEEP_INTERVAL_MS, 300_000);
}

#[test]
fn gateway_rate_limiter_blocks_after_limit() {
    let mut limiter = GatewayRateLimiter::new(2, 2, 100);
    assert!(limiter.allow_pair("127.0.0.1"));
    assert!(limiter.allow_pair("127.0.0.1"));
    assert!(!limiter.allow_pair("127.0.0.1"));
}

#[test]
fn rate_limiter_sweep_removes_stale_entries() {
    let mut limiter = SlidingWindowRateLimiter::new(10, 60_000, 100);
    assert!(limiter.allow_at("ip-1", 1_000));
    assert!(limiter.allow_at("ip-2", 1_000));
    assert!(limiter.allow_at("ip-3", 1_000));
    assert_eq!(limiter.len(), 3);

    // More than a sweep interval later, only the key that asks again is kept.
    assert!(limiter.allow_at("ip-1", 1_000 + SWEEP_INTERVAL_MS + 1_000));
    assert_eq!(limiter.len(), 1, "Stale entries should have been swept");
    assert!(limiter.contains_key("ip-1"));
}

#[test]
fn rate_limiter_sweep_waits_for_the_interval() {
    let mut limiter = SlidingWindowRateLimiter::new(10, 60_000, 100);
    assert!(limiter.allow_at("ip-1", 0));
    assert!(limiter.allow_at("ip-2", 0));
    // Both entries are stale at 200s, but the last sweep is younger than five minutes.
    assert!(limiter.allow_at("ip-3", 200_000));
    assert_eq!(limiter.len(), 3);
    assert!(limiter.allow_at("ip-3", 300_000));
    assert_eq!(limiter.len(), 1);
}

#[test]
fn rate_limiter_zero_limit_always_allows() {
    let mut limiter = SlidingWindowRateLimiter::new(0, 60_000, 10);
    for _ in 0..100 {
        assert!(limiter.allow("any-key"));
    }
    assert_eq!(limiter.len(), 0);
}

#[test]
fn rate_limiter_bounded_cardinality_evicts_oldest_key() {
    let mut limiter = SlidingWindowRateLimiter::new(5, 60_000, 2);
    assert!(limiter.allow("ip-1"));
    assert!(limiter.allow("ip-2"));
    assert!(limiter.allow("ip-3"));

    assert_eq!(limiter.len(), 2);
    assert!(limiter.contains_key("ip-2"));
    assert!(limiter.contains_key("ip-3"));
}

#[test]
fn rate_limiter_eviction_scenario_with_three_keys() {
    let mut limiter = SlidingWindowRateLimiter::new(5, 60_000, 2);
    assert!(limiter.allow("a"));
    assert!(limiter.allow("b"));
    assert!(limiter.allow("c"));
    assert_eq!(limiter.len(), 2);
    assert!(!limiter.contains_key("a"));
}

#[test]
fn rate_limiter_evicts_key_with_oldest_latest_request() {
    let mut limiter = SlidingWindowRateLimiter::new(5, 60_000, 2);
    assert!(limiter.allow_at("early", 10));
    assert!(limiter.allow_at("late", 20));
    assert!(limiter.allow_at("early", 30));
    assert!(limiter.allow_at("new", 40));
    assert!(limiter.contains_key("early"));
    assert!(!limiter.contains_key("late"));
    assert!(limiter.contains_key("new"));
}

#[test]
fn rate_limiter_allows_after_window_expires() {
    let mut limiter = SlidingWindowRateLimiter::new(2, 50, 100);
    assert!(limiter.allow_at("ip-1", 0));
    assert!(limiter.allow_at("ip-1", 1));
    assert!(!limiter.allow_at("ip-1", 2));
    assert!(limiter.allow_at("ip-1", 62));
}

#[test]
fn rate_limiter_window_boundary_is_exclusive() {
    let mut limiter = SlidingWindowRateLimiter::new(1, 50, 100);
    assert!(limiter.allow_at("k", 100));
    assert!(!limiter.allow_at("k", 149));
    assert!(limiter.allow_at("k", 150));
}

#[test]
fn rate_limiter_nth_request_refused_only_past_limit() {
    let mut limiter = SlidingWindowRateLimiter::new(3, 1_000, 100);
    let answers: Vec<bool> = (0..6u64).map(|i| limiter.allow_at("k", 10 + i)).collect();
    assert_eq!(answers, vec![true, true, true, false, false, false]);
}

#[test]
fn rate_limiter_independent_keys_tracked_separately() {
    let mut limiter = SlidingWindowRateLimiter::new(2, 60_000, 100);
    assert!(limiter.allow("ip-1"));
    assert!(limiter.allow("ip-1"));
    assert!(!limiter.allow("ip-1"));

    assert!(limiter.allow("ip-2"));
    assert!(limiter.allow("ip-2"));
    assert!(!limiter.allow("ip-2"));
}

#[test]
fn rate_limiter_exact_boundary_at_max_keys() {
    let mut limiter = SlidingWindowRateLimiter::new(10, 60_000, 3);
    assert!(limiter.allow("ip-1"));
    assert!(limiter.allow("ip-2"));
    assert!(limiter.allow("ip-3"));
    assert!(limiter.allow("ip-4"));

    assert_eq!(limiter.len(), 3);
    assert!(
        !limiter.contains_key("ip-1"),
        "ip-1 should have been evicted"
    );
    assert!(limiter.contains_key("ip-2"));
    assert!(limiter.contains_key("ip-3"));
    assert!(limiter.contains_key("ip-4"));
}

#[test]
fn gateway_rate_limiter_pair_and_webhook_are_independent() {
    let mut limiter = GatewayRateLimiter::new(2, 3, 100);

    assert!(limiter.allow_pair("ip-1"));
    assert!(limiter.allow_pair("ip-1"));
    assert!(!limiter.allow_pair("ip-1"));

    assert!(limiter.allow_webhook("ip-1"));
    assert!(limiter.allow_webhook("ip-1"));
    assert!(limiter.allow_webhook("ip-1"));
    assert!(!limiter.allow_webhook("ip-1"));
}

#[test]
fn rate_limiter_single_key_max_allows_one_request() {
    let mut limiter = SlidingWindowRateLimiter::new(5, 60_000, 1);
    assert!(limiter.allow("ip-1"));
    assert!(limiter.allow("ip-2"));

    assert_eq!(limiter.len(), 1);
    assert!(limiter.contains_key("ip-2"));
    assert!(!limiter.contains_key("ip-1"));
}

#[test]
fn rate_limiter_zero_capacity_is_raised_to_one() {
    let mut limiter = SlidingWindowRateLimiter::new(5, 60_000, 0);
    assert!(limiter.allow("ip-1"));
    assert!(limiter.allow("ip-2"));
    assert_eq!(limiter.len(), 1);
}

#[test]
fn rate_limiter_many_keys_respect_capacity() {
    let mut limiter = SlidingWindowRateLimiter::new(1000, 60_000, 1000);
    for i in 0..10 {
        for j in 0..100 {
            limiter.allow(&format!("thread-{i}-req-{j}"));
        }
    }
    assert!(limiter.len() <= 1000, "should respect max_keys");
}

#[test]
fn rate_limiter_rapid_burst_then_cooldown() {
    let mut limiter = SlidingWindowRateLimiter::new(5, 50, 100);
    for i in 0..5u64 {
        assert!(limiter.allow_at("burst-ip", i));
    }
    assert!(!limiter.allow_at("burst-ip", 5));
    assert!(limiter.allow_at("burst-ip", 65));
}
