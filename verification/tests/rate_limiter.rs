use rate_limiter::AtomicRateLimiter;
use rate_limiter::RateLimiter;
use std::sync::Arc;

#[test]
fn test_reducing_tokens_atomic() {
    let data = Arc::new(AtomicRateLimiter::new(30, 1, 1));

    // ten callers share the registry through `&self` clones of the Arc; the
    // first use of the key installs the bucket, the rest find it installed
    let callers: Vec<_> = (0..10).map(|_| Arc::clone(&data)).collect();

    for caller in callers {
        caller.reduce(String::from("test"), 1);
    }

    assert_eq!(data.get_available_tokens(String::from("test")), 20);
}

#[test]
fn test_registry_defaults() {
    let mut rate_limiter = RateLimiter::new(5, 2, 1);
    assert_eq!(rate_limiter.reduce(String::from("x"), 5), (true, 0));
    assert_eq!(rate_limiter.reduce(String::from("y"), 5), (true, 0));
    assert_eq!(rate_limiter.reduce(String::from("x"), 1), (false, 0));
}

#[test]
fn test_per_key_isolation() {
    let mut rate_limiter = RateLimiter::new(5, 2, 1);
    let (granted, available) = rate_limiter.reduce(String::from("a"), 3);
    assert!(granted);
    assert_eq!(available, 2);
    // key "b" has its own untouched budget
    assert_eq!(rate_limiter.get_available_tokens(String::from("b")), 5);
    let (granted, available) = rate_limiter.reduce(String::from("b"), 5);
    assert!(granted);
    assert_eq!(available, 0);
    // and draining "b" left "a" alone
    assert_eq!(rate_limiter.get_available_tokens(String::from("a")), 2);
}

#[test]
fn test_unknown_key_reports_default_capacity() {
    let rate_limiter = RateLimiter::new(7, 1, 1);
    assert_eq!(rate_limiter.get_available_tokens(String::from("never used")), 7);
}

#[test]
fn test_registry_denial_keeps_state() {
    let mut rate_limiter = RateLimiter::new(5, 10, 1);
    let (granted, available) = rate_limiter.reduce(String::from("k"), 2);
    assert!(granted);
    assert_eq!(available, 3);
    let (granted, available) = rate_limiter.reduce(String::from("k"), 4);
    assert!(!granted);
    assert_eq!(available, 3);
    assert_eq!(rate_limiter.get_available_tokens(String::from("k")), 3);
}

#[test]
fn test_atomic_registry_defaults() {
    let rate_limiter = AtomicRateLimiter::new(5, 2, 1);
    assert_eq!(rate_limiter.reduce(String::from("x"), 5), (true, 0));
    assert_eq!(rate_limiter.reduce(String::from("y"), 5), (true, 0));
    assert_eq!(rate_limiter.reduce(String::from("x"), 1), (false, 0));
}

#[test]
fn test_atomic_per_key_isolation() {
    let rate_limiter = AtomicRateLimiter::new(5, 2, 1);
    let (granted, available) = rate_limiter.reduce(String::from("a"), 3);
    assert!(granted);
    assert_eq!(available, 2);
    assert_eq!(rate_limiter.get_available_tokens(String::from("b")), 5);
    let (granted, available) = rate_limiter.reduce(String::from("b"), 5);
    assert!(granted);
    assert_eq!(available, 0);
    assert_eq!(rate_limiter.get_available_tokens(String::from("a")), 2);
}

#[test]
fn test_atomic_unknown_key_reports_default_capacity() {
    let rate_limiter = AtomicRateLimiter::new(7, 1, 1);
    assert_eq!(rate_limiter.get_available_tokens(String::from("never used")), 7);
}
