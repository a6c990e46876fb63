use rate_limiter::Bucket;

#[test]
fn test_reducing_tokens() {
    let mut bucket = Bucket::new(5, 1, 1);
    let (success, available_tokens) = bucket.reduce(6);
    // this should return false because we can't remove 6 tokens when only 5 is available
    assert!(!success);
    // available tokens should remain untouched
    assert_eq!(available_tokens, 5);

    // try with fewer tokens to reduce
    let (success, available_tokens) = bucket.reduce(1);
    // this should return true
    assert!(success);
    assert_eq!(available_tokens, 4);
}

#[test]
fn test_refilling_tokens_max() {
    let max_tokens = 5;
    let mut bucket = Bucket::new(max_tokens, 1, 1);
    // reduce 1 token
    bucket.reduce(1);
    // wait 2 seconds
    let start = std::time::Instant::now();
    while start.elapsed().as_secs() < 2 {}
    // ensure bucket has maximum number of tokens (and not more)
    assert_eq!(bucket.get_available_tokens(), max_tokens)
}

#[test]
fn test_refill_time() {
    let mut bucket = Bucket::new(5, 2, 1);
    // reduce to 0
    bucket.reduce(5);
    // wait 2 seconds
    let start = std::time::Instant::now();
    while start.elapsed().as_secs() < 2 {}
    // ensure we got new token available
    assert_eq!(bucket.get_available_tokens(), 1)
}

#[test]
fn test_refill_amount() {
    let mut bucket = Bucket::new(5, 1, 2);
    // reduce to 0
    bucket.reduce(5);
    // wait 1 second
    let start = std::time::Instant::now();
    while start.elapsed().as_secs() < 1 {}
    // ensure we got 2 new tokens available
    assert_eq!(bucket.get_available_tokens(), 2)
}

#[test]
fn test_new_bucket_is_full() {
    let bucket = Bucket::new(5, 2, 1);
    assert_eq!(bucket.get_available_tokens(), 5);
}

#[test]
fn test_available_tokens_within_capacity() {
    let mut bucket = Bucket::new(5, 1, 1);
    assert_eq!(bucket.get_available_tokens_at(0), 5);
    let (_, remaining) = bucket.reduce_at(3, 0);
    assert!(remaining <= 5);
    // far in the future the count is capped at the capacity, never above
    assert_eq!(bucket.get_available_tokens_at(1000), 5);
}

#[test]
fn test_denial_leaves_tokens() {
    let mut bucket = Bucket::new(5, 1, 1);
    let (granted, available) = bucket.reduce_at(6, 0);
    assert!(!granted);
    assert_eq!(available, 5);
    // the denied call mutated nothing: an immediate observation sees the
    // same count as before the call
    assert_eq!(bucket.get_available_tokens_at(0), 5);
}

#[test]
fn test_monotonic_refill_observations() {
    let mut bucket = Bucket::new(5, 2, 1);
    let (granted, available) = bucket.reduce_at(5, 0);
    assert!(granted);
    assert_eq!(available, 0);
    // with no consumption the observed tokens never decrease over time
    let mut previous = 0;
    for now in 0..20 {
        let observed = bucket.get_available_tokens_at(now);
        assert!(observed >= previous);
        assert!(observed <= 5);
        previous = observed;
    }
    assert_eq!(previous, 5);
}

#[test]
fn test_floor_division_refill() {
    let mut bucket = Bucket::new(10, 3, 2);
    let (granted, available) = bucket.reduce_at(10, 0);
    assert!(granted);
    assert_eq!(available, 0);
    // after exactly k intervals of 3 seconds: min(10, 2 * k) tokens;
    // one second before each such moment: strictly fewer
    assert_eq!(bucket.get_available_tokens_at(2), 0);
    assert_eq!(bucket.get_available_tokens_at(3), 2);
    assert_eq!(bucket.get_available_tokens_at(5), 2);
    assert_eq!(bucket.get_available_tokens_at(6), 4);
    assert_eq!(bucket.get_available_tokens_at(14), 8);
    assert_eq!(bucket.get_available_tokens_at(15), 10);
    assert_eq!(bucket.get_available_tokens_at(100), 10);
}

#[test]
fn test_refill_tokens_uncapped() {
    let bucket = Bucket::new(1, 1, 1);
    // ten whole intervals: ten tokens due, well beyond the capacity of 1
    assert_eq!(bucket.get_refill_tokens_at(10), 10);

    let bucket = Bucket::new(5, 1, 2);
    // the refill is always a whole number of batches of `refill_amount`
    assert_eq!(bucket.get_refill_tokens_at(10), 20);

    let bucket = Bucket::new(5, 3, 2);
    // a partial interval awards nothing
    assert_eq!(bucket.get_refill_tokens_at(2), 0);
    assert_eq!(bucket.get_refill_tokens_at(3), 2);
}

#[test]
fn test_zero_tokens_is_trivial_grant() {
    let mut bucket = Bucket::new(5, 1, 1);
    let (granted, available) = bucket.reduce_at(0, 0);
    assert!(granted);
    assert_eq!(available, 5);
}

#[test]
fn test_grant_reanchors_refill_clock() {
    let mut bucket = Bucket::new(5, 2, 1);
    let (granted, available) = bucket.reduce_at(5, 0);
    assert!(granted);
    assert_eq!(available, 0);
    // a grant at second 3 re-anchors the clock there: the one token earned
    // at second 2 is spent, and the fractional second of refill progress is
    // discarded, so the next token arrives only at second 5
    let (granted, available) = bucket.reduce_at(1, 3);
    assert!(granted);
    assert_eq!(available, 0);
    assert_eq!(bucket.get_available_tokens_at(4), 0);
    assert_eq!(bucket.get_available_tokens_at(5), 1);
}

#[test]
fn test_reset() {
    let mut bucket = Bucket::new(5, 1, 1);
    bucket.reduce(4);
    bucket.reset();
    assert_eq!(bucket.get_available_tokens(), 5);
}

#[test]
fn test_reset_refills_to_capacity() {
    let mut bucket = Bucket::new(5, 1, 1);
    let (granted, available) = bucket.reduce_at(4, 0);
    assert!(granted);
    assert_eq!(available, 1);
    bucket.reset_at(7);
    assert_eq!(bucket.get_available_tokens_at(7), 5);
}
