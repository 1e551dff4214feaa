use gatekeeper::algorithm::token_bucket::TokenBucket;
use gatekeeper::algorithm::{Decision, LimiterError, RateLimiter};
use gatekeeper::binary64::Binary64;
use gatekeeper::store::memory::MemoryStore;
use gatekeeper::store::{BucketState, StoreError};
use gatekeeper::time::{Deadline, Duration, Instant};

const MILLI: u64 = 1_000_000;

fn number(x: f64) -> Binary64 {
    Binary64 { bits: x.to_bits() }
}

struct Limiter {
    bucket: TokenBucket,
    store: MemoryStore,
    now: u64,
}

impl Limiter {
    fn check(&mut self, key: &str, cost: u64, peek: bool) -> Result<Decision, LimiterError> {
        let now = Instant { nanos: self.now };
        self.bucket.check(&mut self.store, key, cost, peek, now)
    }
}

fn make_limiter(capacity: u64, refill_rate: f64) -> Limiter {
    Limiter {
        bucket: TokenBucket::new(capacity, number(refill_rate)),
        store: MemoryStore::new(1000),
        now: 77,
    }
}

#[test]
fn allows_request_within_capacity() {
    let mut lb = make_limiter(10, 1.0);
    let d = lb.check("k", 1, false).unwrap();
    assert!(d.allowed);
    assert_eq!(d.remaining, 9);
    assert_eq!(d.limit, 10);
}

#[test]
fn denies_when_exhausted() {
    let mut lb = make_limiter(3, 0.0);
    assert!(lb.check("k", 1, false).unwrap().allowed);
    assert!(lb.check("k", 1, false).unwrap().allowed);
    assert!(lb.check("k", 1, false).unwrap().allowed);
    let d = lb.check("k", 1, false).unwrap();
    assert!(!d.allowed);
}

#[test]
fn different_keys_are_independent() {
    let mut lb = make_limiter(1, 0.0);
    assert!(lb.check("a", 1, false).unwrap().allowed);
    let d = lb.check("a", 1, false).unwrap();
    assert!(!d.allowed);
    assert!(lb.check("b", 1, false).unwrap().allowed);
}

#[test]
fn cost_greater_than_one() {
    let mut lb = make_limiter(10, 0.0);
    let d1 = lb.check("k", 5, false).unwrap();
    assert!(d1.allowed);
    assert_eq!(d1.remaining, 5);
    let d2 = lb.check("k", 6, false).unwrap();
    assert!(!d2.allowed);
}

#[test]
fn refills_over_time() {
    let mut lb = make_limiter(10, 100.0);
    let d = lb.check("k", 10, false).unwrap();
    assert!(d.allowed);
    assert_eq!(d.remaining, 0);
    lb.now += 110 * MILLI;
    let d2 = lb.check("k", 1, false).unwrap();
    assert!(d2.allowed);
}

#[test]
fn peek_does_not_consume() {
    let mut lb = make_limiter(5, 0.0);
    let d1 = lb.check("k", 1, true).unwrap();
    let d2 = lb.check("k", 1, true).unwrap();
    assert!(d1.allowed);
    assert!(d2.allowed);
    assert_eq!(d1.remaining, 5);
    assert_eq!(d2.remaining, 5);
}

#[test]
fn retry_after_is_reasonable() {
    let mut lb = make_limiter(10, 10.0);
    lb.check("k", 10, false).unwrap();
    let d = lb.check("k", 1, false).unwrap();
    assert!(!d.allowed);
    let retry = d.retry_after.unwrap();
    let seconds = f64::from_bits(retry.as_seconds().bits);
    assert!(seconds < 0.15, "retry_after too large: {retry:?}");
    assert!(seconds > 0.0, "retry_after should be > 0");
    assert_eq!(retry, Duration { secs: 0, nanos: 100_000_000 });
}

#[test]
fn capacity_caps_refill() {
    let mut lb = make_limiter(5, 10_000.0);
    lb.check("k", 3, false).unwrap();
    lb.now += 10 * MILLI;
    let d = lb.check("k", 1, false).unwrap();
    assert!(d.allowed);
    assert!(d.remaining <= 5, "remaining {} exceeds capacity 5", d.remaining);
    assert_eq!(d.remaining, 4);
}

#[test]
fn reset_is_when_the_bucket_is_full() {
    let mut lb = make_limiter(10, 4.0);
    let d = lb.check("k", 5, false).unwrap();
    assert_eq!(d.reset_at, Deadline { nanos: 77 + 1_250_000_000 });
    assert_eq!(d.retry_after, None);
    let mut still = make_limiter(10, 0.0);
    let d = still.check("k", 5, false).unwrap();
    assert_eq!(d.reset_at, Deadline { nanos: 77 });
}

#[test]
fn a_denied_request_takes_nothing() {
    let mut lb = make_limiter(4, 0.0);
    assert!(!lb.check("k", 5, false).unwrap().allowed);
    let d = lb.check("k", 4, false).unwrap();
    assert!(d.allowed);
    assert_eq!(d.remaining, 0);
    assert!(lb.check("k", 0, false).unwrap().allowed);
}

#[test]
fn without_refill_nobody_is_told_to_retry() {
    let mut lb = make_limiter(1, 0.0);
    let d = lb.check("k", 2, false).unwrap();
    assert!(!d.allowed);
    assert_eq!(d.retry_after, None);
    let mut refilling = make_limiter(1, 1.0);
    let d = refilling.check("k", 2, true).unwrap();
    assert!(!d.allowed);
    assert_eq!(d.retry_after, None);
    let d = refilling.check("k", 2, false).unwrap();
    assert_eq!(d.retry_after, Some(Duration::from_secs(1)));
}

#[test]
fn coming_back_when_told_suffices() {
    let mut lb = make_limiter(9, 2.0);
    assert!(lb.check("k", 9, false).unwrap().allowed);
    let d = lb.check("k", 6, false).unwrap();
    assert_eq!(d.retry_after, Some(Duration::from_secs(3)));
    lb.now += 3_000 * MILLI;
    let d = lb.check("k", 6, false).unwrap();
    assert!(d.allowed);
    assert_eq!(d.remaining, 0);
}

#[test]
fn a_clock_reading_from_before_adds_nothing() {
    let mut lb = make_limiter(10, 1.0);
    lb.now = 5_000 * MILLI;
    assert_eq!(lb.check("k", 4, false).unwrap().remaining, 6);
    lb.now = 1_000 * MILLI;
    assert_eq!(lb.check("k", 0, true).unwrap().remaining, 6);
}

#[test]
fn a_peek_on_a_new_key_leaves_a_full_bucket() {
    let mut lb = make_limiter(7, 0.5);
    let d = lb.check("k", 3, true).unwrap();
    assert_eq!(d.remaining, 7);
    assert_eq!(lb.store.bucket_count(), 1);
    let full = BucketState { tokens: number(7.0), last_update: Instant { nanos: 77 } };
    assert_eq!(lb.store.lookup("k"), Some(full));
    lb.now += 60_000 * MILLI;
    assert_eq!(lb.check("k", 3, false).unwrap().remaining, 4);
}

#[test]
fn an_endless_wait_is_reported() {
    let mut lb = make_limiter(1, 1e-300);
    let r = lb.check("k", 2, false);
    assert_eq!(r, Err(LimiterError::Endless));
    assert_eq!(LimiterError::Endless.message(), "endless wait");
}

#[test]
fn errors_of_the_store_are_passed_on() {
    let error = LimiterError::Store(StoreError::Unavailable("down".to_string()));
    assert_eq!(error.message(), "store error: store unavailable: down");
}

#[test]
fn the_algorithm_has_a_name() {
    assert_eq!(make_limiter(1, 1.0).bucket.algorithm_name(), "token_bucket");
}

#[test]
fn checks_follow_native_arithmetic() {
    let capacity = 50u64;
    let rate = 3.7f64;
    let mut lb = make_limiter(capacity, rate);
    let mut tokens = capacity as f64;
    let mut last = lb.now;
    let mut seed = 0x1234_5678_9abc_def1u64;
    for _ in 0..3000 {
        seed ^= seed << 13;
        seed ^= seed >> 7;
        seed ^= seed << 17;
        lb.now += seed % 2_000_000_000;
        let cost = (seed >> 40) % 9;
        let elapsed = std::time::Duration::from_nanos(lb.now - last).as_secs_f64();
        let refilled = (tokens + elapsed * rate).min(capacity as f64);
        let allowed = refilled >= cost as f64;
        tokens = if allowed { refilled - cost as f64 } else { refilled };
        last = lb.now;
        let d = lb.check("k", cost, false).unwrap();
        assert_eq!(d.allowed, allowed);
        assert_eq!(d.remaining, tokens.floor().max(0.0) as u64);
        assert_eq!(lb.store.lookup("k").unwrap().tokens, number(tokens));
        let full = std::time::Duration::from_secs_f64(((capacity as f64 - tokens) / rate).max(0.0));
        assert_eq!(d.reset_at.nanos, lb.now as u128 + full.as_nanos());
    }
}

#[test]
fn who_waits_longer_finds_no_fewer_tokens() {
    let bucket = TokenBucket::new(20, number(0.3));
    let state = BucketState { tokens: number(1.7), last_update: Instant { nanos: 0 } };
    let mut before = 0;
    for step in 0..2000u64 {
        let now = Instant { nanos: step * 77_777_777 };
        let remaining = bucket.decide(state, 0, true, now).decision.unwrap().remaining;
        assert!(remaining >= before);
        before = remaining;
    }
    assert_eq!(before, 20);
}

#[test]
fn a_cheaper_request_is_no_harder() {
    let bucket = TokenBucket::new(20, number(0.3));
    let now = Instant { nanos: 9_000_000_000 };
    let state = BucketState { tokens: number(7.5), last_update: Instant { nanos: 0 } };
    for cost in 0..=10 {
        assert!(bucket.decide(state, cost, true, now).decision.unwrap().allowed);
    }
    assert!(!bucket.decide(state, 11, true, now).decision.unwrap().allowed);
}

#[test]
fn whole_seconds_add_whole_tokens() {
    let bucket = TokenBucket::new(100, number(7.0));
    let state = BucketState { tokens: number(3.0), last_update: Instant { nanos: 5 } };
    for (seconds, tokens) in [(0, 3.0), (1, 10.0), (13, 94.0), (14, 100.0), (5000, 100.0)] {
        let now = Instant { nanos: 5 + seconds * 1_000_000_000 };
        let commit = bucket.decide(state, 0, false, now).commit.unwrap();
        assert_eq!(commit, BucketState { tokens: number(tokens), last_update: now });
    }
}

#[test]
fn a_denial_still_brings_the_bucket_up_to_date() {
    let bucket = TokenBucket::new(10, number(2.0));
    let state = BucketState { tokens: number(1.0), last_update: Instant { nanos: 0 } };
    let now = Instant { nanos: 1_500_000_000 };
    let outcome = bucket.decide(state, 5, false, now);
    assert!(!outcome.decision.unwrap().allowed);
    assert_eq!(outcome.commit, Some(BucketState { tokens: number(4.0), last_update: now }));
    assert_eq!(bucket.decide(state, 5, true, now).commit, None);
}

#[test]
fn at_one_moment_the_capacity_is_all_there_is() {
    for rate in [0.0, 0.3, 1.0, 1e300] {
        let mut lb = make_limiter(17, rate);
        let allowed = (0..10).filter(|_| lb.check("k", 5, false).unwrap().allowed).count();
        assert_eq!(allowed, 3, "{rate}");
    }
}

#[test]
fn spending_is_within_capacity_and_refill() {
    let mut lb = make_limiter(20, 3.0);
    let mut seed = 7u64;
    let mut spent = 0;
    for seconds in 0..400u64 {
        for _ in 0..4 {
            seed = seed.wrapping_mul(6364136223846793005).wrapping_add(1442695040888963407);
            let cost = (seed >> 33) % 6;
            if lb.check("k", cost, false).unwrap().allowed {
                spent += cost;
            }
            assert!(spent <= 20 + 3 * seconds);
        }
        lb.now += 1_000 * MILLI;
    }
    assert!(spent >= 3 * 390);
}

#[test]
fn the_told_wait_is_right_to_the_second() {
    let mut lb = make_limiter(10, 3.0);
    assert!(lb.check("k", 10, false).unwrap().allowed);
    let told = lb.check("k", 7, false).unwrap().retry_after.unwrap();
    assert_eq!(told, Duration { secs: 2, nanos: 333_333_333 });
    lb.now += 2_000 * MILLI;
    assert!(!lb.check("k", 7, true).unwrap().allowed);
    lb.now += 1_000 * MILLI;
    assert!(lb.check("k", 7, true).unwrap().allowed);
    lb.now += 123_456 * MILLI;
    assert!(lb.check("k", 7, true).unwrap().allowed);
}

#[test]
fn a_cost_above_the_capacity_is_never_allowed() {
    let mut lb = make_limiter(4, 1000.0);
    for _ in 0..5 {
        assert!(!lb.check("k", 5, false).unwrap().allowed);
        lb.now += 60_000 * MILLI;
    }
}

#[test]
fn great_rates_fill_the_bucket() {
    let capacity = 1u64 << 53;
    let bucket = TokenBucket::new(capacity, Binary64::from_whole(u64::MAX as u128));
    let state = BucketState { tokens: number(3.0), last_update: Instant { nanos: 0 } };
    let now = Instant { nanos: 1_000_000_000 };
    let commit = bucket.decide(state, 0, false, now).commit.unwrap();
    assert_eq!(commit.tokens, Binary64::from_whole(capacity as u128));
}

fn next(seed: &mut u64) -> u64 {
    *seed ^= *seed << 13;
    *seed ^= *seed >> 7;
    *seed ^= *seed << 17;
    *seed
}

#[test]
fn the_told_wait_is_right_up_to_rounding() {
    let mut seed = 0x5555_1234_9876_abcdu64;
    for _ in 0..2000 {
        let rate = (1 + next(&mut seed) % 1_000_000) as f64 / 997.0;
        let capacity = 1 + next(&mut seed) % 1000;
        let cost = 1 + next(&mut seed) % capacity;
        let part = (next(&mut seed) % 1_000_000) as f64 / 1_000_000.0;
        let now = Instant { nanos: 1_000_000_000 };
        let state = BucketState { tokens: number(cost as f64 * part), last_update: now };
        let bucket = TokenBucket::new(capacity, number(rate));
        let decision = bucket.decide(state, cost, false, now).decision.unwrap();
        assert!(!decision.allowed);
        let wait = decision.retry_after.unwrap().as_nanos() as u64;
        let allowed_after = |nanos: u64| {
            let at = Instant { nanos: now.nanos + nanos };
            bucket.decide(state, cost, false, at).decision.unwrap().allowed
        };
        assert!(allowed_after(wait + 2 + (wait >> 50)), "{rate} {cost} {wait}");
        let margin = 3 + (wait >> 49) + (cost as f64 / rate * 1e9 / 4e15) as u64;
        if wait > margin {
            assert!(!allowed_after(wait - margin), "{rate} {cost} {wait}");
        }
    }
}

#[test]
fn a_rounded_wait_may_be_a_nanosecond_short() {
    let mut lb = make_limiter(10, 3.0);
    assert!(lb.check("k", 10, false).unwrap().allowed);
    let told = lb.check("k", 7, false).unwrap().retry_after.unwrap();
    lb.now += told.as_nanos() as u64;
    assert!(!lb.check("k", 7, true).unwrap().allowed);
    lb.now += 1;
    assert!(lb.check("k", 7, true).unwrap().allowed);
}

#[test]
fn spending_is_bounded_up_to_rounding() {
    let mut seed = 99u64;
    for _ in 0..20 {
        let rate = (1 + next(&mut seed) % 1000) as f64 / 333.0;
        let capacity = 1 + next(&mut seed) % 50;
        let mut lb = make_limiter(capacity, rate);
        let start = lb.now;
        let mut spent = 0;
        for _ in 0..500 {
            lb.now += next(&mut seed) % 2_000_000_000;
            let cost = next(&mut seed) % 8;
            if lb.check("k", cost, false).unwrap().allowed {
                spent += cost;
            }
            let seconds = (lb.now - start) as f64 / 1e9;
            assert!(spent as f64 <= (capacity as f64 + rate * seconds) * (1.0 + 1e-9));
        }
    }
}

#[test]
fn rounding_may_add_up_to_a_token() {
    let mut lb = make_limiter(1, 1.0 / 3.0);
    assert!(lb.check("k", 1, false).unwrap().allowed);
    for _ in 0..2 {
        lb.now += 1_000 * MILLI;
        assert!(!lb.check("k", 1, false).unwrap().allowed);
    }
    lb.now += 1_000 * MILLI;
    assert!(lb.check("k", 1, false).unwrap().allowed);
}
