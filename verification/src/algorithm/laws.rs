//! What holds of the token bucket.

#[allow(unused_imports)]
use crate::algorithm::RateLimiter;
use crate::algorithm::token_bucket::TokenBucket;
#[allow(unused_imports)]
use crate::binary64::laws::{
    adding_does_not_lower, at_least_zero, product_is_at_least_zero, product_is_monotone,
    sum_is_monotone, taking_away_lowers, whole_is_finite, whole_part_is_monotone,
    wholes_are_ordered,
};
#[allow(unused_imports)]
use crate::binary64::rounding::lemma_magnitude_zero;
use crate::binary64::Binary64;
use crate::store::BucketState;
use crate::time::Instant;
#[allow(unused_imports)]
use crate::time::{of_nanos, seconds_are_finite, seconds_are_monotone, NANOS_PER_SEC};
use vstd::prelude::*;

verus! {

/// Whether a bucket holds no less than nothing, and no more than the capacity.
pub open spec fn is_within(limiter: TokenBucket, state: BucketState) -> bool {
    at_least_zero(state.tokens) && state.tokens.order() <= limiter.capacity().order()
}

/// Whether a limiter is one of the given capacity that never takes tokens of its own accord.
pub open spec fn is_limiter(limiter: TokenBucket, capacity: u64) -> bool {
    limiter.capacity() == Binary64::of_whole(capacity as nat) && at_least_zero(
        limiter.refill_rate(),
    )
}

proof fn lemma_capacity(limiter: TokenBucket, capacity: u64)
    requires
        is_limiter(limiter, capacity),
    ensures
        limiter.capacity().is_finite(),
        !limiter.capacity().negative(),
        at_least_zero(limiter.capacity()),
{
    whole_is_finite(capacity as nat);
}

/// A refill takes no tokens, and adds none beyond the capacity.
pub proof fn refill_adds(limiter: TokenBucket, capacity: u64, state: BucketState, now: Instant)
    requires
        is_limiter(limiter, capacity),
        is_within(limiter, state),
    ensures
        at_least_zero(limiter.refilled(state, now)),
        limiter.refilled(state, now).order() >= state.tokens.order(),
        limiter.refilled(state, now).order() <= limiter.capacity().order(),
{
    lemma_capacity(limiter, capacity);
    let elapsed = of_nanos(now.elapsed(state.last_update)).seconds();
    seconds_are_finite(now.elapsed(state.last_update));
    let added = elapsed.times(limiter.refill_rate());
    product_is_at_least_zero(elapsed, limiter.refill_rate());
    if !added.is_nan() {
        adding_does_not_lower(state.tokens, added);
    }
}

/// Who waits longer finds no fewer tokens.
pub proof fn waiting_does_not_hurt(
    limiter: TokenBucket,
    capacity: u64,
    state: BucketState,
    cost: u64,
    now: Instant,
    later: Instant,
)
    requires
        is_limiter(limiter, capacity),
        is_within(limiter, state),
        now.nanos <= later.nanos,
    ensures
        limiter.refilled(state, now).order() <= limiter.refilled(state, later).order(),
        limiter.affords(state, cost, now) ==> limiter.affords(state, cost, later),
{
    lemma_capacity(limiter, capacity);
    refill_adds(limiter, capacity, state, now);
    refill_adds(limiter, capacity, state, later);
    let rate = limiter.refill_rate();
    let (n, m) = (now.elapsed(state.last_update), later.elapsed(state.last_update));
    let (a, b) = (of_nanos(n).seconds(), of_nanos(m).seconds());
    seconds_are_finite(n);
    seconds_are_finite(m);
    seconds_are_monotone(n, m);
    if rate.is_finite() {
        product_is_monotone(rate, a, b);
        sum_is_monotone(state.tokens, a.times(rate), b.times(rate));
        adding_does_not_lower(state.tokens, b.times(rate));
    }
}

/// Where a request is within the limit, so is a cheaper one.
pub proof fn cheaper_is_no_harder(
    limiter: TokenBucket,
    state: BucketState,
    cost: u64,
    cheaper: u64,
    now: Instant,
)
    requires
        cheaper <= cost,
        limiter.affords(state, cost, now),
    ensures
        limiter.affords(state, cheaper, now),
{
    whole_is_finite(cost as nat);
    whole_is_finite(cheaper as nat);
    wholes_are_ordered(cheaper as nat, cost as nat);
}

/// A check leaves no less than nothing in a bucket, and no more than the capacity.
pub proof fn bucket_stays_within(
    limiter: TokenBucket,
    capacity: u64,
    state: BucketState,
    cost: u64,
    peek: bool,
    now: Instant,
)
    requires
        is_limiter(limiter, capacity),
        is_within(limiter, state),
    ensures
        at_least_zero(limiter.left(state, cost, peek, now)),
        limiter.left(state, cost, peek, now).order() <= limiter.refilled(state, now).order(),
        limiter.left(state, cost, peek, now).order() <= limiter.capacity().order(),
        limiter.outcome(state, cost, peek, now).commit matches Some(new) ==> is_within(
            limiter,
            new,
        ),
{
    lemma_capacity(limiter, capacity);
    refill_adds(limiter, capacity, state, now);
    whole_is_finite(cost as nat);
    if limiter.affords(state, cost, now) {
        taking_away_lowers(limiter.refilled(state, now), Binary64::of_whole(cost as nat));
    }
}

/// What remains is never said to be more than the limit.
pub proof fn remaining_is_at_most_the_limit(
    limiter: TokenBucket,
    capacity: u64,
    state: BucketState,
    cost: u64,
    peek: bool,
    now: Instant,
)
    requires
        is_limiter(limiter, capacity),
        is_within(limiter, state),
    ensures
        limiter.outcome(state, cost, peek, now).decision matches Some(decision)
            ==> decision.remaining <= decision.limit,
{
    lemma_capacity(limiter, capacity);
    bucket_stays_within(limiter, capacity, state, cost, peek, now);
    whole_part_is_monotone(limiter.left(state, cost, peek, now), limiter.capacity());
}

/// Whether all buckets are within bounds.
pub open spec fn all_within(limiter: TokenBucket, buckets: Map<Seq<char>, BucketState>) -> bool {
    forall|key: Seq<char>| #[trigger]
        buckets.contains_key(key) ==> is_within(limiter, buckets[key])
}

/// A check keeps all buckets within bounds.
pub proof fn checks_keep_the_bounds(
    limiter: TokenBucket,
    capacity: u64,
    buckets: Map<Seq<char>, BucketState>,
    key: Seq<char>,
    cost: u64,
    peek: bool,
    now: Instant,
)
    requires
        is_limiter(limiter, capacity),
        all_within(limiter, buckets),
    ensures
        all_within(limiter, limiter.after_check(buckets, key, cost, peek, now)),
{
    lemma_capacity(limiter, capacity);
    let state = limiter.bucket(buckets, key, now);
    bucket_stays_within(limiter, capacity, state, cost, peek, now);
    let after = limiter.after_check(buckets, key, cost, peek, now);
    assert forall|other: Seq<char>| #[trigger] after.contains_key(other) implies is_within(
        limiter,
        after[other],
    ) by {
        if other != key {
            assert(buckets.contains_key(other));
        }
    }
}

/// A denied request takes no tokens, and a peek neither.
pub proof fn only_allowed_requests_take_tokens(
    limiter: TokenBucket,
    state: BucketState,
    cost: u64,
    peek: bool,
    now: Instant,
)
    requires
        peek || !limiter.affords(state, cost, now),
    ensures
        limiter.left(state, cost, peek, now) == limiter.refilled(state, now),
{
}

/// Who is denied is told when to come back, unless nothing is ever added; nobody else is.
pub proof fn the_denied_are_told_when_to_retry(
    limiter: TokenBucket,
    state: BucketState,
    cost: u64,
    peek: bool,
    now: Instant,
)
    ensures
        limiter.outcome(state, cost, peek, now).decision matches Some(decision) ==> (
        decision.retry_after is Some <==> !peek && !decision.allowed
            && limiter.refill_rate().positive()),
{
}

/// A bucket is never said to have been full before.
pub proof fn reset_is_not_in_the_past(
    limiter: TokenBucket,
    state: BucketState,
    cost: u64,
    peek: bool,
    now: Instant,
)
    ensures
        limiter.outcome(state, cost, peek, now).decision matches Some(decision)
            ==> decision.reset_at.nanos >= now.nanos,
{
    if let Some(wait) = limiter.time_to_full(limiter.left(state, cost, peek, now)) {
        assert(wait.secs * NANOS_PER_SEC <= u64::MAX * NANOS_PER_SEC) by (nonlinear_arith)
            requires
                wait.secs <= u64::MAX,
        ;
    }
}

/// A check leaves the buckets under other keys as they are.
pub proof fn other_buckets_stay(
    limiter: TokenBucket,
    buckets: Map<Seq<char>, BucketState>,
    key: Seq<char>,
    other: Seq<char>,
    cost: u64,
    peek: bool,
    now: Instant,
)
    requires
        other != key,
    ensures
        ({
            let after = limiter.after_check(buckets, key, cost, peek, now);
            &&& after.contains_key(other) == buckets.contains_key(other)
            &&& after[other] == buckets[other]
        }),
{
}

/// A bucket that was full is full at any later time.
proof fn lemma_full_stays_full(limiter: TokenBucket, capacity: u64, since: Instant, now: Instant)
    requires
        is_limiter(limiter, capacity),
    ensures
        limiter.refilled(limiter.full(since), now) == limiter.capacity(),
{
    lemma_capacity(limiter, capacity);
    let state = limiter.full(since);
    refill_adds(limiter, capacity, state, now);
    let elapsed = of_nanos(now.elapsed(state.last_update)).seconds();
    let added = elapsed.times(limiter.refill_rate());
    seconds_are_finite(now.elapsed(state.last_update));
    product_is_at_least_zero(elapsed, limiter.refill_rate());
    let (cap, x) = (limiter.capacity(), limiter.refilled(state, now));
    assert(x.order() == cap.order());
    if cap.order() > 0 {
        assert(x.bits == cap.bits);
    } else if !added.is_nan() {
        adding_does_not_lower(cap, added);
        if added.order() == 0 {
            // Nothing, and nothing added.
            lemma_magnitude_zero(0);
            assert(added.rank() == 0 && cap.rank() == 0);
            assert(cap.units() == 0 && added.units() == 0);
            assert(cap.plus(added) == cap);
        }
    }
}

/// A peek changes nothing: whatever is asked later, under whatever key, is answered as if nobody
/// had peeked.
pub proof fn peek_changes_nothing(
    limiter: TokenBucket,
    capacity: u64,
    buckets: Map<Seq<char>, BucketState>,
    key: Seq<char>,
    cost: u64,
    now: Instant,
    later_key: Seq<char>,
    later_cost: u64,
    later_peek: bool,
    later: Instant,
)
    requires
        is_limiter(limiter, capacity),
    ensures
        limiter.answer(
            limiter.after_check(buckets, key, cost, true, now),
            later_key,
            later_cost,
            later_peek,
            later,
        ) == limiter.answer(buckets, later_key, later_cost, later_peek, later),
{
    if later_key == key && !buckets.contains_key(key) {
        lemma_full_stays_full(limiter, capacity, now, later);
        lemma_full_stays_full(limiter, capacity, later, later);
    }
}

} // verus!
