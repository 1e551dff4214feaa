//! How the token bucket counts: exactly, as long as all numbers are whole.

#[allow(unused_imports)]
use crate::algorithm::laws::{all_within, checks_keep_the_bounds, is_limiter, waiting_does_not_hurt};
use crate::algorithm::token_bucket::TokenBucket;
#[allow(unused_imports)]
use crate::algorithm::{Decision, RateLimiter};
#[allow(unused_imports)]
use crate::binary64::laws::{
    adding_does_not_lower, adding_zero, at_least_zero, great_products_stay_great,
    great_sums_stay_great, times_zero, whole_is_exact, whole_is_finite, whole_quotient_is_between,
    wholes_are_added, wholes_are_compared, wholes_are_divided, wholes_are_multiplied,
    wholes_are_ordered, wholes_are_subtracted, zero_times, MAX_EXACT,
};
#[allow(unused_imports)]
use crate::binary64::rounding::lemma_magnitude_zero;
use crate::binary64::Binary64;
use crate::store::BucketState;
use crate::time::{Duration, Instant};
#[allow(unused_imports)]
use crate::time::{
    length_is_between, of_nanos, seconds_are_finite, whole_seconds_are_exact,
    whole_seconds_make_a_length, NANOS_PER_SEC,
};
use vstd::prelude::*;

verus! {

/// Whether a bucket holds a whole number of tokens.
pub open spec fn holds_whole(state: BucketState, tokens: nat) -> bool {
    state.tokens == Binary64::of_whole(tokens)
}

/// Whether a limiter is one of the given capacity that never adds tokens.
pub open spec fn never_refills(limiter: TokenBucket, capacity: u64) -> bool {
    limiter.capacity() == Binary64::of_whole(capacity as nat) && limiter.refill_rate() == (
    Binary64 { bits: 0 })
}

/// Without a refill, tokens are counted down exactly: a request is allowed if and only if its
/// cost is there, and then takes just that.
pub proof fn tokens_are_counted_down(
    limiter: TokenBucket,
    capacity: u64,
    state: BucketState,
    tokens: u64,
    cost: u64,
    peek: bool,
    now: Instant,
)
    requires
        never_refills(limiter, capacity),
        tokens <= capacity <= MAX_EXACT,
        cost <= MAX_EXACT,
        holds_whole(state, tokens as nat),
    ensures
        ({
            let left: u64 = if !peek && cost <= tokens {
                (tokens - cost) as u64
            } else {
                tokens
            };
            &&& limiter.left(state, cost, peek, now) == Binary64::of_whole(left as nat)
            &&& limiter.outcome(state, cost, peek, now).decision == Some(
                Decision {
                    allowed: cost <= tokens,
                    remaining: left,
                    limit: capacity,
                    reset_at: now.after(of_nanos(0)),
                    retry_after: None,
                },
            )
        }),
{
    let elapsed = of_nanos(now.elapsed(state.last_update)).seconds();
    seconds_are_finite(now.elapsed(state.last_update));
    times_zero(elapsed);
    whole_is_exact(tokens as nat);
    whole_is_exact(capacity as nat);
    whole_is_exact(cost as nat);
    adding_zero(state.tokens, Binary64 { bits: 0 });
    wholes_are_ordered(tokens as nat, capacity as nat);
    wholes_are_compared(tokens as nat, cost as nat);
    assert(limiter.refilled(state, now) == state.tokens);
    if cost <= tokens {
        wholes_are_subtracted(tokens as nat, cost as nat);
        whole_is_exact((tokens - cost) as nat);
    }
}

/// The buckets after one check at each of the given times, all of them of one key and cost.
pub open spec fn after_checks(
    limiter: TokenBucket,
    buckets: Map<Seq<char>, BucketState>,
    key: Seq<char>,
    cost: u64,
    times: Seq<Instant>,
) -> Map<Seq<char>, BucketState>
    decreases times.len(),
{
    if times.len() == 0 {
        buckets
    } else {
        limiter.after_check(
            after_checks(limiter, buckets, key, cost, times.drop_last()),
            key,
            cost,
            false,
            times.last(),
        )
    }
}

/// The tokens that are left of a capacity after a number of requests of one cost.
pub open spec fn left_after(capacity: nat, cost: nat, requests: nat) -> nat
    decreases requests,
{
    if requests == 0 {
        capacity
    } else {
        let left = left_after(capacity, cost, (requests - 1) as nat);
        if cost <= left {
            (left - cost) as nat
        } else {
            left
        }
    }
}

proof fn lemma_left_after(capacity: nat, cost: nat, requests: nat)
    ensures
        left_after(capacity, cost, requests) <= capacity,
        requests * cost <= capacity ==> left_after(capacity, cost, requests) == capacity - requests
            * cost,
        (requests + 1) * cost <= capacity <==> cost <= left_after(capacity, cost, requests),
    decreases requests,
{
    assert((requests + 1) * cost == requests * cost + cost) by (nonlinear_arith);
    if requests > 0 {
        let before = (requests - 1) as nat;
        lemma_left_after(capacity, cost, before);
        assert(requests * cost == before * cost + cost) by (nonlinear_arith)
            requires
                requests == before + 1,
        ;
    } else {
        assert(0 * cost == 0);
    }
}

/// Without a refill, a new bucket allows just as many requests as its capacity pays for,
/// whenever they come.
pub proof fn capacity_is_used_up(
    limiter: TokenBucket,
    capacity: u64,
    buckets: Map<Seq<char>, BucketState>,
    key: Seq<char>,
    cost: u64,
    times: Seq<Instant>,
    now: Instant,
)
    requires
        never_refills(limiter, capacity),
        capacity <= MAX_EXACT,
        cost <= MAX_EXACT,
        !buckets.contains_key(key),
    ensures
        limiter.answer(
            after_checks(limiter, buckets, key, cost, times),
            key,
            cost,
            false,
            now,
        ) matches Ok(decision) && decision.allowed == ((times.len() + 1) * cost <= capacity),
    decreases times.len(),
{
    let left = left_after(capacity as nat, cost as nat, times.len());
    lemma_left_after(capacity as nat, cost as nat, times.len());
    let before = after_checks(limiter, buckets, key, cost, times);
    let state = limiter.bucket(before, key, now);
    lemma_counted(limiter, capacity, buckets, key, cost, times, now);
    tokens_are_counted_down(limiter, capacity, state, left as u64, cost, false, now);
}

proof fn lemma_counted(
    limiter: TokenBucket,
    capacity: u64,
    buckets: Map<Seq<char>, BucketState>,
    key: Seq<char>,
    cost: u64,
    times: Seq<Instant>,
    now: Instant,
)
    requires
        never_refills(limiter, capacity),
        capacity <= MAX_EXACT,
        cost <= MAX_EXACT,
        !buckets.contains_key(key),
    ensures
        holds_whole(
            limiter.bucket(after_checks(limiter, buckets, key, cost, times), key, now),
            left_after(capacity as nat, cost as nat, times.len()),
        ),
    decreases times.len(),
{
    if times.len() > 0 {
        let earlier = times.drop_last();
        let left = left_after(capacity as nat, cost as nat, earlier.len());
        lemma_left_after(capacity as nat, cost as nat, earlier.len());
        lemma_counted(limiter, capacity, buckets, key, cost, earlier, times.last());
        let before = after_checks(limiter, buckets, key, cost, earlier);
        let state = limiter.bucket(before, key, times.last());
        tokens_are_counted_down(limiter, capacity, state, left as u64, cost, false, times.last());
    }
}

/// What reaches the capacity is cut to it.
proof fn lemma_cut(x: Binary64, capacity: Binary64)
    requires
        at_least_zero(x),
        x.order() > 0,
        capacity.is_finite(),
        !capacity.negative(),
        x.order() >= capacity.order(),
    ensures
        x.lesser(capacity) == capacity,
{
    if x.order() == capacity.order() {
        assert(x.bits == capacity.bits);
    }
}

/// Whether a limiter is one of whole numbers: of tokens, and of tokens added per second.
pub open spec fn is_whole(limiter: TokenBucket, capacity: u64, rate: u64) -> bool {
    &&& limiter.capacity() == Binary64::of_whole(capacity as nat)
    &&& limiter.refill_rate() == Binary64::of_whole(rate as nat)
    &&& capacity <= MAX_EXACT
}

/// The tokens after a number of seconds.
pub open spec fn tokens_after(capacity: u64, rate: u64, tokens: nat, seconds: nat) -> nat {
    if tokens + seconds * rate <= capacity {
        tokens + seconds * rate as nat
    } else {
        capacity as nat
    }
}

/// In a whole number of seconds, a whole number of tokens per second is added exactly, up to the
/// capacity.
pub proof fn whole_seconds_refill_exactly(
    limiter: TokenBucket,
    capacity: u64,
    rate: u64,
    state: BucketState,
    tokens: u64,
    seconds: u64,
    now: Instant,
)
    requires
        is_whole(limiter, capacity, rate),
        tokens <= capacity,
        holds_whole(state, tokens as nat),
        now.nanos == state.last_update.nanos + seconds * NANOS_PER_SEC,
    ensures
        limiter.refilled(state, now) == Binary64::of_whole(
            tokens_after(capacity, rate, tokens as nat, seconds as nat),
        ),
{
    let n = (seconds * NANOS_PER_SEC) as nat;
    assert(n == now.elapsed(state.last_update));
    vstd::arithmetic::div_mod::lemma_fundamental_div_mod_converse(
        n as int,
        NANOS_PER_SEC as int,
        seconds as int,
        0,
    );
    whole_seconds_are_exact(seconds);
    assert(of_nanos(n).seconds() == Binary64::of_whole(seconds as nat));
    whole_is_exact(tokens as nat);
    whole_is_exact(capacity as nat);
    whole_is_exact(seconds as nat);
    whole_is_finite(rate as nat);
    let elapsed = Binary64::of_whole(seconds as nat);
    let product = elapsed.times(limiter.refill_rate());
    let added = seconds as nat * rate as nat;
    if seconds == 0 {
        assert(0 * rate == 0);
        zero_times(limiter.refill_rate());
        adding_zero(state.tokens, product);
        wholes_are_ordered(tokens as nat, capacity as nat);
    } else if added < MAX_EXACT {
        assert(rate <= added) by (nonlinear_arith)
            requires
                added == seconds * rate,
                seconds >= 1,
        ;
        wholes_are_multiplied(seconds as nat, rate as nat);
        whole_is_exact(added);
        if tokens + added <= MAX_EXACT {
            wholes_are_added(tokens as nat, added);
            whole_is_exact(tokens as nat + added);
            wholes_are_compared(capacity as nat, tokens as nat + added);
            wholes_are_compared(tokens as nat + added, capacity as nat);
        } else {
            great_sums_stay_great(tokens as nat, added);
            adding_does_not_lower(state.tokens, product);
            lemma_great(capacity);
            lemma_cut(state.tokens.plus(product), limiter.capacity());
        }
    } else {
        great_products_stay_great(seconds as nat, rate as nat);
        adding_does_not_lower(state.tokens, product);
        lemma_great(capacity);
        if tokens + added == capacity {
            assert(tokens == 0 && added == capacity);
        }
        lemma_cut(state.tokens.plus(product), limiter.capacity());
    }
}

proof fn lemma_great(capacity: u64)
    requires
        capacity <= MAX_EXACT,
    ensures
        0 < Binary64::of_whole(MAX_EXACT as nat).order(),
        Binary64::of_whole(capacity as nat).order() <= Binary64::of_whole(MAX_EXACT as nat).order(),
{
    wholes_are_ordered(capacity as nat, MAX_EXACT as nat);
    wholes_are_compared(0, MAX_EXACT as nat);
    whole_is_exact(0);
    whole_is_exact(MAX_EXACT as nat);
    lemma_magnitude_zero(Binary64::of_whole(0).rank());
}

/// A whole number of seconds after a denial the tokens are there if and only if so many have been
/// added by then.
pub proof fn whole_seconds_decide(
    limiter: TokenBucket,
    capacity: u64,
    rate: u64,
    state: BucketState,
    tokens: u64,
    cost: u64,
    seconds: u64,
    later: Instant,
)
    requires
        is_whole(limiter, capacity, rate),
        tokens <= capacity,
        cost <= capacity,
        holds_whole(state, tokens as nat),
        later.nanos == state.last_update.nanos + seconds * NANOS_PER_SEC,
    ensures
        limiter.affords(state, cost, later) <==> tokens + seconds * rate >= cost,
{
    whole_seconds_refill_exactly(limiter, capacity, rate, state, tokens, seconds, later);
    wholes_are_compared(
        tokens_after(capacity, rate, tokens as nat, seconds as nat),
        cost as nat,
    );
}

/// Who is denied is told to wait for so many seconds as the missing tokens take, where that is a
/// whole number. From then on the tokens are there, and at no whole second before.
pub proof fn waiting_as_told_suffices(
    limiter: TokenBucket,
    capacity: u64,
    rate: u64,
    state: BucketState,
    tokens: u64,
    cost: u64,
    seconds: u64,
    now: Instant,
    later: Instant,
)
    requires
        is_whole(limiter, capacity, rate),
        tokens < cost <= capacity,
        holds_whole(state, tokens as nat),
        state.last_update == now,
        cost == tokens + seconds * rate,
        later.nanos >= now.nanos,
    ensures
        !limiter.affords(state, cost, now),
        limiter.retry(state, cost, now) == Some(Duration { secs: seconds, nanos: 0 }),
        limiter.outcome(state, cost, false, now).commit == Some(state),
        later.nanos >= now.nanos + seconds * NANOS_PER_SEC ==> limiter.affords(state, cost, later),
        later.nanos < now.nanos + seconds * NANOS_PER_SEC && (later.nanos - now.nanos)
            % NANOS_PER_SEC as int == 0 ==> !limiter.affords(state, cost, later),
{
    assert(0 * NANOS_PER_SEC == 0);
    assert(0 * rate == 0);
    whole_seconds_refill_exactly(limiter, capacity, rate, state, tokens, 0, now);
    wholes_are_compared(tokens as nat, cost as nat);
    wholes_are_subtracted(cost as nat, tokens as nat);
    assert(0 < rate && 0 < seconds && rate <= seconds * rate && seconds <= seconds * rate)
        by (nonlinear_arith)
        requires
            seconds * rate > 0,
            seconds >= 0,
            rate >= 0,
    ;
    wholes_are_divided(seconds as nat, rate as nat);
    whole_seconds_make_a_length(seconds);
    if later.nanos >= now.nanos + seconds * NANOS_PER_SEC {
        let told = Instant { nanos: (now.nanos + seconds * NANOS_PER_SEC) as u64 };
        whole_seconds_decide(limiter, capacity, rate, state, tokens, cost, seconds, told);
        whole_is_exact(tokens as nat);
        whole_is_finite(rate as nat);
        wholes_are_ordered(tokens as nat, capacity as nat);
        waiting_does_not_hurt(limiter, capacity, state, cost, told, later);
    } else if (later.nanos - now.nanos) % NANOS_PER_SEC as int == 0 {
        let early = ((later.nanos - now.nanos) / NANOS_PER_SEC as int) as u64;
        assert(early < seconds);
        whole_seconds_decide(limiter, capacity, rate, state, tokens, cost, early, later);
        assert(early * rate < seconds * rate) by (nonlinear_arith)
            requires
                early < seconds,
                rate > 0,
        ;
    }
    // What a denial commits is the bucket as it is.
    assert(limiter.left(state, cost, false, now) == state.tokens);
}

/// What costs more than the capacity is never allowed.
pub proof fn cost_above_capacity_is_denied(
    limiter: TokenBucket,
    capacity: u64,
    state: BucketState,
    cost: u64,
    now: Instant,
)
    requires
        limiter.capacity() == Binary64::of_whole(capacity as nat),
        capacity < cost,
        capacity < MAX_EXACT,
    ensures
        !limiter.affords(state, cost, now),
{
    whole_is_exact(capacity as nat);
    whole_is_exact(capacity as nat + 1);
    wholes_are_compared(capacity as nat, capacity as nat + 1);
    wholes_are_ordered(capacity as nat + 1, cost as nat);
}

/// Who is denied is told a wait that is right to the second: the tokens are not there at the last
/// whole second before it, and they are at the first one after it.
pub proof fn told_wait_is_right_to_the_second(
    limiter: TokenBucket,
    capacity: u64,
    rate: u64,
    state: BucketState,
    tokens: u64,
    cost: u64,
    seconds: u64,
    now: Instant,
    before: Instant,
    after: Instant,
)
    requires
        is_whole(limiter, capacity, rate),
        rate <= MAX_EXACT,
        tokens < cost <= capacity,
        holds_whole(state, tokens as nat),
        state.last_update == now,
        tokens + seconds * rate < cost <= tokens + (seconds + 1) * rate,
        before.nanos == now.nanos + seconds * NANOS_PER_SEC,
        after.nanos == now.nanos + (seconds + 1) * NANOS_PER_SEC,
    ensures
        limiter.retry(state, cost, now) matches Some(wait) && seconds * NANOS_PER_SEC
            <= wait.total() <= (seconds + 1) * NANOS_PER_SEC,
        !limiter.affords(state, cost, before),
        limiter.affords(state, cost, after),
{
    let missing = (cost - tokens) as nat;
    assert(0 * NANOS_PER_SEC == 0);
    assert(0 * rate == 0);
    whole_seconds_refill_exactly(limiter, capacity, rate, state, tokens, 0, now);
    wholes_are_subtracted(cost as nat, tokens as nat);
    assert(rate > 0 && seconds <= seconds * rate) by (nonlinear_arith)
        requires
            seconds * rate < (seconds + 1) * rate,
            seconds >= 0,
    ;
    whole_quotient_is_between(missing, rate as nat, seconds as nat);
    length_is_between(
        Binary64::of_whole(missing).over(Binary64::of_whole(rate as nat)),
        seconds,
        (seconds + 1) as u64,
    );
    whole_seconds_decide(limiter, capacity, rate, state, tokens, cost, seconds, before);
    whole_seconds_decide(
        limiter,
        capacity,
        rate,
        state,
        tokens,
        cost,
        (seconds + 1) as u64,
        after,
    );
}

/// In no time nothing is added.
proof fn lemma_no_time(limiter: TokenBucket, state: BucketState, now: Instant)
    requires
        limiter.refill_rate().is_finite(),
        limiter.capacity().is_finite(),
        state.tokens.is_finite(),
        !state.tokens.negative(),
        state.tokens.order() <= limiter.capacity().order(),
        state.last_update == now,
    ensures
        limiter.refilled(state, now) == state.tokens,
{
    whole_seconds_are_exact(0);
    zero_times(limiter.refill_rate());
    adding_zero(state.tokens, Binary64::of_whole(0).times(limiter.refill_rate()));
}

/// A number of checks at one moment.
pub open spec fn at_once(requests: nat, now: Instant) -> Seq<Instant> {
    Seq::new(requests, |i: int| now)
}

proof fn lemma_counted_at_once(
    limiter: TokenBucket,
    capacity: u64,
    buckets: Map<Seq<char>, BucketState>,
    key: Seq<char>,
    cost: u64,
    requests: nat,
    now: Instant,
)
    requires
        limiter.capacity() == Binary64::of_whole(capacity as nat),
        limiter.refill_rate().is_finite(),
        capacity <= MAX_EXACT,
        cost <= MAX_EXACT,
        !buckets.contains_key(key),
    ensures
        ({
            let after = after_checks(limiter, buckets, key, cost, at_once(requests, now));
            let state = limiter.bucket(after, key, now);
            let left = left_after(capacity as nat, cost as nat, requests);
            &&& holds_whole(state, left)
            &&& state.last_update == now
            &&& limiter.refilled(state, now) == state.tokens
            &&& limiter.affords(state, cost, now) <==> cost <= left
        }),
    decreases requests,
{
    let after = after_checks(limiter, buckets, key, cost, at_once(requests, now));
    let state = limiter.bucket(after, key, now);
    let left = left_after(capacity as nat, cost as nat, requests);
    lemma_left_after(capacity as nat, cost as nat, requests);
    if requests > 0 {
        let fewer = (requests - 1) as nat;
        assert(at_once(requests, now).drop_last() =~= at_once(fewer, now));
        lemma_counted_at_once(limiter, capacity, buckets, key, cost, fewer, now);
        let left_before = left_after(capacity as nat, cost as nat, fewer);
        lemma_left_after(capacity as nat, cost as nat, fewer);
        if cost <= left_before {
            wholes_are_subtracted(left_before, cost as nat);
        }
    }
    whole_is_exact(left);
    whole_is_exact(capacity as nat);
    wholes_are_ordered(left, capacity as nat);
    lemma_no_time(limiter, state, now);
    wholes_are_compared(left, cost as nat);
}

/// At one moment, a new bucket allows just as many requests as its capacity pays for, whatever is
/// added per second.
pub proof fn capacity_is_used_up_at_once(
    limiter: TokenBucket,
    capacity: u64,
    buckets: Map<Seq<char>, BucketState>,
    key: Seq<char>,
    cost: u64,
    requests: nat,
    now: Instant,
)
    requires
        limiter.capacity() == Binary64::of_whole(capacity as nat),
        limiter.refill_rate().is_finite(),
        capacity <= MAX_EXACT,
        cost <= MAX_EXACT,
        !buckets.contains_key(key),
    ensures
        ({
            let after = after_checks(limiter, buckets, key, cost, at_once(requests, now));
            &&& limiter.affords(limiter.bucket(after, key, now), cost, now) <==> (requests + 1)
                * cost <= capacity
            &&& limiter.answer(after, key, cost, false, now) matches Ok(decision)
                ==> decision.allowed == ((requests + 1) * cost <= capacity)
        }),
{
    lemma_counted_at_once(limiter, capacity, buckets, key, cost, requests, now);
    lemma_left_after(capacity as nat, cost as nat, requests);
}

/// A check: its moment and its cost.
pub struct Check {
    pub at: Instant,
    pub cost: u64,
}

/// The buckets after a run of checks of one key.
pub open spec fn after_run(
    limiter: TokenBucket,
    buckets: Map<Seq<char>, BucketState>,
    key: Seq<char>,
    run: Seq<Check>,
) -> Map<Seq<char>, BucketState>
    decreases run.len(),
{
    if run.len() == 0 {
        buckets
    } else {
        limiter.after_check(
            after_run(limiter, buckets, key, run.drop_last()),
            key,
            run.last().cost,
            false,
            run.last().at,
        )
    }
}

/// The tokens that the allowed checks of a run take together.
pub open spec fn spent(
    limiter: TokenBucket,
    buckets: Map<Seq<char>, BucketState>,
    key: Seq<char>,
    run: Seq<Check>,
) -> nat
    decreases run.len(),
{
    if run.len() == 0 {
        0
    } else {
        let last = run.last();
        let before = after_run(limiter, buckets, key, run.drop_last());
        let allowed = limiter.affords(limiter.bucket(before, key, last.at), last.cost, last.at);
        spent(limiter, buckets, key, run.drop_last()) + if allowed {
            last.cost as nat
        } else {
            0
        }
    }
}

/// A run of checks keeps all buckets within bounds.
pub proof fn runs_keep_the_bounds(
    limiter: TokenBucket,
    capacity: u64,
    buckets: Map<Seq<char>, BucketState>,
    key: Seq<char>,
    run: Seq<Check>,
)
    requires
        is_limiter(limiter, capacity),
        all_within(limiter, buckets),
    ensures
        all_within(limiter, after_run(limiter, buckets, key, run)),
    decreases run.len(),
{
    if run.len() > 0 {
        runs_keep_the_bounds(limiter, capacity, buckets, key, run.drop_last());
        let before = after_run(limiter, buckets, key, run.drop_last());
        let last = run.last();
        checks_keep_the_bounds(limiter, capacity, before, key, last.cost, false, last.at);
    }
}

/// Whether a whole number of seconds lies between two moments, the first being no later.
pub open spec fn whole_apart(a: Instant, b: Instant) -> bool {
    a.nanos <= b.nanos && (b.nanos - a.nanos) % NANOS_PER_SEC as int == 0
}

/// The whole seconds between two moments.
pub open spec fn seconds_apart(a: Instant, b: Instant) -> nat {
    ((b.nanos - a.nanos) / NANOS_PER_SEC as int) as nat
}

/// Whether a run takes place from `start` to `end`, with whole seconds between its checks.
pub open spec fn runs_between(run: Seq<Check>, start: Instant, end: Instant) -> bool {
    &&& whole_apart(start, end)
    &&& forall|i: int|
        0 <= i < run.len() ==> whole_apart(start, (#[trigger] run[i]).at) && run[i].at.nanos
            <= end.nanos && run[i].cost <= MAX_EXACT
    &&& forall|i: int, j: int|
        0 <= i < j < run.len() ==> (#[trigger] run[i]).at.nanos <= (#[trigger] run[j]).at.nanos
}

/// Whether a bucket, where there is one, holds a whole number of tokens up to the capacity, and
/// was brought up to date a whole number of seconds before `start`.
pub open spec fn is_ready(
    limiter: TokenBucket,
    capacity: u64,
    buckets: Map<Seq<char>, BucketState>,
    key: Seq<char>,
    tokens: u64,
    start: Instant,
) -> bool {
    buckets.contains_key(key) ==> {
        &&& tokens <= capacity
        &&& holds_whole(buckets[key], tokens as nat)
        &&& whole_apart(buckets[key].last_update, start)
    }
}

proof fn lemma_apart(a: Instant, b: Instant, c: Instant)
    requires
        whole_apart(a, b),
        whole_apart(a, c),
        b.nanos <= c.nanos,
    ensures
        whole_apart(b, c),
        seconds_apart(a, c) == seconds_apart(a, b) + seconds_apart(b, c),
        c.nanos == b.nanos + seconds_apart(b, c) * NANOS_PER_SEC,
{
}

/// What is so after a run: the bucket holds a whole number of tokens, and what was spent, with
/// what is left, is within the capacity and what was added since `start`.
spec fn is_accounted(
    limiter: TokenBucket,
    capacity: u64,
    rate: u64,
    state: BucketState,
    tokens: nat,
    sum: nat,
    start: Instant,
    until: Instant,
) -> bool {
    &&& tokens <= capacity
    &&& holds_whole(state, tokens)
    &&& state.last_update.nanos <= until.nanos
    &&& if whole_apart(start, state.last_update) {
        sum + tokens <= capacity + rate * seconds_apart(start, state.last_update)
    } else {
        sum == 0 && whole_apart(state.last_update, start)
    }
}

proof fn lemma_step(
    limiter: TokenBucket,
    capacity: u64,
    rate: u64,
    state: BucketState,
    tokens: nat,
    sum: nat,
    start: Instant,
    check: Check,
) -> (left: nat)
    requires
        is_whole(limiter, capacity, rate),
        is_accounted(limiter, capacity, rate, state, tokens, sum, start, check.at),
        whole_apart(start, check.at),
        check.cost <= MAX_EXACT,
    ensures
        ({
            let outcome = limiter.outcome(state, check.cost, false, check.at);
            let new = match outcome.commit {
                Some(new) => new,
                None => state,
            };
            let total = sum + if limiter.affords(state, check.cost, check.at) {
                check.cost as nat
            } else {
                0
            };
            is_accounted(limiter, capacity, rate, new, left, total, start, check.at)
        }),
{
    let since = state.last_update;
    if whole_apart(start, since) {
        lemma_apart(start, since, check.at);
    } else {
        assert(whole_apart(since, check.at));
        lemma_apart(since, since, check.at);
    }
    let seconds = seconds_apart(since, check.at);
    let refilled = tokens_after(capacity, rate, tokens, seconds);
    whole_seconds_refill_exactly(
        limiter,
        capacity,
        rate,
        state,
        tokens as u64,
        seconds as u64,
        check.at,
    );
    wholes_are_compared(refilled, check.cost as nat);
    if whole_apart(start, since) {
        let (a, b) = (seconds_apart(start, since), seconds);
        assert(rate * (a + b) == rate * a + b * rate) by (nonlinear_arith);
    }
    assert(rate * seconds_apart(start, check.at) >= 0) by (nonlinear_arith);
    let outcome = limiter.outcome(state, check.cost, false, check.at);
    if limiter.affords(state, check.cost, check.at) {
        wholes_are_subtracted(refilled, check.cost as nat);
        (refilled - check.cost) as nat
    } else if outcome.commit is Some {
        refilled
    } else {
        tokens
    }
}

proof fn lemma_accounted(
    limiter: TokenBucket,
    capacity: u64,
    rate: u64,
    buckets: Map<Seq<char>, BucketState>,
    key: Seq<char>,
    tokens: u64,
    run: Seq<Check>,
    start: Instant,
    end: Instant,
    now: Instant,
) -> (left: nat)
    requires
        is_whole(limiter, capacity, rate),
        is_ready(limiter, capacity, buckets, key, tokens, start),
        runs_between(run, start, end),
        whole_apart(start, now),
        forall|i: int| 0 <= i < run.len() ==> (#[trigger] run[i]).at.nanos <= now.nanos,
    ensures
        is_accounted(
            limiter,
            capacity,
            rate,
            limiter.bucket(after_run(limiter, buckets, key, run), key, now),
            left,
            spent(limiter, buckets, key, run),
            start,
            now,
        ),
    decreases run.len(),
{
    assert(rate * seconds_apart(start, now) >= 0) by (nonlinear_arith);
    if run.len() == 0 {
        if buckets.contains_key(key) {
            let state = buckets[key];
            if whole_apart(start, state.last_update) {
                assert(rate * seconds_apart(start, state.last_update) >= 0) by (nonlinear_arith);
            }
            tokens as nat
        } else {
            capacity as nat
        }
    } else {
        let earlier = run.drop_last();
        let last = run.last();
        assert forall|i: int| 0 <= i < earlier.len() implies (#[trigger] earlier[i]).at.nanos
            <= last.at.nanos by {
            assert(earlier[i] == run[i]);
            assert(run[i].at.nanos <= run[run.len() - 1].at.nanos);
        }
        assert(runs_between(earlier, start, end)) by {
            assert forall|i: int| 0 <= i < earlier.len() implies whole_apart(
                start,
                (#[trigger] earlier[i]).at,
            ) && earlier[i].at.nanos <= end.nanos && earlier[i].cost <= MAX_EXACT by {
                assert(earlier[i] == run[i]);
            }
            assert forall|i: int, j: int| 0 <= i < j < earlier.len() implies (
            #[trigger] earlier[i]).at.nanos <= (#[trigger] earlier[j]).at.nanos by {
                assert(earlier[i] == run[i] && earlier[j] == run[j]);
            }
        }
        assert(run[run.len() - 1] == last);
        let w = lemma_accounted(
            limiter,
            capacity,
            rate,
            buckets,
            key,
            tokens,
            earlier,
            start,
            end,
            last.at,
        );
        let before = after_run(limiter, buckets, key, earlier);
        let state = limiter.bucket(before, key, last.at);
        lemma_step(
            limiter,
            capacity,
            rate,
            state,
            w,
            spent(limiter, buckets, key, earlier),
            start,
            last,
        )
    }
}

/// The checks that are allowed from `start` to `end` take no more than the capacity and what is
/// added in that time, where all numbers are whole.
pub proof fn spending_is_bounded(
    limiter: TokenBucket,
    capacity: u64,
    rate: u64,
    buckets: Map<Seq<char>, BucketState>,
    key: Seq<char>,
    tokens: u64,
    run: Seq<Check>,
    start: Instant,
    end: Instant,
)
    requires
        is_whole(limiter, capacity, rate),
        is_ready(limiter, capacity, buckets, key, tokens, start),
        runs_between(run, start, end),
    ensures
        spent(limiter, buckets, key, run) <= capacity + rate * seconds_apart(start, end),
{
    let left = lemma_accounted(
        limiter,
        capacity,
        rate,
        buckets,
        key,
        tokens,
        run,
        start,
        end,
        end,
    );
    let state = limiter.bucket(after_run(limiter, buckets, key, run), key, end);
    assert(rate * seconds_apart(start, end) >= 0) by (nonlinear_arith);
    if whole_apart(start, state.last_update) {
        lemma_apart(start, state.last_update, end);
        let (a, b) = (seconds_apart(start, state.last_update), seconds_apart(start, end));
        assert(rate * a <= rate * b) by (nonlinear_arith)
            requires
                a <= b,
        ;
    }
}

} // verus!
