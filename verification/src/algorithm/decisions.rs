//! What decisions say: who is allowed, what remains, when to retry and when the bucket is full.

#[allow(unused_imports)]
use crate::algorithm::counting::{tokens_after, whole_seconds_refill_exactly};
use crate::algorithm::token_bucket::TokenBucket;
#[allow(unused_imports)]
use crate::algorithm::RateLimiter;
#[allow(unused_imports)]
use crate::algorithm::estimates::{
    added, lemma_added, lemma_added_upper, lemma_refilled_upper, seconds_are_near, FINE,
};
#[allow(unused_imports)]
use crate::algorithm::laws::{bucket_stays_within, is_limiter, is_within, refill_adds};
#[allow(unused_imports)]
use crate::algorithm::waiting::lemma_at_rest;
#[allow(unused_imports)]
use crate::binary64::error::{
    near, near_is_scaled, near_is_transitive, near_is_unscaled, rounding_down_is_near_or_half,
};
#[allow(unused_imports)]
use crate::binary64::laws::{
    at_least_zero, nearest_exists, nearest_is_exact, nearest_is_monotone, whole_is_finite,
    whole_is_exact, whole_quotient_is_between, wholes_are_compared, wholes_are_divided,
    wholes_are_ordered, wholes_are_subtracted, MAX_EXACT,
};
#[allow(unused_imports)]
use crate::binary64::rounding::{
    lemma_magnitude_monotone, lemma_magnitude_zero, magnitude, INFINITE,
};
#[allow(unused_imports)]
use vstd::arithmetic::power2::{lemma_pow2_pos, pow2};
use crate::binary64::Binary64;
use crate::store::BucketState;
#[allow(unused_imports)]
use crate::time::{length_is_between, of_nanos, whole_seconds_make_a_length, NANOS_PER_SEC};
use crate::time::{Duration, Instant};
use vstd::prelude::*;

verus! {

/// The whole seconds between which a number of tokens is added.
proof fn lemma_between(missing: nat, rate: nat) -> (q: nat)
    requires
        missing <= MAX_EXACT,
        0 < rate <= MAX_EXACT,
    ensures
        q + 1 <= MAX_EXACT,
        q * rate <= missing <= (q + 1) * rate,
        ({
            let quotient = Binary64::of_whole(missing).over(Binary64::of_whole(rate));
            &&& !quotient.is_nan()
            &&& !quotient.negative()
            &&& Duration::of_seconds(quotient) matches Some(length) && q * NANOS_PER_SEC
                <= length.total() <= (q + 1) * NANOS_PER_SEC
        }),
{
    let f = missing / rate;
    vstd::arithmetic::div_mod::lemma_fundamental_div_mod(missing as int, rate as int);
    assert(f <= missing) by (nonlinear_arith)
        requires
            missing == rate * f + missing % rate,
            missing % rate >= 0,
            rate >= 1,
            f >= 0,
    ;
    let q = if f == MAX_EXACT {
        (f - 1) as nat
    } else {
        f
    };
    if f == MAX_EXACT {
        assert(rate == 1) by (nonlinear_arith)
            requires
                missing == rate * f + missing % rate,
                missing % rate >= 0,
                missing <= f,
                f > 0,
                rate >= 1,
        ;
        assert(q * 1 <= missing <= (q + 1) * 1);
    } else {
        assert(q * rate <= missing <= (q + 1) * rate) by (nonlinear_arith)
            requires
                missing == rate * q + missing % rate,
                0 <= missing % rate < rate,
        ;
    }
    whole_quotient_is_between(missing, rate, q);
    length_is_between(
        Binary64::of_whole(missing).over(Binary64::of_whole(rate)),
        q as u64,
        (q + 1) as u64,
    );
    q
}

/// Of whole numbers a check decides exactly. Let a bucket hold `tokens`, or be new and so full,
/// and let `seconds` have passed since it was last used. It then holds as many more as were added,
/// up to the capacity. A request is allowed if and only if its cost is there, and then takes it,
/// unless it only peeks. What remains is what is left. The wait, told to those denied only, and
/// only where something is added, is as long as it takes to add what is missing; the reset is as
/// far ahead as it takes to fill the bucket. Nothing else changes.
pub proof fn whole_numbers_are_decided_exactly(
    limiter: TokenBucket,
    capacity: u64,
    rate: u64,
    buckets: Map<Seq<char>, BucketState>,
    key: Seq<char>,
    tokens: u64,
    seconds: u64,
    cost: u64,
    peek: bool,
    now: Instant,
    span: u64,
    other: Seq<char>,
)
    requires
        limiter.capacity() == Binary64::of_whole(capacity as nat),
        limiter.refill_rate() == Binary64::of_whole(rate as nat),
        tokens <= capacity <= 0x20_0000_0000_0000,
        cost <= 0x20_0000_0000_0000,
        rate <= 0x20_0000_0000_0000,
        buckets.contains_key(key) ==> buckets[key].tokens == Binary64::of_whole(tokens as nat)
            && now.nanos == buckets[key].last_update.nanos + seconds * 1_000_000_000,
        !buckets.contains_key(key) ==> tokens == capacity && seconds == 0,
    ensures
        ({
            let have = if tokens + seconds * rate <= capacity {
                tokens + seconds * rate
            } else {
                capacity as int
            };
            let left = if !peek && cost <= have {
                have - cost
            } else {
                have
            };
            let after = limiter.after_check(buckets, key, cost, peek, now);
            &&& limiter.answer(buckets, key, cost, peek, now) matches Ok(decision) && {
                &&& decision.allowed <==> cost <= have
                &&& decision.remaining == left
                &&& decision.limit == capacity
                &&& decision.retry_after is Some <==> !peek && cost > have && rate > 0
                &&& decision.retry_after matches Some(wait) ==> {
                    &&& cost == have + span * rate ==> wait.secs == span && wait.nanos == 0
                    &&& have + span * rate < cost <= have + (span + 1) * rate ==> span
                        * 1_000_000_000 <= wait.secs * 1_000_000_000 + wait.nanos <= (span + 1)
                        * 1_000_000_000
                }
                &&& rate == 0 ==> decision.reset_at.nanos == now.nanos
                &&& rate > 0 && capacity == left + span * rate ==> decision.reset_at.nanos
                    == now.nanos + span * 1_000_000_000
                &&& rate > 0 && left + span * rate < capacity <= left + (span + 1) * rate
                    ==> now.nanos + span * 1_000_000_000 <= decision.reset_at.nanos <= now.nanos + (
                span + 1) * 1_000_000_000
            }
            &&& after.contains_key(key)
            &&& !peek ==> after[key].tokens == Binary64::of_whole(left as nat)
                && after[key].last_update == now
            &&& peek && buckets.contains_key(key) ==> after[key] == buckets[key]
            &&& peek && !buckets.contains_key(key) ==> after[key].tokens == Binary64::of_whole(
                capacity as nat,
            ) && after[key].last_update == now
            &&& other != key ==> after.contains_key(other) == buckets.contains_key(other)
                && after[other] == buckets[other]
        }),
{
    let state = limiter.bucket(buckets, key, now);
    let zero = Binary64::of_whole(0);
    let per_second = limiter.refill_rate();
    assert(0 * NANOS_PER_SEC == 0);
    assert(0 * rate == 0);
    assert(tokens + seconds * rate >= 0) by (nonlinear_arith)
        requires
            tokens >= 0,
            seconds >= 0,
            rate >= 0,
    ;
    whole_seconds_refill_exactly(limiter, capacity, rate, state, tokens, seconds, now);
    let have = tokens_after(capacity, rate, tokens as nat, seconds as nat);
    assert(have <= capacity);
    let left = if !peek && cost <= have {
        (have - cost) as nat
    } else {
        have
    };
    whole_is_exact(0);
    whole_is_exact(have);
    whole_is_exact(left);
    whole_is_exact(cost as nat);
    whole_is_exact(capacity as nat);
    whole_is_exact(rate as nat);
    wholes_are_compared(have, cost as nat);
    wholes_are_compared(0, rate as nat);
    lemma_magnitude_zero(zero.rank());
    assert(0 * vstd::arithmetic::power2::pow2(1074) == 0);
    assert(per_second.positive() <==> rate > 0);
    if cost <= have {
        wholes_are_subtracted(have, cost as nat);
    }
    assert(limiter.left(state, cost, peek, now) == Binary64::of_whole(left));
    wholes_are_subtracted(capacity as nat, left);
    lemma_span_multiples(span, rate);
    if rate > 0 {
        let lacking = (capacity - left) as nat;
        let q = lemma_between(lacking, rate as nat);
        lemma_span(lacking, rate as nat, q, span as nat);
        lemma_after(now, limiter, left);
        if !peek && cost > have {
            wholes_are_subtracted(cost as nat, have);
            let missing = (cost - have) as nat;
            let r = lemma_between(missing, rate as nat);
            lemma_span(missing, rate as nat, r, span as nat);
        }
    }
}

proof fn lemma_span_multiples(span: u64, rate: u64)
    ensures
        span * rate >= 0,
        (span + 1) * rate == span * rate + rate,
{
    assert(span * rate >= 0 && (span + 1) * rate == span * rate + rate) by (nonlinear_arith)
        requires
            span >= 0,
            rate >= 0,
    ;
}

/// The wait for a number of tokens: exact where that is a whole number of seconds, else between
/// two whole numbers.
proof fn lemma_span(missing: nat, rate: nat, q: nat, span: nat)
    requires
        missing <= MAX_EXACT,
        0 < rate <= MAX_EXACT,
        q + 1 <= MAX_EXACT,
        q * rate <= missing <= (q + 1) * rate,
        Duration::of_seconds(
            Binary64::of_whole(missing).over(Binary64::of_whole(rate)),
        ) matches Some(length) && q * NANOS_PER_SEC <= length.total() <= (q + 1) * NANOS_PER_SEC,
    ensures
        ({
            let length = Duration::of_seconds(
                Binary64::of_whole(missing).over(Binary64::of_whole(rate)),
            );
            &&& missing == span * rate ==> length == Some(Duration { secs: span as u64, nanos: 0 })
                && span <= u64::MAX
            &&& span * rate < missing <= (span + 1) * rate ==> span * NANOS_PER_SEC
                <= length->Some_0.total() <= (span + 1) * NANOS_PER_SEC
        }),
{
    if missing == span * rate {
        assert(span <= missing) by (nonlinear_arith)
            requires
                missing == span * rate,
                rate >= 1,
                span >= 0,
        ;
        wholes_are_divided(span, rate);
        whole_seconds_make_a_length(span as u64);
    }
    if span * rate < missing <= (span + 1) * rate {
        assert(span == q || span + 1 == q && missing == q * rate || span == q + 1 && false)
            by (nonlinear_arith)
            requires
                span * rate < missing <= (span + 1) * rate,
                q * rate <= missing <= (q + 1) * rate,
                rate >= 1,
        ;
        if span + 1 == q {
            wholes_are_divided(q, rate);
            whole_seconds_make_a_length(q as u64);
        }
    }
}

proof fn lemma_after(now: Instant, limiter: TokenBucket, left: nat)
    ensures
        limiter.time_to_full(Binary64::of_whole(left)) matches Some(time) ==> now.after(time).nanos
            == now.nanos + time.secs * 1_000_000_000 + time.nanos,
{
    if let Some(time) = limiter.time_to_full(Binary64::of_whole(left)) {
        assert(time.secs * NANOS_PER_SEC <= u64::MAX * NANOS_PER_SEC) by (nonlinear_arith)
            requires
                time.secs <= u64::MAX,
        ;
    }
}

/// Whether a value is at least a whole number is a matter of its whole part.
proof fn lemma_whole_part_decides(x: Binary64, n: u64)
    requires
        x.is_finite(),
        at_least_zero(x),
        n <= MAX_EXACT,
    ensures
        x.at_least(Binary64::of_whole(n as nat)) <==> n <= x.whole_part(),
{
    let p = pow2(1074);
    let y = Binary64::of_whole(n as nat);
    whole_is_exact(n as nat);
    lemma_pow2_pos(1074);
    lemma_magnitude_zero(x.rank());
    let m = magnitude(x.rank());
    if y.rank() < x.rank() {
        lemma_magnitude_monotone(y.rank(), x.rank());
    }
    if x.rank() < y.rank() {
        lemma_magnitude_monotone(x.rank(), y.rank());
    }
    assert(x.at_least(y) <==> m >= n * p);
    vstd::arithmetic::div_mod::lemma_fundamental_div_mod(m as int, p as int);
    let q = m / p;
    assert(m >= n * p <==> q >= n) by (nonlinear_arith)
        requires
            m == p * q + m % p,
            0 <= m % p < p,
    ;
    if x.negative() {
        assert(x.rank() == 0 && m == 0);
        assert(n > 0 ==> n * p > 0) by (nonlinear_arith)
            requires
                p > 0,
        ;
    }
}

/// What remains is just what can be spent at the same moment.
pub proof fn what_remains_can_be_spent(
    limiter: TokenBucket,
    capacity: u64,
    buckets: Map<Seq<char>, BucketState>,
    key: Seq<char>,
    cost: u64,
    peek: bool,
    now: Instant,
    next: u64,
    next_peek: bool,
)
    requires
        is_limiter(limiter, capacity),
        limiter.refill_rate().is_finite(),
        buckets.contains_key(key) ==> is_within(limiter, buckets[key]),
        next <= 0x20_0000_0000_0000,
    ensures
        limiter.answer(buckets, key, cost, peek, now) matches Ok(decision) ==> (limiter.answer(
            limiter.after_check(buckets, key, cost, peek, now),
            key,
            next,
            next_peek,
            now,
        ) matches Ok(later) ==> (later.allowed <==> next <= decision.remaining)),
{
    let state = limiter.bucket(buckets, key, now);
    let left = limiter.left(state, cost, peek, now);
    whole_is_finite(capacity as nat);
    bucket_stays_within(limiter, capacity, state, cost, peek, now);
    lemma_whole_part_decides(left, next);
    if !peek {
        let new = BucketState { tokens: left, last_update: now };
        lemma_at_rest(limiter, capacity, new, now);
        let again = limiter.refilled(new, now);
        lemma_whole_part_decides(again, next);
        lemma_magnitude_zero(left.rank());
        assert(again.order() == left.order());
    }
}

/// The limit is just what a new bucket allows.
pub proof fn limit_is_what_a_new_bucket_allows(
    limiter: TokenBucket,
    capacity: u64,
    buckets: Map<Seq<char>, BucketState>,
    key: Seq<char>,
    cost: u64,
    peek: bool,
    now: Instant,
    others: Map<Seq<char>, BucketState>,
    other: Seq<char>,
    next: u64,
    next_peek: bool,
    later: Instant,
)
    requires
        is_limiter(limiter, capacity),
        limiter.refill_rate().is_finite(),
        !others.contains_key(other),
        next <= 0x20_0000_0000_0000,
    ensures
        limiter.answer(buckets, key, cost, peek, now) matches Ok(decision) ==> (limiter.answer(
            others,
            other,
            next,
            next_peek,
            later,
        ) matches Ok(new) ==> (new.allowed <==> next <= decision.limit)),
{
    let state = limiter.full(later);
    whole_is_finite(capacity as nat);
    lemma_at_rest(limiter, capacity, state, later);
    lemma_whole_part_decides(limiter.capacity(), next);
    let again = limiter.refilled(state, later);
    assert(again.order() == limiter.capacity().order());
}

/// A peek is answered as the request itself would be.
pub proof fn peeks_foretell(
    limiter: TokenBucket,
    buckets: Map<Seq<char>, BucketState>,
    key: Seq<char>,
    cost: u64,
    now: Instant,
)
    ensures
        limiter.answer(buckets, key, cost, true, now) matches Ok(peeked) ==> (limiter.answer(
            buckets,
            key,
            cost,
            false,
            now,
        ) matches Ok(decision) ==> (peeked.allowed <==> decision.allowed)),
{
}

/// Whatever the rate and the moment, a request is allowed if its cost, and a unit, are within the
/// capacity and within what the bucket held and the rate times the time, less three parts of 2^53
/// of it; and it is allowed only if its cost is within what the bucket held and the rate times the
/// time, more by 2^-50 of it, and 2^-50 of the capacity.
pub proof fn allowed_by_what_was_added(
    limiter: TokenBucket,
    capacity: u64,
    buckets: Map<Seq<char>, BucketState>,
    key: Seq<char>,
    cost: u64,
    peek: bool,
    now: Instant,
)
    requires
        is_limiter(limiter, capacity),
        limiter.refill_rate().is_finite(),
        buckets.contains_key(key),
        is_within(limiter, buckets[key]),
        buckets[key].last_update.nanos <= now.nanos,
    ensures
        ({
            let held = buckets[key].tokens.units();
            let time = now.nanos - buckets[key].last_update.nanos;
            let rate = limiter.refill_rate().units();
            let price = Binary64::of_whole(cost as nat).units();
            let most = limiter.capacity().units();
            limiter.answer(buckets, key, cost, peek, now) matches Ok(decision) ==> {
                &&& cost <= capacity && (price + 1) * 1_000_000_000 * 0x20_0000_0000_0000 <= held
                    * 1_000_000_000 * 0x20_0000_0000_0000 + time * rate * (0x20_0000_0000_0000 - 3)
                    ==> decision.allowed
                &&& decision.allowed ==> price * 1_000_000_000 * 0x4_0000_0000_0000 <= held
                    * 1_000_000_000 * 0x4_0000_0000_0000 + (time * rate + 1_000_000_000)
                    * 0x4_0000_0000_0001 + most * 1_000_000_000
            }
        }),
{
    let state = buckets[key];
    let p = pow2(1074);
    let b = NANOS_PER_SEC as int;
    let k = MAX_EXACT as int;
    let g = FINE as int;
    let n = now.elapsed(state.last_update);
    let x = added(limiter, n);
    let xm = magnitude(x.rank());
    let t = magnitude(state.tokens.rank());
    let rate = magnitude(limiter.refill_rate().rank());
    let price = Binary64::of_whole(cost as nat);
    let c = magnitude(price.rank());
    let cap = magnitude(limiter.capacity().rank());
    let r = limiter.refilled(state, now);
    let m = magnitude(r.rank());
    whole_is_finite(capacity as nat);
    whole_is_finite(cost as nat);
    lemma_magnitude_zero(limiter.refill_rate().rank());
    lemma_magnitude_zero(state.tokens.rank());
    lemma_magnitude_zero(r.rank());
    lemma_magnitude_zero(x.rank());
    refill_adds(limiter, capacity, state, now);
    lemma_refilled_upper(limiter, capacity, state, now);
    lemma_added_upper(limiter, n);
    lemma_added(limiter, n);
    assert(limiter.refill_rate().units() == rate && state.tokens.units() == t);
    assert(price.units() == c && limiter.capacity().units() == cap);
    let nr = n * rate;
    assert(nr >= 0) by (nonlinear_arith)
        requires
            nr == n * rate,
            n >= 0,
            rate >= 0,
    ;
    if limiter.affords(state, cost, now) {
        if price.rank() < r.rank() {
            lemma_magnitude_monotone(price.rank(), r.rank());
        }
        assert(c <= m);
        assert(xm * b * g <= (nr + b) * (g + 1)) by (nonlinear_arith)
            requires
                xm * b * (k - 3) <= (nr + b) * k,
                k == 8 * g,
                g == 0x4_0000_0000_0000,
                nr + b >= 0,
        ;
        assert(c * g <= (t + xm) * g + cap) by (nonlinear_arith)
            requires
                c <= m,
                m * k <= (t + xm) * k + cap,
                k == 8 * g,
                g > 0,
                cap >= 0,
        ;
        assert(c * b * g <= (t + xm) * b * g + cap * b) by (nonlinear_arith)
            requires
                c * g <= (t + xm) * g + cap,
                b >= 0,
        ;
        assert((t + xm) * b * g == t * b * g + xm * b * g) by (nonlinear_arith);
    }
    if cost <= capacity && (c + 1) * b * k <= t * b * k + nr * (k - 3) {
        wholes_are_ordered(cost as nat, capacity as nat);
        if x.rank() == INFINITE {
            assert(state.tokens.plus(x) == x);
        } else {
            lemma_added_lower(limiter, n);
            assert(t + xm >= c) by (nonlinear_arith)
                requires
                    (c + 1) * b * k <= t * b * k + nr * (k - 3),
                    nr * (k - 3) <= (xm + 1) * b * k,
                    b > 0,
                    k > 0,
            ;
            let sum = (t + xm) as nat;
            assert(state.tokens.units() + x.units() == sum);
            nearest_exists(sum, 1);
            crate::binary64::rounding::lemma_zero();
            nearest_is_exact(price.rank(), 1);
            assert(c * 1 == c);
            nearest_is_monotone(c, sum, 1);
            assert(state.tokens.plus(x).order() >= price.order());
        }
    }
}

/// No less is added than the rate times the time, up to three roundings and a unit.
proof fn lemma_added_lower(limiter: TokenBucket, n: nat)
    requires
        n <= u64::MAX,
        limiter.refill_rate().is_finite(),
        at_least_zero(limiter.refill_rate()),
        added(limiter, n).rank() < INFINITE,
    ensures
        n * magnitude(limiter.refill_rate().rank()) * (MAX_EXACT - 3) <= (magnitude(
            added(limiter, n).rank(),
        ) + 1) * NANOS_PER_SEC * MAX_EXACT,
{
    let p = pow2(1074);
    let b = NANOS_PER_SEC as nat;
    let k = MAX_EXACT as int;
    let e = magnitude(of_nanos(n).seconds().rank());
    let r = magnitude(limiter.refill_rate().rank());
    let x = magnitude(added(limiter, n).rank());
    lemma_added(limiter, n);
    lemma_pow2_pos(1074);
    seconds_are_near(n);
    rounding_down_is_near_or_half(e * r, p);
    let (ebr, npr, nr, xb) = ((e * b) * r, (n * p) * r, n * r, x * b);
    near_is_scaled(e * b, n * p, 2, r);
    assert(ebr * k >= npr * (k - 2));
    assert((e * r) * b == ebr) by (nonlinear_arith)
        requires
            ebr == (e * b) * r,
    ;
    assert(npr == nr * p) by (nonlinear_arith)
        requires
            npr == (n * p) * r,
            nr == n * r,
    ;
    if near(x * p, e * r, 1) {
        near_is_scaled(x * p, e * r, 1, b);
        assert((x * p) * b == xb * p) by (nonlinear_arith)
            requires
                xb == x * b,
        ;
        near_is_transitive(xb * p, ebr, npr, 1, 2);
        near_is_unscaled(xb, nr, 3, p);
        assert(nr * (k - 3) <= (x + 1) * b * k) by (nonlinear_arith)
            requires
                xb * k >= nr * (k - 3),
                xb == x * b,
                b >= 0,
                k >= 0,
        ;
    } else {
        let xp = x * p;
        assert(2 * (e * r) <= 2 * xp + p);
        assert(ebr <= (xp + p) * b) by (nonlinear_arith)
            requires
                2 * (e * r) <= 2 * xp + p,
                (e * r) * b == ebr,
                b >= 0,
                p >= 0,
        ;
        assert(npr * (k - 2) <= (xp + p) * b * k) by (nonlinear_arith)
            requires
                ebr * k >= npr * (k - 2),
                ebr <= (xp + p) * b,
                k >= 0,
        ;
        assert((xp + p) * b * k == ((x + 1) * b * k) * p) by (nonlinear_arith)
            requires
                xp == x * p,
        ;
        assert(nr * (k - 2) <= (x + 1) * b * k) by (nonlinear_arith)
            requires
                npr * (k - 2) <= ((x + 1) * b * k) * p,
                npr == nr * p,
                p > 0,
        ;
        assert(nr * (k - 3) <= (x + 1) * b * k) by (nonlinear_arith)
            requires
                nr * (k - 2) <= (x + 1) * b * k,
                nr >= 0,
        ;
    }
}

} // verus!
