//! How long the token bucket tells to wait, up to rounding.

#[allow(unused_imports)]
use crate::algorithm::estimates::{
    added, lemma_added, lemma_added_upper, lemma_unit, nanos_apart, seconds_are_near, FINE,
};
#[allow(unused_imports)]
use crate::algorithm::laws::{bucket_stays_within, is_limiter, is_within, refill_adds};
#[allow(unused_imports)]
use crate::algorithm::token_bucket::TokenBucket;
#[allow(unused_imports)]
use crate::algorithm::RateLimiter;
#[allow(unused_imports)]
use crate::binary64::Binary64;
#[allow(unused_imports)]
use crate::binary64::error::{
    near, near_is_scaled, near_is_transitive, near_is_unscaled, rounding_down_is_near,
    rounding_up_is_near,
};
#[allow(unused_imports)]
use crate::binary64::laws::{
    adding_zero, at_least_zero, nearest_exists, nearest_is_exact, nearest_is_monotone,
    taking_away_lowers, whole_is_exact, whole_is_finite, wholes_are_ordered, zero_times, MAX_EXACT,
};
#[allow(unused_imports)]
use crate::binary64::rounding::{
    gap, lemma_magnitude_monotone, lemma_magnitude_step, lemma_magnitude_zero, lemma_pow2_bounds,
    lemma_pow2_ordered, lemma_rank_parts, magnitude, nearest, FRACTIONS, INFINITE,
};
#[allow(unused_imports)]
use crate::store::BucketState;
#[allow(unused_imports)]
use crate::time::{half_even, of_nanos, whole_seconds_are_exact, Duration, Instant, NANOS_PER_SEC};
#[allow(unused_imports)]
use vstd::arithmetic::power2::{lemma2_to64, lemma_pow2_adds, pow2};
use vstd::prelude::*;

verus! {

/// Whether a request was just denied, and its requester told to wait.
pub open spec fn is_told(
    limiter: TokenBucket,
    capacity: u64,
    state: BucketState,
    cost: u64,
    now: Instant,
    wait: nat,
) -> bool {
    &&& is_limiter(limiter, capacity)
    &&& limiter.refill_rate().is_finite()
    &&& is_within(limiter, state)
    &&& state.last_update == now
    &&& limiter.must_wait(state, cost, false, now)
    &&& limiter.retry(state, cost, now) matches Some(length) && length.total() == wait
}

/// In no time the number of tokens stays.
pub(crate) proof fn lemma_at_rest(
    limiter: TokenBucket,
    capacity: u64,
    state: BucketState,
    now: Instant,
)
    requires
        is_limiter(limiter, capacity),
        limiter.refill_rate().is_finite(),
        is_within(limiter, state),
        state.last_update == now,
    ensures
        limiter.refilled(state, now).rank() == state.tokens.rank(),
        at_least_zero(limiter.refilled(state, now)),
{
    whole_is_finite(capacity as nat);
    refill_adds(limiter, capacity, state, now);
    whole_seconds_are_exact(0);
    zero_times(limiter.refill_rate());
    let zero = Binary64::of_whole(0).times(limiter.refill_rate());
    lemma_magnitude_zero(0);
    if state.tokens.negative() {
        assert(state.tokens.rank() == 0 && zero.rank() == 0);
        assert(state.tokens.plus(zero).rank() == 0);
    } else {
        adding_zero(state.tokens, zero);
    }
}

/// The missing tokens are at least 2^-53 of one.
proof fn lemma_missing(price: Binary64, cost: u64, tokens: Binary64)
    requires
        price == Binary64::of_whole(cost as nat),
        cost > 0,
        tokens.rank() < price.rank(),
    ensures
        price.rank() > FRACTIONS,
        magnitude(price.rank()) >= pow2(1074),
        magnitude(price.rank()) - magnitude(tokens.rank()) >= pow2(1021),
        gap((price.rank() - 1) as nat) * FRACTIONS <= magnitude(price.rank()),
        magnitude(price.rank()) == magnitude((price.rank() - 1) as nat) + gap(
            (price.rank() - 1) as nat,
        ),
{
    let below = (price.rank() - 1) as nat;
    let f = FRACTIONS as nat;
    whole_is_finite(cost as nat);
    whole_is_exact(1);
    wholes_are_ordered(1, cost as nat);
    let one = Binary64::of_whole(1);
    assert(1 * pow2(1074) == pow2(1074));
    if one.rank() < price.rank() {
        lemma_magnitude_monotone(one.rank(), price.rank());
    }
    if tokens.rank() < below {
        lemma_magnitude_monotone(tokens.rank(), below);
    }
    lemma_magnitude_step(below);
    // The rank of 1 is that of 2^52 times 2^1022.
    lemma_rank_parts(f, 1022);
    lemma_pow2_bounds();
    lemma_pow2_adds(52, 1022);
    assert(f * pow2(1022) == pow2(1074));
    let rank_of_one = 1022 * f + f;
    if one.rank() < rank_of_one {
        lemma_magnitude_monotone(one.rank(), rank_of_one);
    }
    if rank_of_one < one.rank() {
        lemma_magnitude_monotone(rank_of_one, one.rank());
    }
    assert(below >= 1022 * f + f - 1);
    let e = below / f;
    assert(e >= 1022);
    lemma_pow2_ordered(1021, (e - 1) as nat);
    let q = pow2((e - 1) as nat);
    let r = below % f;
    assert(q * f <= (f + r) * q) by (nonlinear_arith)
        requires
            r >= 0,
            q >= 0,
    ;
    assert(magnitude(below) <= magnitude(price.rank()));
}

/// The tokens that are missing, in units.
spec fn missing(state: BucketState, cost: u64) -> nat {
    (magnitude(Binary64::of_whole(cost as nat).rank()) - magnitude(state.tokens.rank())) as nat
}

/// What the told wait is, up to rounding.
proof fn lemma_told(
    limiter: TokenBucket,
    capacity: u64,
    state: BucketState,
    cost: u64,
    now: Instant,
    wait: nat,
) -> (q: nat)
    requires
        is_told(limiter, capacity, state, cost, now, wait),
    ensures
        ({
            let p = pow2(1074);
            let b = NANOS_PER_SEC as nat;
            let rate = magnitude(limiter.refill_rate().rank());
            let d = missing(state, cost);
            &&& cost > 0
            &&& rate > 0
            &&& state.tokens.rank() < Binary64::of_whole(cost as nat).rank()
            &&& d >= pow2(1021)
            &&& q < 0x1_0000_0000_0000_0000 * p
            &&& 2 * (wait * p) <= 2 * (q * b) + p
            &&& 2 * (q * b) <= 2 * (wait * p) + p
            &&& (near(q * rate, d * p, 2) && near(d * p, q * rate, 2)) || (q <= FRACTIONS + 1 && d
                * p <= 2 * ((FRACTIONS + 2) * rate))
        }),
{
    let p = pow2(1074);
    let b = NANOS_PER_SEC as nat;
    let rate = limiter.refill_rate();
    let rho = magnitude(rate.rank());
    let price = Binary64::of_whole(cost as nat);
    let r0 = limiter.refilled(state, now);
    whole_is_finite(cost as nat);
    whole_is_finite(capacity as nat);
    lemma_unit();
    lemma_at_rest(limiter, capacity, state, now);
    lemma_magnitude_zero(rate.rank());
    if cost == 0 {
        whole_is_exact(0);
        lemma_magnitude_zero(price.rank());
        assert(0 * p == 0);
        assert(false);
    }
    assert(state.tokens.rank() < price.rank());
    lemma_missing(price, cost, state.tokens);
    let d = missing(state, cost);
    lemma_magnitude_zero(r0.rank());
    assert(price.units() == magnitude(price.rank()));
    assert(r0.opposite().units() == -(magnitude(r0.rank()) as int));
    let deficit = price.minus(r0);
    lemma_pow2_bounds();
    lemma_pow2_ordered(64, 1021);
    lemma2_to64();
    assert(price.units() + r0.opposite().units() == d);
    taking_away_lowers(price, r0);
    nearest_exists(d, 1);
    let dm = magnitude(nearest(d, 1));
    assert(deficit.rank() == nearest(d, 1) && !deficit.negative());
    rounding_down_is_near(d, 1);
    rounding_up_is_near(d, 1);
    assert(dm * 1 == dm);
    assert(near(dm, d, 1) && near(d, dm, 1));
    let quotient = deficit.over(rate);
    let num = dm * p;
    assert(dm > 0) by (nonlinear_arith)
        requires
            dm * MAX_EXACT >= d * (MAX_EXACT - 1),
            d > 0,
            dm >= 0,
    ;
    lemma_magnitude_zero(deficit.rank());
    nearest_exists(num, rho);
    assert(quotient.rank() == nearest(num, rho) && !quotient.negative());
    let q = magnitude(quotient.rank());
    // The wait is a length, so that the quotient is one below 2^64 seconds.
    assert(quotient.is_finite());
    let n = half_even(q * b, p);
    vstd::arithmetic::div_mod::lemma_fundamental_div_mod(q as int, p as int);
    assert(q < 0x1_0000_0000_0000_0000 * p) by (nonlinear_arith)
        requires
            q == p * (q / p) + q % p,
            q / p <= u64::MAX,
            0 <= q % p < p,
    ;
    lemma_below_2_64(quotient.rank());
    vstd::arithmetic::div_mod::lemma_fundamental_div_mod((q * b) as int, p as int);
    let (quot, rem) = ((q * b) / p, (q * b) % p);
    assert(p * quot == quot * p) by (nonlinear_arith);
    assert(q * b == quot * p + rem);
    if n == quot {
        assert(2 * rem <= p);
        assert(n * p == quot * p);
    } else {
        assert(n == quot + 1 && 2 * rem >= p && rem < p);
        assert(n * p == quot * p + p) by (nonlinear_arith)
            requires
                n == quot + 1,
        ;
    }
    assert(2 * (n * p) <= 2 * (q * b) + p && 2 * (q * b) <= 2 * (n * p) + p);
    assert(n < 0x1_0000_0000_0000_0000 * b) by {
        assert(q * b <= (0x1_0000_0000_0000_0000 - 1) * p * b) by (nonlinear_arith)
            requires
                q <= (0x1_0000_0000_0000_0000 - 1) * p,
        ;
        assert(n * 2 <= (0x1_0000_0000_0000_0000 - 1) * b * 2 + 1) by (nonlinear_arith)
            requires
                2 * (n * p) <= 2 * (q * b) + p,
                q * b <= (0x1_0000_0000_0000_0000 - 1) * p * b,
                p > 0,
        ;
    }
    vstd::arithmetic::div_mod::lemma_fundamental_div_mod(n as int, b as int);
    assert(n / b <= u64::MAX) by (nonlinear_arith)
        requires
            n < 0x1_0000_0000_0000_0000 * b,
            n == b * (n / b) + n % b,
            n % b >= 0,
            b > 0,
    ;
    assert(of_nanos(n).total() == n) by (nonlinear_arith)
        requires
            of_nanos(n).total() == (n / b) * b + n % b,
            n == b * (n / b) + n % b,
    ;
    assert(wait == n);
    near_is_scaled(dm, d, 1, p);
    near_is_scaled(d, dm, 1, p);
    if (FRACTIONS + 1) * rho <= num {
        assert(FRACTIONS * rho <= num) by (nonlinear_arith)
            requires
                (FRACTIONS + 1) * rho <= num,
                rho >= 0,
        ;
        rounding_down_is_near(num, rho);
        rounding_up_is_near(num, rho);
        near_is_transitive(q * rho, num, d * p, 1, 1);
        near_is_transitive(d * p, num, q * rho, 1, 1);
    } else {
        let f = FRACTIONS as nat;
        assert(magnitude(f + 1) == f + 1) by {
            assert((f + 1) / f == 1 && (f + 1) % f == 1);
            assert((f + 1) * pow2(0) == f + 1) by (nonlinear_arith)
                requires
                    pow2(0) == 1,
            ;
        }
        nearest_is_exact(f + 1, rho);
        nearest_is_monotone(num, (f + 1) * rho, rho);
        if quotient.rank() < f + 1 {
            lemma_magnitude_monotone(quotient.rank(), f + 1);
        }
        let dp = d * p;
        assert(dp <= 2 * ((FRACTIONS + 2) * rho)) by (nonlinear_arith)
            requires
                num * MAX_EXACT >= dp * (MAX_EXACT - 1),
                num <= (FRACTIONS + 1) * rho,
                dp >= 0,
                rho >= 0,
        ;
    }
    q
}

/// A value below 2^64 is below it by a whole at least.
proof fn lemma_below_2_64(rank: nat)
    requires
        magnitude(rank) < 0x1_0000_0000_0000_0000 * pow2(1074),
    ensures
        magnitude(rank) <= (0x1_0000_0000_0000_0000 - 1) * pow2(1074),
{
    let p = pow2(1074);
    let f = FRACTIONS as nat;
    let top = 1086 * f + f;
    lemma_pow2_bounds();
    lemma2_to64();
    lemma_rank_parts(f, 1086);
    lemma_rank_parts((2 * f - 1) as nat, 1085);
    lemma_pow2_adds(12, 1074);
    lemma_pow2_adds(11, 1074);
    assert(f * pow2(1086) == 0x1_0000_0000_0000_0000 * p) by (nonlinear_arith)
        requires
            pow2(1086) == 0x1000 * p,
            f == 0x10_0000_0000_0000,
    ;
    if rank >= top {
        if rank > top {
            lemma_magnitude_monotone(top, rank);
        }
        assert(false);
    }
    let below = (top - 1) as nat;
    assert(below == 1085 * f + (2 * f - 1));
    if rank < below {
        lemma_magnitude_monotone(rank, below);
    }
    assert(magnitude(below) == (2 * f - 1) * pow2(1085));
    assert((2 * f - 1) * pow2(1085) <= (0x1_0000_0000_0000_0000 - 1) * p) by (nonlinear_arith)
        requires
            pow2(1085) == 0x800 * p,
            f == 0x10_0000_0000_0000,
            p >= 0,
    ;
}

/// Whether so many nanoseconds are as long as a wait, and a nanosecond, and 2^-50 of them.
pub open spec fn is_well_after(n: nat, wait: nat) -> bool {
    n * FINE >= (wait + 1) * (FINE + 1)
}

/// Whether so many nanoseconds, with one more and 2^-50 of them, and the time in which 2^-52 of
/// the cost is added, are no longer than a wait.
pub open spec fn is_well_before(limiter: TokenBucket, cost: u64, n: nat, wait: nat) -> bool {
    let rate = limiter.refill_rate().units();
    4 * (rate * (wait * FINE)) >= 4 * (rate * ((n + 1) * (FINE + 1))) + Binary64::of_whole(
        cost as nat,
    ).units() * NANOS_PER_SEC
}

/// No fewer tokens are added than are missing, once the wait is well over.
proof fn lemma_added_suffices(d: nat, q: nat, rate: nat, x: nat, e: nat, n: nat, wait: nat)
    requires
        ({
            let p = pow2(1074);
            let b = NANOS_PER_SEC as nat;
            &&& rate > 0
            &&& d >= pow2(1021)
            &&& 2 * (q * b) <= 2 * (wait * p) + p
            &&& (near(q * rate, d * p, 2)) || d * p <= 2 * ((FRACTIONS + 2) * rate)
            &&& is_well_after(n, wait)
            &&& near(e * b, n * p, 2)
            &&& near(x * p, e * rate, 1)
        }),
    ensures
        x >= d,
{
    let p = pow2(1074);
    let b = NANOS_PER_SEC as nat;
    let k = MAX_EXACT as int;
    let g = FINE as int;
    lemma_unit();
    near_is_scaled(e * b, n * p, 2, rate);
    near_is_scaled(x * p, e * rate, 1, b);
    assert((e * b) * rate == (e * rate) * b) by (nonlinear_arith);
    assert((n * p) * rate == (n * rate) * p) by (nonlinear_arith);
    assert((x * p) * b == (x * b) * p) by (nonlinear_arith);
    near_is_transitive((x * b) * p, (e * rate) * b, (n * rate) * p, 1, 2);
    near_is_unscaled(x * b, n * rate, 3, p);
    let (xb, nr) = (x * b, n * rate);
    assert(xb * k >= nr * (k - 3));
    if near(q * rate, d * p, 2) {
        let (qr, qb) = (q * rate, q * b);
        assert((wait + 1) * p >= qb) by (nonlinear_arith)
            requires
                2 * qb <= 2 * (wait * p) + p,
                p >= 0,
        ;
        assert((n * p) * g >= qb * (g + 1)) by (nonlinear_arith)
            requires
                n * g >= (wait + 1) * (g + 1),
                (wait + 1) * p >= qb,
                p >= 0,
                g >= 0,
        ;
        let (np, dp) = (n * p, d * p);
        assert((np * rate) * g >= (qr * b) * (g + 1)) by (nonlinear_arith)
            requires
                np * g >= qb * (g + 1),
                qb == q * b,
                qr == q * rate,
                rate >= 0,
        ;
        assert((np * rate) * g * k >= (dp * (k - 2)) * b * (g + 1)) by (nonlinear_arith)
            requires
                (np * rate) * g >= (qr * b) * (g + 1),
                qr * k >= dp * (k - 2),
                k >= 0,
                b >= 0,
                g >= 0,
        ;
        assert((nr * g) * k >= (d * (k - 2)) * b * (g + 1)) by (nonlinear_arith)
            requires
                (np * rate) * g * k >= (dp * (k - 2)) * b * (g + 1),
                np * rate == nr * p,
                dp == d * p,
                p > 0,
        ;
        let y = d * b;
        assert((nr * g) * k >= y * ((k - 2) * (g + 1))) by (nonlinear_arith)
            requires
                (nr * g) * k >= (d * (k - 2)) * b * (g + 1),
                y == d * b,
        ;
        assert((xb * k) * (g * k) >= y * ((k - 2) * (g + 1)) * (k - 3)) by (nonlinear_arith)
            requires
                xb * k >= nr * (k - 3),
                (nr * g) * k >= y * ((k - 2) * (g + 1)),
                k >= 3,
                g >= 0,
        ;
        assert((k - 2) * (g + 1) * (k - 3) >= g * k * k);
        assert(y * ((k - 2) * (g + 1)) * (k - 3) >= y * (g * k * k)) by (nonlinear_arith)
            requires
                (k - 2) * (g + 1) * (k - 3) >= g * k * k,
                y >= 0,
        ;
        assert(xb >= y) by (nonlinear_arith)
            requires
                (xb * k) * (g * k) >= y * (g * k * k),
                g > 0,
                k > 0,
        ;
        assert(x >= d) by (nonlinear_arith)
            requires
                x * b >= d * b,
                b > 0,
        ;
    } else {
        assert(n >= 1) by (nonlinear_arith)
            requires
                n * g >= (wait + 1) * (g + 1),
                g >= 0,
                wait >= 0,
        ;
        assert(nr >= rate) by (nonlinear_arith)
            requires
                nr == n * rate,
                n >= 1,
                rate >= 0,
        ;
        let dp = d * p;
        assert(2 * xb >= rate) by (nonlinear_arith)
            requires
                xb * k >= nr * (k - 3),
                nr >= rate,
                k >= 6,
                xb >= 0,
        ;
        assert(4 * (FRACTIONS + 2) * xb >= dp) by (nonlinear_arith)
            requires
                2 * xb >= rate,
                dp <= 2 * ((FRACTIONS + 2) * rate),
        ;
        assert(x >= d) by (nonlinear_arith)
            requires
                4 * (FRACTIONS + 2) * xb >= dp,
                xb == x * b,
                dp == d * p,
                p >= 4 * (FRACTIONS + 2) * b,
                b > 0,
                d >= 0,
                x >= 0,
        ;
    }
}

/// Who is denied, and comes back when the told wait is well over, finds the tokens there,
/// whatever the rate.
pub proof fn told_wait_suffices(
    limiter: TokenBucket,
    capacity: u64,
    state: BucketState,
    cost: u64,
    now: Instant,
    wait: nat,
    later: Instant,
)
    requires
        is_told(limiter, capacity, state, cost, now, wait),
        cost <= capacity,
        now.nanos <= later.nanos,
        is_well_after(nanos_apart(now, later), wait),
    ensures
        limiter.affords(state, cost, later),
{
    let p = pow2(1074);
    let b = NANOS_PER_SEC as nat;
    let k = MAX_EXACT as int;
    let n = nanos_apart(now, later);
    let q = lemma_told(limiter, capacity, state, cost, now, wait);
    let d = missing(state, cost);
    let rate = magnitude(limiter.refill_rate().rank());
    let e = magnitude(of_nanos(n).seconds().rank());
    let price = Binary64::of_whole(cost as nat);
    let x = added(limiter, n);
    assert(n == later.elapsed(state.last_update));
    lemma_unit();
    lemma_added(limiter, n);
    seconds_are_near(n);
    whole_is_finite(cost as nat);
    whole_is_finite(capacity as nat);
    wholes_are_ordered(cost as nat, capacity as nat);
    refill_adds(limiter, capacity, state, later);
    if x.rank() < INFINITE {
        assert(n >= 1) by (nonlinear_arith)
            requires
                n * FINE >= (wait + 1) * (FINE + 1),
                wait >= 0,
        ;
        assert(2 * (e * b) >= p) by (nonlinear_arith)
            requires
                (e * b) * k >= (n * p) * (k - 2),
                n >= 1,
                k >= 4,
                p >= 0,
        ;
        lemma_rate_is_great(d, q, rate);
        assert(FRACTIONS * p <= e * rate) by (nonlinear_arith)
            requires
                2 * (e * b) >= p,
                rate >= 2 * b * FRACTIONS,
                e >= 0,
                b > 0,
        ;
        rounding_down_is_near(e * rate, p);
        lemma_added_suffices(d, q, rate, magnitude(x.rank()), e, n, wait);
        let sum = (magnitude(state.tokens.rank()) + magnitude(x.rank())) as nat;
        let c = magnitude(price.rank());
        lemma_missing(price, cost, state.tokens);
        lemma_magnitude_zero(state.tokens.rank());
        lemma_magnitude_zero(x.rank());
        assert(state.tokens.units() + x.units() == sum);
        assert(sum >= c);
        nearest_exists(sum, 1);
        crate::binary64::rounding::lemma_zero();
        nearest_is_exact(price.rank(), 1);
        assert(c * 1 == c);
        nearest_is_monotone(c, sum, 1);
        assert(state.tokens.plus(x).order() >= price.order());
    } else {
        assert(state.tokens.plus(x) == x);
    }
}

/// A rate at which a wait is a length of time is not small.
proof fn lemma_rate_is_great(d: nat, q: nat, rate: nat)
    requires
        d >= pow2(1021),
        q < 0x1_0000_0000_0000_0000 * pow2(1074),
        near(q * rate, d * pow2(1074), 2) || d * pow2(1074) <= 2 * ((FRACTIONS + 2) * rate),
    ensures
        rate >= 2 * NANOS_PER_SEC * FRACTIONS,
{
    let p = pow2(1074);
    let k = MAX_EXACT as int;
    let g = 0x1_0000_0000_0000_0000int;
    lemma_unit();
    lemma2_to64();
    lemma_pow2_adds(64, 64);
    lemma_pow2_adds(128, 64);
    lemma_pow2_ordered(192, 1021);
    assert(d >= g * g * g);
    if near(q * rate, d * p, 2) {
        let (qr, dp) = (q * rate, d * p);
        assert(2 * qr >= dp) by (nonlinear_arith)
            requires
                qr * k >= dp * (k - 2),
                k >= 4,
                dp >= 0,
        ;
        assert(2 * (g * rate) >= d) by (nonlinear_arith)
            requires
                2 * qr >= dp,
                qr == q * rate,
                dp == d * p,
                q < g * p,
                p > 0,
                rate >= 0,
        ;
    } else {
        assert(2 * ((FRACTIONS + 2) * rate) >= d) by (nonlinear_arith)
            requires
                d * p <= 2 * ((FRACTIONS + 2) * rate),
                p >= 1,
                d >= 0,
        ;
    }
}

/// Fewer tokens are added than are missing, by more than a rounding makes up for, while the wait
/// is well ahead.
proof fn lemma_added_is_short(d: nat, q: nat, rate: nat, x: nat, c: nat, n: nat, wait: nat)
    requires
        ({
            let p = pow2(1074);
            let b = NANOS_PER_SEC as nat;
            &&& c >= p
            &&& near(d * p, q * rate, 2)
            &&& 2 * (wait * p) <= 2 * (q * b) + p
            &&& 4 * (rate * (wait * FINE)) >= 4 * (rate * ((n + 1) * (FINE + 1))) + c * b
            &&& x * b * (MAX_EXACT - 3) <= (n * rate + b) * MAX_EXACT
        }),
    ensures
        (d - x) * MAX_EXACT > c,
{
    let p = pow2(1074);
    let b = NANOS_PER_SEC as nat;
    let k = MAX_EXACT as int;
    let g = FINE as int;
    lemma_unit();
    let (y, z, cb) = (d * b, x * b, c * b);
    let (qr, dp, qb, wp) = (q * rate, d * p, q * b, wait * p);
    // What is missing, by the wait.
    assert((dp * b) * k >= (qr * b) * (k - 2)) by (nonlinear_arith)
        requires
            dp * k >= qr * (k - 2),
            b >= 0,
    ;
    assert(qr * b == qb * rate) by (nonlinear_arith)
        requires
            qr == q * rate,
            qb == q * b,
    ;
    assert(2 * ((dp * b) * k) >= ((2 * wp - p) * rate) * (k - 2)) by (nonlinear_arith)
        requires
            (dp * b) * k >= (qb * rate) * (k - 2),
            2 * qb >= 2 * wp - p,
            rate >= 0,
            k >= 2,
    ;
    assert(2 * (y * k) >= ((2 * wait - 1) * rate) * (k - 2)) by (nonlinear_arith)
        requires
            2 * ((dp * b) * k) >= ((2 * wp - p) * rate) * (k - 2),
            dp == d * p,
            wp == wait * p,
            y == d * b,
            p > 0,
    ;
    let (wr, nr) = (wait * rate, n * rate);
    assert((2 * wait - 1) * rate == 2 * wr - rate) by (nonlinear_arith)
        requires
            wr == wait * rate,
    ;
    assert(2 * (y * k) >= 2 * (wr * (k - 2)) - rate * (k - 2)) by (nonlinear_arith)
        requires
            2 * (y * k) >= (2 * wr - rate) * (k - 2),
    ;
    // The wait, by the time.
    let m = nr + rate;
    assert(rate * (wait * FINE) == wr * g) by (nonlinear_arith)
        requires
            wr == wait * rate,
            g == FINE,
    ;
    assert(rate * ((n + 1) * (FINE + 1)) == m * (g + 1)) by (nonlinear_arith)
        requires
            m == n * rate + rate,
            g == FINE,
    ;
    assert(wr * k >= m * (k + 8) + 2 * cb) by (nonlinear_arith)
        requires
            4 * (wr * g) >= 4 * (m * (g + 1)) + cb,
            k == 8 * g,
    ;
    assert((wr * (k - 2)) * k >= (m * (k + 8) + 2 * cb) * (k - 2)) by (nonlinear_arith)
        requires
            wr * k >= m * (k + 8) + 2 * cb,
            k >= 2,
    ;
    assert(2 * ((m * (k + 8) + 2 * cb) * (k - 2)) >= (2 * (m * (k + 5)) + 3 * cb) * k)
        by (nonlinear_arith)
        requires
            m >= 0,
            cb >= 0,
            k >= 16,
    ;
    assert(2 * (wr * (k - 2)) >= 2 * (m * (k + 5)) + 3 * cb) by (nonlinear_arith)
        requires
            2 * ((wr * (k - 2)) * k) >= (2 * (m * (k + 5)) + 3 * cb) * k,
            k > 0,
    ;
    // What is added, by the time.
    assert(z * k <= (nr + b) * (k + 4)) by (nonlinear_arith)
        requires
            z * (k - 3) <= (nr + b) * k,
            k >= 12,
            z >= 0,
            nr + b >= 0,
    ;
    assert((nr + b) * (k + 4) == nr * (k + 4) + b * (k + 4)) by (nonlinear_arith);
    assert(m * (k + 5) == nr * (k + 4) + nr + rate * (k + 5)) by (nonlinear_arith)
        requires
            m == nr + rate,
    ;
    assert(rate * (k + 5) >= rate * (k - 2) && rate * (k + 5) >= 0) by (nonlinear_arith)
        requires
            rate >= 0,
            k >= 0,
    ;
    assert(cb > 2 * (b * (k + 4))) by (nonlinear_arith)
        requires
            cb == c * b,
            c > 2 * (k + 4),
            b > 0,
    ;
    assert(y * k - z * k > cb);
    assert((d - x) * k > c) by (nonlinear_arith)
        requires
            y * k - z * k > cb,
            y == d * b,
            z == x * b,
            cb == c * b,
            b > 0,
    ;
}

/// Who is denied, and comes back when the told wait is well ahead, does not find the tokens there,
/// whatever the rate.
pub proof fn told_wait_is_needed(
    limiter: TokenBucket,
    capacity: u64,
    state: BucketState,
    cost: u64,
    now: Instant,
    wait: nat,
    earlier: Instant,
)
    requires
        is_told(limiter, capacity, state, cost, now, wait),
        now.nanos <= earlier.nanos,
        is_well_before(limiter, cost, nanos_apart(now, earlier), wait),
    ensures
        !limiter.affords(state, cost, earlier),
{
    let p = pow2(1074);
    let b = NANOS_PER_SEC as nat;
    let n = nanos_apart(now, earlier);
    let q = lemma_told(limiter, capacity, state, cost, now, wait);
    let d = missing(state, cost);
    let rate = magnitude(limiter.refill_rate().rank());
    let price = Binary64::of_whole(cost as nat);
    let c = magnitude(price.rank());
    let x = added(limiter, n);
    let xm = magnitude(x.rank());
    assert(n == earlier.elapsed(state.last_update));
    lemma_unit();
    lemma_added(limiter, n);
    lemma_added_upper(limiter, n);
    whole_is_finite(cost as nat);
    whole_is_finite(capacity as nat);
    refill_adds(limiter, capacity, state, earlier);
    lemma_missing(price, cost, state.tokens);
    lemma_magnitude_zero(limiter.refill_rate().rank());
    assert(limiter.refill_rate().units() == rate);
    assert(price.units() == c);
    // The wait is a nanosecond at least, and so not that of a quotient too small to be rounded.
    assert(wait >= 1) by {
        if wait == 0 {
            assert(rate * (wait * FINE) == 0) by (nonlinear_arith)
                requires
                    wait == 0,
            ;
            assert(rate * ((n + 1) * (FINE + 1)) >= 0) by (nonlinear_arith)
                requires
                    rate >= 0,
                    n >= 0,
            ;
            assert(c * b > 0) by (nonlinear_arith)
                requires
                    c > 0,
                    b > 0,
            ;
        }
    }
    assert(near(d * p, q * rate, 2)) by {
        if q <= FRACTIONS + 1 {
            assert(wait * p >= p) by (nonlinear_arith)
                requires
                    wait >= 1,
                    p >= 0,
            ;
            assert(q * b <= (FRACTIONS + 1) * b) by (nonlinear_arith)
                requires
                    q <= FRACTIONS + 1,
                    b >= 0,
            ;
            assert(false);
        }
    }
    lemma_added_is_short(d, q, rate, xm, c, n, wait);
    let below = (price.rank() - 1) as nat;
    let g = gap(below);
    assert(2 * (d - xm) > g) by (nonlinear_arith)
        requires
            (d - xm) * MAX_EXACT > c,
            g * FRACTIONS <= c,
            MAX_EXACT == 2 * FRACTIONS,
    ;
    if x.rank() >= price.rank() {
        if x.rank() > price.rank() {
            lemma_magnitude_monotone(price.rank(), x.rank());
        }
        assert(false);
    }
    let t = magnitude(state.tokens.rank());
    let sum = (t + xm) as nat;
    lemma_magnitude_zero(state.tokens.rank());
    lemma_magnitude_zero(x.rank());
    assert(state.tokens.units() + x.units() == sum);
    nearest_exists(sum, 1);
    crate::binary64::rounding::lemma_zero();
    let top = nearest(sum, 1);
    if top >= price.rank() {
        let under = (top - 1) as nat;
        if top > price.rank() {
            lemma_magnitude_monotone(price.rank(), top);
            lemma_magnitude_monotone(below, under);
        }
        assert(2 * sum < magnitude(below) + c);
        assert(false);
    }
    assert(state.tokens.plus(x).order() == top);
}

/// Both zeros leave the same.
proof fn lemma_same_difference(price: Binary64, a: Binary64, b: Binary64)
    requires
        price.is_finite(),
        a.is_finite(),
        at_least_zero(a),
        at_least_zero(b),
        a.rank() == b.rank(),
        a.order() < price.order(),
    ensures
        price.minus(a) == price.minus(b),
{
    lemma_magnitude_zero(a.rank());
    lemma_magnitude_zero(0);
    lemma_magnitude_monotone(a.rank(), price.rank());
    assert(a.opposite().units() == b.opposite().units());
    assert(price.units() + a.opposite().units() > 0);
}

/// What a request leaves, having just been decided on, is told the same wait until it holds a
/// given number of tokens.
proof fn lemma_just_decided(
    limiter: TokenBucket,
    capacity: u64,
    state: BucketState,
    cost: u64,
    now: Instant,
    goal: u64,
    wait: Duration,
) -> (new: BucketState)
    requires
        is_limiter(limiter, capacity),
        limiter.refill_rate().is_finite(),
        limiter.refill_rate().positive(),
        is_within(limiter, state),
        limiter.outcome(state, cost, false, now).commit is Some,
        limiter.left(state, cost, false, now).order() < Binary64::of_whole(goal as nat).order(),
        Duration::of_seconds(
            Binary64::of_whole(goal as nat).minus(limiter.left(state, cost, false, now)).over(
                limiter.refill_rate(),
            ),
        ) == Some(wait),
    ensures
        limiter.outcome(state, cost, false, now).commit == Some(new),
        is_told(limiter, capacity, new, goal, now, wait.total()),
{
    let left = limiter.left(state, cost, false, now);
    let new = BucketState { tokens: left, last_update: now };
    let price = Binary64::of_whole(goal as nat);
    whole_is_finite(goal as nat);
    whole_is_finite(capacity as nat);
    bucket_stays_within(limiter, capacity, state, cost, false, now);
    lemma_at_rest(limiter, capacity, new, now);
    lemma_same_difference(price, left, limiter.refilled(new, now));
    new
}

/// Who is denied and told to wait is allowed, once the wait is well over, if the cost is within
/// the capacity, and not while it is well ahead, as long as nobody else takes tokens meanwhile:
/// but for a nanosecond, 2^-50 of the time, and the time in which 2^-52 of the cost is added.
pub proof fn retry_is_when_the_tokens_are_there(
    limiter: TokenBucket,
    capacity: u64,
    buckets: Map<Seq<char>, BucketState>,
    key: Seq<char>,
    cost: u64,
    now: Instant,
    peek: bool,
    later: Instant,
)
    requires
        is_limiter(limiter, capacity),
        limiter.refill_rate().is_finite(),
        buckets.contains_key(key) ==> is_within(limiter, buckets[key]),
        now.nanos <= later.nanos,
        limiter.answer(buckets, key, cost, false, now) matches Ok(decision)
            && decision.retry_after is Some,
    ensures
        ({
            let decision = limiter.answer(buckets, key, cost, false, now)->Ok_0;
            let wait = decision.retry_after->Some_0;
            let nanos = wait.secs * 1_000_000_000 + wait.nanos;
            let n = later.nanos - now.nanos;
            let rate = limiter.refill_rate().units();
            let then = limiter.answer(
                limiter.after_check(buckets, key, cost, false, now),
                key,
                cost,
                peek,
                later,
            );
            &&& !decision.allowed
            &&& cost <= capacity && n * 0x4_0000_0000_0000 >= (nanos + 1) * 0x4_0000_0000_0001 ==> (
            then matches Ok(later_decision) ==> later_decision.allowed)
            &&& 4 * (rate * (nanos * 0x4_0000_0000_0000)) >= 4 * (rate * ((n + 1)
                * 0x4_0000_0000_0001)) + Binary64::of_whole(cost as nat).units()
                * 1_000_000_000 ==> (then matches Ok(later_decision) ==> !later_decision.allowed)
        }),
{
    let state = limiter.bucket(buckets, key, now);
    let decision = limiter.answer(buckets, key, cost, false, now)->Ok_0;
    let wait = decision.retry_after->Some_0;
    let n = nanos_apart(now, later);
    whole_is_finite(capacity as nat);
    whole_is_finite(cost as nat);
    refill_adds(limiter, capacity, state, now);
    let new = lemma_just_decided(limiter, capacity, state, cost, now, cost, wait);
    let after = limiter.after_check(buckets, key, cost, false, now);
    assert(limiter.bucket(after, key, later) == new);
    if cost <= capacity && is_well_after(n, wait.total()) {
        told_wait_suffices(limiter, capacity, new, cost, now, wait.total(), later);
    }
    if is_well_before(limiter, cost, n, wait.total()) {
        told_wait_is_needed(limiter, capacity, new, cost, now, wait.total(), later);
    }
}

/// A request for all that a bucket can hold is allowed, once the reset is well over, and not while
/// it is well ahead, as long as nobody else takes tokens meanwhile: the reset is when the bucket is
/// full, but for a nanosecond, 2^-50 of the time, and the time in which 2^-52 of the capacity is
/// added.
pub proof fn reset_is_when_the_bucket_is_full(
    limiter: TokenBucket,
    capacity: u64,
    buckets: Map<Seq<char>, BucketState>,
    key: Seq<char>,
    cost: u64,
    now: Instant,
    peek: bool,
    later: Instant,
)
    requires
        is_limiter(limiter, capacity),
        limiter.refill_rate().is_finite(),
        limiter.refill_rate().positive(),
        buckets.contains_key(key) ==> is_within(limiter, buckets[key]),
        now.nanos <= later.nanos,
        limiter.answer(buckets, key, cost, false, now) is Ok,
    ensures
        ({
            let decision = limiter.answer(buckets, key, cost, false, now)->Ok_0;
            let nanos = decision.reset_at.nanos - now.nanos;
            let n = later.nanos - now.nanos;
            let rate = limiter.refill_rate().units();
            let then = limiter.answer(
                limiter.after_check(buckets, key, cost, false, now),
                key,
                capacity,
                peek,
                later,
            );
            &&& nanos >= 0
            &&& n * 0x4_0000_0000_0000 >= (nanos + 1) * 0x4_0000_0000_0001 ==> (
            then matches Ok(later_decision) ==> later_decision.allowed)
            &&& 4 * (rate * (nanos * 0x4_0000_0000_0000)) >= 4 * (rate * ((n + 1)
                * 0x4_0000_0000_0001)) + limiter.capacity().units() * 1_000_000_000 ==> (
            then matches Ok(later_decision) ==> !later_decision.allowed)
        }),
{
    let state = limiter.bucket(buckets, key, now);
    let left = limiter.left(state, cost, false, now);
    let decision = limiter.answer(buckets, key, cost, false, now)->Ok_0;
    let n = nanos_apart(now, later);
    let cap = limiter.capacity();
    let rate = limiter.refill_rate();
    whole_is_finite(capacity as nat);
    bucket_stays_within(limiter, capacity, state, cost, false, now);
    let new = BucketState { tokens: left, last_update: now };
    let after = limiter.after_check(buckets, key, cost, false, now);
    assert(limiter.bucket(after, key, later) == new);
    let time = limiter.time_to_full(left)->Some_0;
    assert(time.secs * NANOS_PER_SEC <= u64::MAX * NANOS_PER_SEC) by (nonlinear_arith)
        requires
            time.secs <= u64::MAX,
    ;
    assert(decision.reset_at.nanos == now.nanos + time.total());
    lemma_magnitude_zero(rate.rank());
    assert(rate.units() > 0);
    if left.order() < cap.order() {
        taking_away_lowers(cap, left);
        lemma_quotient_sign(cap, left, rate);
        lemma_just_decided(limiter, capacity, state, cost, now, capacity, time);
        if is_well_after(n, time.total()) {
            told_wait_suffices(limiter, capacity, new, capacity, now, time.total(), later);
        }
        if is_well_before(limiter, capacity, n, time.total()) {
            told_wait_is_needed(limiter, capacity, new, capacity, now, time.total(), later);
        }
    } else {
        refill_adds(limiter, capacity, new, later);
        lemma_no_distance(cap, left, rate);
        assert(time.total() == 0);
        assert(rate.units() * (0 * 0x4_0000_0000_0000) == 0) by (nonlinear_arith);
        assert(rate.units() * ((n + 1) * 0x4_0000_0000_0001) > 0) by (nonlinear_arith)
            requires
                rate.units() > 0,
                n >= 0,
        ;
        lemma_magnitude_zero(cap.rank());
        assert(cap.units() * 1_000_000_000 >= 0) by (nonlinear_arith)
            requires
                cap.units() >= 0,
        ;
    }
}

/// The time to fill a bucket that is not full is not negative.
proof fn lemma_quotient_sign(cap: Binary64, left: Binary64, rate: Binary64)
    requires
        cap.is_finite(),
        !cap.negative(),
        left.is_finite(),
        at_least_zero(left),
        left.order() < cap.order(),
        rate.is_finite(),
        rate.positive(),
    ensures
        !cap.minus(left).over(rate).negative(),
        !cap.minus(left).over(rate).is_nan(),
{
    taking_away_lowers(cap, left);
    lemma_magnitude_zero(left.rank());
    lemma_magnitude_monotone(left.rank(), cap.rank());
    let sum = cap.units() + left.opposite().units();
    assert(sum > 0);
    nearest_exists(sum as nat, 1);
    let deficit = cap.minus(left);
    assert(!deficit.negative());
    lemma_magnitude_zero(rate.rank());
    nearest_exists(magnitude(deficit.rank()) * pow2(1074), magnitude(rate.rank()));
}

/// A full bucket is full at once.
proof fn lemma_no_distance(cap: Binary64, left: Binary64, rate: Binary64)
    requires
        cap.is_finite(),
        !cap.negative(),
        left.is_finite(),
        at_least_zero(left),
        left.order() == cap.order(),
        rate.is_finite(),
        rate.positive(),
    ensures
        crate::algorithm::token_bucket::wait_of(cap.minus(left).over(rate)) == Some(of_nanos(0)),
        of_nanos(0).total() == 0,
{
    let p = pow2(1074);
    let b = NANOS_PER_SEC as nat;
    assert(cap.rank() == left.rank());
    lemma_magnitude_zero(left.rank());
    let deficit = cap.minus(left);
    assert(left.opposite().units() == -(magnitude(left.rank()) as int));
    assert(cap.units() + left.opposite().units() == 0);
    assert(deficit.rank() == 0);
    lemma_magnitude_zero(0);
    lemma_magnitude_zero(rate.rank());
    crate::binary64::rounding::lemma_zero();
    assert(0 * p == 0);
    let quotient = deficit.over(rate);
    assert(quotient.rank() == 0);
    lemma_unit();
    assert(0 * b == 0);
    assert(half_even(0, p) == 0) by {
        vstd::arithmetic::div_mod::lemma_div_basics(p as int);
        vstd::arithmetic::div_mod::lemma_small_mod(0, p);
    }
    assert(0nat / p == 0) by {
        vstd::arithmetic::div_mod::lemma_div_basics(p as int);
    }
}

} // verus!
