//! How the token bucket counts up to rounding, whatever the numbers.

#[allow(unused_imports)]
use crate::algorithm::counting::{after_run, cost_above_capacity_is_denied, spent, Check};
#[allow(unused_imports)]
use crate::algorithm::laws::{bucket_stays_within, is_limiter, is_within, refill_adds};
#[allow(unused_imports)]
use crate::algorithm::token_bucket::TokenBucket;
#[allow(unused_imports)]
use crate::binary64::Binary64;
#[allow(unused_imports)]
use crate::binary64::error::{
    near, near_is_scaled, near_is_transitive, near_is_unscaled, rounding_down_is_near,
    rounding_up_is_near,
};
#[allow(unused_imports)]
use crate::binary64::laws::{
    at_least_zero, nearest_exists, product_is_at_least_zero, quotient_is_monotone,
    taking_away_lowers, whole_is_exact, whole_is_finite, wholes_are_compared, wholes_are_ordered,
    MAX_EXACT,
};
#[allow(unused_imports)]
use crate::binary64::rounding::{
    lemma_magnitude_monotone, lemma_magnitude_step, lemma_magnitude_zero, lemma_pow2_ordered,
    magnitude, nearest, FRACTIONS, INFINITE,
};
#[allow(unused_imports)]
use crate::store::BucketState;
#[allow(unused_imports)]
use crate::time::{of_nanos, seconds_are_finite, Instant, NANOS_PER_SEC};
#[allow(unused_imports)]
use vstd::arithmetic::power2::{lemma2_to64, lemma_pow2_adds, lemma_pow2_pos, pow2};
use vstd::prelude::*;

verus! {

/// 2^50: a part of so many is the relative error that is allowed for.
pub const FINE: u64 = 0x4_0000_0000_0000;

/// The number of units in a whole token, or second, is great.
pub(crate) proof fn lemma_unit()
    ensures
        pow2(1074) >= 0x1_0000_0000_0000_0000 * 0x1_0000_0000_0000_0000
            * 0x1_0000_0000_0000_0000,
{
    lemma2_to64();
    lemma_pow2_adds(64, 64);
    lemma_pow2_adds(128, 64);
    lemma_pow2_ordered(192, 1074);
}

/// A length of time is its number of seconds, up to two roundings.
pub proof fn seconds_are_near(n: nat)
    requires
        n <= u64::MAX,
    ensures
        ({
            let seconds = magnitude(of_nanos(n).seconds().rank());
            &&& n == 0 ==> seconds == 0
            &&& near(seconds * NANOS_PER_SEC as nat, n * pow2(1074), 2)
            &&& near(n * pow2(1074), seconds * NANOS_PER_SEC as nat, 2)
        }),
{
    let p = pow2(1074);
    let b = NANOS_PER_SEC as nat;
    let length = of_nanos(n);
    let (s, f) = (length.secs as nat, length.nanos as nat);
    assert(n == s * b + f);
    let (whole, part, unit) = (
        Binary64::of_whole(s),
        Binary64::of_whole(f),
        Binary64::of_whole(b),
    );
    whole_is_exact(s);
    whole_is_exact(f);
    whole_is_exact(b);
    whole_is_exact(0);
    wholes_are_ordered(f, b);
    wholes_are_compared(0, b);
    lemma_unit();
    seconds_are_finite(n);
    quotient_is_monotone(part, part, unit);
    let fraction = part.over(unit);
    let a = magnitude(fraction.rank());
    let num = (f * p) * p;
    let den = b * p;
    assert(den > 0) by (nonlinear_arith)
        requires
            den == b * p,
            b > 0,
            p > 0,
    ;
    nearest_exists(num, den);
    assert(a == magnitude(nearest(num, den)));
    assert(near(a * b, f * p, 1) && near(f * p, a * b, 1)) by {
        assert(a * den == (a * b) * p) by (nonlinear_arith)
            requires
                den == b * p,
        ;
        if f == 0 {
            assert(num == 0) by (nonlinear_arith)
                requires
                    num == (f * p) * p,
                    f == 0,
            ;
            crate::binary64::rounding::lemma_zero();
            assert(a == 0);
            assert(0 * b == 0 && 0 * p == 0);
        } else {
            assert((FRACTIONS + 1) * den <= num) by (nonlinear_arith)
                requires
                    den == b * p,
                    num == (f * p) * p,
                    f >= 1,
                    p >= (FRACTIONS + 1) * b,
            ;
            assert(FRACTIONS * den <= num) by (nonlinear_arith)
                requires
                    (FRACTIONS + 1) * den <= num,
                    den > 0,
            ;
            rounding_down_is_near(num, den);
            rounding_up_is_near(num, den);
            near_is_unscaled(a * b, f * p, 1, p);
            near_is_unscaled(f * p, a * b, 1, p);
        }
    }
    let sum = s * p + a;
    let seconds = magnitude(length.seconds().rank());
    assert(whole.units() + fraction.units() == sum);
    assert(sum * b == (s * b) * p + a * b) by (nonlinear_arith)
        requires
            sum == s * p + a,
    ;
    assert(n * p == (s * b) * p + f * p) by (nonlinear_arith)
        requires
            n == s * b + f,
    ;
    let k = MAX_EXACT as int;
    let base = (s * b) * p;
    assert(base >= 0) by (nonlinear_arith)
        requires
            base == (s * b) * p,
    ;
    assert(near(sum * b, n * p, 1) && near(n * p, sum * b, 1)) by {
        let (x, y) = (a * b, f * p);
        assert((base + x) * k >= (base + y) * (k - 1)) by (nonlinear_arith)
            requires
                x * k >= y * (k - 1),
                base >= 0,
        ;
        assert((base + y) * k >= (base + x) * (k - 1)) by (nonlinear_arith)
            requires
                y * k >= x * (k - 1),
                base >= 0,
        ;
    }
    if n == 0 {
        assert(s == 0 && f == 0);
        assert(0 * p == 0);
        assert(num == 0) by (nonlinear_arith)
            requires
                num == (f * p) * p,
                f == 0,
        ;
        crate::binary64::rounding::lemma_zero();
        assert(sum == 0);
        assert(0 * b == 0);
    } else {
        assert(sum >= FRACTIONS + 1) by {
            assert(sum * b * 2 >= p) by (nonlinear_arith)
                requires
                    (sum * b) * k >= (n * p) * (k - 1),
                    n >= 1,
                    k >= 2,
                    p >= 0,
            ;
            assert(sum >= FRACTIONS + 1) by (nonlinear_arith)
                requires
                    sum * b * 2 >= p,
                    p >= (FRACTIONS + 1) * b * 2,
                    b > 0,
            ;
        }
        nearest_exists(sum, 1);
        assert(seconds == magnitude(nearest(sum, 1)));
        rounding_down_is_near(sum, 1);
        rounding_up_is_near(sum, 1);
        assert(seconds * 1 == seconds);
        near_is_scaled(seconds, sum, 1, b);
        near_is_scaled(sum, seconds, 1, b);
        near_is_transitive(seconds * b, sum * b, n * p, 1, 1);
        near_is_transitive(n * p, sum * b, seconds * b, 1, 1);
    }
}

/// The tokens that a limiter adds in `n` nanoseconds, as rounded.
pub(crate) open spec fn added(limiter: TokenBucket, n: nat) -> Binary64 {
    of_nanos(n).seconds().times(limiter.refill_rate())
}

pub(crate) proof fn lemma_added(limiter: TokenBucket, n: nat)
    requires
        n <= u64::MAX,
        limiter.refill_rate().is_finite(),
        at_least_zero(limiter.refill_rate()),
    ensures
        ({
            let seconds = magnitude(of_nanos(n).seconds().rank());
            let rate = magnitude(limiter.refill_rate().rank());
            let x = added(limiter, n);
            &&& !x.is_nan()
            &&& at_least_zero(x)
            &&& x.rank() == nearest(seconds * rate, pow2(1074))
            &&& x.rank() <= INFINITE
        }),
{
    seconds_are_finite(n);
    product_is_at_least_zero(of_nanos(n).seconds(), limiter.refill_rate());
}

/// No more is added than the rate times the time, up to three roundings and a unit.
pub(crate) proof fn lemma_added_upper(limiter: TokenBucket, n: nat)
    requires
        n <= u64::MAX,
        limiter.refill_rate().is_finite(),
        at_least_zero(limiter.refill_rate()),
    ensures
        magnitude(added(limiter, n).rank()) * NANOS_PER_SEC * (MAX_EXACT - 3) <= (n * magnitude(
            limiter.refill_rate().rank(),
        ) + NANOS_PER_SEC) * MAX_EXACT,
{
    let p = pow2(1074);
    let b = NANOS_PER_SEC as nat;
    let k = MAX_EXACT as int;
    let e = magnitude(of_nanos(n).seconds().rank());
    let r = magnitude(limiter.refill_rate().rank());
    let x = magnitude(added(limiter, n).rank());
    lemma_added(limiter, n);
    lemma_pow2_pos(1074);
    seconds_are_near(n);
    rounding_up_is_near(e * r, p);
    let (ebr, npr) = ((e * b) * r, (n * p) * r);
    near_is_scaled(n * p, e * b, 2, r);
    assert(npr * k >= ebr * (k - 2));
    assert((e * r) * b == ebr) by (nonlinear_arith)
        requires
            ebr == (e * b) * r,
    ;
    assert(npr == (n * r) * p) by (nonlinear_arith)
        requires
            npr == (n * p) * r,
    ;
    if near(e * r, x * p, 1) {
        near_is_scaled(e * r, x * p, 1, b);
        assert((x * p) * b == (x * b) * p) by (nonlinear_arith);
        near_is_transitive(npr, ebr, (x * b) * p, 2, 1);
        near_is_unscaled(n * r, x * b, 3, p);
        assert((n * r) * k >= (x * b) * (k - 3));
        assert(x * b * (k - 3) <= (n * r + b) * k) by (nonlinear_arith)
            requires
                (n * r) * k >= (x * b) * (k - 3),
                b >= 0,
                k >= 0,
        ;
    } else {
        let xp = x * p;
        assert(2 * xp <= 2 * (e * r) + p);
        assert(xp * b * (k - 2) <= npr * k + p * b * k) by (nonlinear_arith)
            requires
                2 * xp <= 2 * (e * r) + p,
                (e * r) * b == ebr,
                npr * k >= ebr * (k - 2),
                k >= 2,
                b > 0,
                p > 0,
        ;
        assert(x * b * (k - 2) <= (n * r) * k + b * k) by (nonlinear_arith)
            requires
                xp * b * (k - 2) <= npr * k + p * b * k,
                xp == x * p,
                npr == (n * r) * p,
                p > 0,
        ;
        assert(x * b * (k - 3) <= (n * r + b) * k) by (nonlinear_arith)
            requires
                x * b * (k - 2) <= (n * r) * k + b * k,
                x * b >= 0,
        ;
    }
}

/// In units: the tokens after a refill are no more than those before and those added, up to a
/// rounding.
pub(crate) proof fn lemma_refilled_upper(
    limiter: TokenBucket,
    capacity: u64,
    state: BucketState,
    now: Instant,
)
    requires
        is_limiter(limiter, capacity),
        limiter.refill_rate().is_finite(),
        is_within(limiter, state),
    ensures
        ({
            let r = limiter.refilled(state, now);
            let x = added(limiter, now.elapsed(state.last_update));
            let cap = magnitude(limiter.capacity().rank());
            &&& r.is_finite()
            &&& at_least_zero(r)
            &&& magnitude(r.rank()) <= cap
            &&& magnitude(r.rank()) * MAX_EXACT <= (magnitude(state.tokens.rank()) + magnitude(
                x.rank(),
            )) * MAX_EXACT + cap
        }),
{
    let n = now.elapsed(state.last_update);
    let x = added(limiter, n);
    let r = limiter.refilled(state, now);
    let cap = limiter.capacity();
    let k = MAX_EXACT as int;
    whole_is_finite(capacity as nat);
    refill_adds(limiter, capacity, state, now);
    lemma_added(limiter, n);
    if r.rank() < cap.rank() {
        lemma_magnitude_monotone(r.rank(), cap.rank());
    }
    lemma_magnitude_zero(state.tokens.rank());
    lemma_magnitude_zero(x.rank());
    let (t, xm, rm) = (
        magnitude(state.tokens.rank()),
        magnitude(x.rank()),
        magnitude(r.rank()),
    );
    let s = t + xm;
    if x.rank() == INFINITE {
        assert(state.tokens.plus(x) == x);
        assert(r == cap);
        lemma_magnitude_monotone(cap.rank(), INFINITE as nat);
    } else if rm > s {
        let sum = state.tokens.plus(x);
        assert(state.tokens.units() == t && x.units() == xm);
        nearest_exists(s, 1);
        crate::binary64::rounding::lemma_zero();
        let top = nearest(s, 1);
        assert(sum.order() == top);
        assert(r.rank() <= top);
        if r.rank() < top {
            // The number would have to be nearer to a magnitude above one that is above it.
            let below = (top - 1) as nat;
            if r.rank() < below {
                lemma_magnitude_monotone(r.rank(), below);
            }
            lemma_magnitude_step(below);
            assert(false);
        }
        rounding_up_is_near(s, 1);
        assert(rm * 1 == rm);
        assert(near(s, rm, 1));
        let c = magnitude(cap.rank());
        assert(rm * k <= s * k + c) by (nonlinear_arith)
            requires
                s * k >= rm * (k - 1),
                rm <= c,
        ;
    } else {
        assert(rm * k <= s * k) by (nonlinear_arith)
            requires
                rm <= s,
                k >= 0,
        ;
    }
}

/// In units: a cost and what it leaves are no more than what there was, up to three roundings.
proof fn lemma_taken(r: Binary64, cost: u64, cap: nat)
    requires
        r.is_finite(),
        at_least_zero(r),
        r.at_least(Binary64::of_whole(cost as nat)),
        magnitude(r.rank()) <= cap,
    ensures
        ({
            let left = r.minus(Binary64::of_whole(cost as nat));
            (cost * pow2(1074) + magnitude(left.rank())) * MAX_EXACT <= magnitude(r.rank())
                * MAX_EXACT + 3 * cap
        }),
{
    let p = pow2(1074);
    let k = MAX_EXACT as int;
    let price = Binary64::of_whole(cost as nat);
    let c = magnitude(price.rank());
    let m = magnitude(r.rank());
    let left = r.minus(price);
    let l = magnitude(left.rank());
    let whole = cost as nat * p;
    lemma_unit();
    whole_is_finite(cost as nat);
    taking_away_lowers(r, price);
    if price.rank() < r.rank() {
        lemma_magnitude_monotone(price.rank(), r.rank());
    }
    lemma_magnitude_zero(r.rank());
    lemma_magnitude_zero(price.rank());
    lemma_magnitude_zero(left.rank());
    let diff = (m - c) as nat;
    nearest_exists(diff, 1);
    crate::binary64::rounding::lemma_zero();
    assert(price.opposite().rank() == price.rank());
    assert(r.units() == m);
    assert(price.opposite().units() == -c);
    assert(left.rank() == nearest(diff, 1));
    rounding_up_is_near(diff, 1);
    assert(l * 1 == l);
    assert(l * k <= diff * k + cap) by {
        if left.rank() < r.rank() {
            lemma_magnitude_monotone(left.rank(), r.rank());
        }
        assert(l <= cap);
        if near(diff, l, 1) {
            assert(l * k <= diff * k + cap) by (nonlinear_arith)
                requires
                    diff * k >= l * (k - 1),
                    l <= cap,
            ;
        } else {
            assert(l <= diff);
            assert(l * k <= diff * k) by (nonlinear_arith)
                requires
                    l <= diff,
                    k >= 0,
            ;
        }
    }
    assert(whole * k <= c * k + 2 * cap) by {
        if cost == 0 {
            assert(whole == 0) by (nonlinear_arith)
                requires
                    whole == cost * p,
                    cost == 0,
            ;
            assert(c * k >= 0) by (nonlinear_arith)
                requires
                    c >= 0,
                    k >= 0,
            ;
        } else {
            assert(whole >= p) by (nonlinear_arith)
                requires
                    whole == cost * p,
                    cost >= 1,
                    p >= 0,
            ;
            nearest_exists(whole, 1);
            rounding_down_is_near(whole, 1);
            assert(c * 1 == c);
            assert(c * k >= whole * (k - 1));
            assert(whole <= 2 * c) by (nonlinear_arith)
                requires
                    c * k >= whole * (k - 1),
                    k >= 2,
                    whole >= 0,
                    c >= 0,
            ;
            assert(whole * k <= c * k + whole) by (nonlinear_arith)
                requires
                    c * k >= whole * (k - 1),
            ;
        }
    }
    assert((whole + l) * k == whole * k + l * k) by (nonlinear_arith);
    assert(c * k + diff * k == m * k) by (nonlinear_arith)
        requires
            m == c + diff,
    ;
}

/// The number of nanoseconds from one moment to another one.
pub open spec fn nanos_apart(a: Instant, b: Instant) -> nat {
    (b.nanos - a.nanos) as nat
}

/// The tokens that a limiter may give out from one moment to another one, times 10^9 times 2^50,
/// in units: the capacity, and the rate times the time, each greater by 2^-50, the capacity by as
/// much for every check.
pub open spec fn allowance(limiter: TokenBucket, checks: nat, start: Instant, end: Instant) -> int {
    limiter.capacity().units() * NANOS_PER_SEC * (FINE + checks) + limiter.refill_rate().units()
        * nanos_apart(start, end) * (FINE + 1)
}

/// What is so after a number of checks: what was spent, with what is left, is within what may be
/// given out.
spec fn is_counted(
    limiter: TokenBucket,
    state: BucketState,
    sum: nat,
    checks: nat,
    start: Instant,
) -> bool {
    &&& is_within(limiter, state)
    &&& if state.last_update.nanos >= start.nanos {
        (sum * pow2(1074) + magnitude(state.tokens.rank())) * NANOS_PER_SEC * FINE <= allowance(
            limiter,
            checks,
            start,
            state.last_update,
        )
    } else {
        sum == 0
    }
}

proof fn lemma_counted_step(
    limiter: TokenBucket,
    capacity: u64,
    state: BucketState,
    sum: nat,
    checks: nat,
    start: Instant,
    check: Check,
)
    requires
        is_limiter(limiter, capacity),
        capacity > 0,
        limiter.refill_rate().is_finite(),
        is_counted(limiter, state, sum, checks, start),
        start.nanos <= check.at.nanos,
        state.last_update.nanos <= check.at.nanos,
    ensures
        ({
            let new = match limiter.outcome(state, check.cost, false, check.at).commit {
                Some(new) => new,
                None => state,
            };
            let cost = if limiter.affords(state, check.cost, check.at) {
                check.cost as nat
            } else {
                0
            };
            is_counted(limiter, new, sum + cost, checks + 1, start)
        }),
{
    let p = pow2(1074);
    let b = NANOS_PER_SEC as int;
    let g = FINE as int;
    let k = MAX_EXACT as int;
    let n = check.at.elapsed(state.last_update);
    let cap = magnitude(limiter.capacity().rank());
    let rate = magnitude(limiter.refill_rate().rank());
    let allowed = limiter.affords(state, check.cost, check.at);
    let cost = if allowed {
        check.cost as nat
    } else {
        0
    };
    let r = limiter.refilled(state, check.at);
    let left = limiter.left(state, check.cost, false, check.at);
    let (t, x, m, l) = (
        magnitude(state.tokens.rank()),
        magnitude(added(limiter, n).rank()),
        magnitude(r.rank()),
        magnitude(left.rank()),
    );
    lemma_unit();
    whole_is_finite(capacity as nat);
    lemma_magnitude_zero(limiter.refill_rate().rank());
    assert(limiter.refill_rate().units() == rate);
    assert(limiter.capacity().units() == cap);
    assert(cap >= p) by {
        whole_is_exact(1);
        wholes_are_ordered(1, capacity as nat);
        let one = Binary64::of_whole(1);
        if one.rank() < limiter.capacity().rank() {
            lemma_magnitude_monotone(one.rank(), limiter.capacity().rank());
        }
        assert(1 * p == p);
    }
    lemma_refilled_upper(limiter, capacity, state, check.at);
    lemma_added_upper(limiter, n);
    bucket_stays_within(limiter, capacity, state, check.cost, false, check.at);
    let spent_now = cost * p;
    if allowed {
        lemma_taken(r, check.cost, cap);
    } else {
        assert(spent_now == 0) by (nonlinear_arith)
            requires
                spent_now == cost * p,
                cost == 0,
        ;
    }
    assert((spent_now + l) * k <= m * k + 3 * cap);
    let outcome = limiter.outcome(state, check.cost, false, check.at);
    let rest = limiter.refill_rate().units() * nanos_apart(start, check.at) * (FINE + 1);
    assert(rest >= 0) by (nonlinear_arith)
        requires
            rest == rate * nanos_apart(start, check.at) * (FINE + 1),
            rate >= 0,
            nanos_apart(start, check.at) >= 0,
    ;
    if outcome.commit is None {
        assert(!allowed);
        assert(sum + cost == sum);
        if state.last_update.nanos >= start.nanos {
            assert(cap * b * (g + checks) <= cap * b * (g + (checks + 1))) by (nonlinear_arith)
                requires
                    cap * b >= 0,
            ;
        }
    } else if state.last_update.nanos < start.nanos {
        let total = spent_now + l;
        assert(total * g <= cap * (g + 1)) by (nonlinear_arith)
            requires
                total * k <= m * k + 3 * cap,
                m <= cap,
                k == 8 * g,
                cap >= 0,
                g >= 0,
        ;
        assert(total * b * g <= cap * b * (g + 1)) by (nonlinear_arith)
            requires
                total * g <= cap * (g + 1),
                b >= 0,
        ;
        assert(cap * b * (g + 1) <= cap * b * (g + (checks + 1))) by (nonlinear_arith)
            requires
                cap * b >= 0,
                checks >= 0,
        ;
        assert(sum + cost == cost);
    } else {
        let since = nanos_apart(start, state.last_update);
        assert(nanos_apart(start, check.at) == since + n);
        // What one check adds.
        assert(x * b * g <= (n * rate + b) * (g + 1)) by (nonlinear_arith)
            requires
                x * b * (k - 3) <= (n * rate + b) * k,
                k == 8 * g,
                g == 0x4_0000_0000_0000,
                n * rate + b >= 0,
        ;
        assert(2 * ((spent_now + l) * g) <= 2 * ((t + x) * g) + cap) by (nonlinear_arith)
            requires
                (spent_now + l) * k <= m * k + 3 * cap,
                m * k <= (t + x) * k + cap,
                k == 8 * g,
        ;
        let (u, v) = ((spent_now + l) * g, (t + x) * g);
        assert((spent_now + l) * b * g == u * b && (t + x) * b * g == v * b) by (nonlinear_arith)
            requires
                u == (spent_now + l) * g,
                v == (t + x) * g,
        ;
        assert(2 * (u * b) <= 2 * (v * b) + cap * b) by (nonlinear_arith)
            requires
                2 * u <= 2 * v + cap,
                b >= 0,
        ;
        assert((t + x) * b * g == t * b * g + x * b * g) by (nonlinear_arith);
        assert((n * rate + b) * (g + 1) == n * rate * (g + 1) + b * (g + 1)) by (nonlinear_arith);
        assert(2 * (b * (g + 1)) <= cap * b) by (nonlinear_arith)
            requires
                cap >= 2 * (g + 1),
                b >= 0,
        ;
        assert((spent_now + l) * b * g <= t * b * g + n * rate * (g + 1) + cap * b);
        // What all of them have added.
        let before = sum * p;
        assert((sum + cost) * p == before + spent_now) by (nonlinear_arith)
            requires
                before == sum * p,
                spent_now == cost * p,
        ;
        assert((before + spent_now + l) * b * g == before * b * g + (spent_now + l) * b * g)
            by (nonlinear_arith);
        assert((before + t) * b * g == before * b * g + t * b * g) by (nonlinear_arith);
        assert(cap * b * (g + (checks + 1)) == cap * b * (g + checks) + cap * b)
            by (nonlinear_arith);
        assert(rate * (since + n) * (g + 1) == rate * since * (g + 1) + n * rate * (g + 1))
            by (nonlinear_arith);
    }
}

/// Whether a run takes place from `start` to `end`.
pub open spec fn runs_within(run: Seq<Check>, start: Instant, end: Instant) -> bool {
    &&& start.nanos <= end.nanos
    &&& forall|i: int|
        0 <= i < run.len() ==> start.nanos <= (#[trigger] run[i]).at.nanos <= end.nanos
    &&& forall|i: int, j: int|
        0 <= i < j < run.len() ==> (#[trigger] run[i]).at.nanos <= (#[trigger] run[j]).at.nanos
}

proof fn lemma_counted_run(
    limiter: TokenBucket,
    capacity: u64,
    buckets: Map<Seq<char>, BucketState>,
    key: Seq<char>,
    run: Seq<Check>,
    start: Instant,
    end: Instant,
)
    requires
        is_limiter(limiter, capacity),
        capacity > 0,
        limiter.refill_rate().is_finite(),
        buckets.contains_key(key) ==> is_within(limiter, buckets[key])
            && buckets[key].last_update.nanos <= start.nanos,
        runs_within(run, start, end),
    ensures
        ({
            let state = limiter.bucket(after_run(limiter, buckets, key, run), key, end);
            &&& state.last_update.nanos <= end.nanos
            &&& is_counted(limiter, state, spent(limiter, buckets, key, run), run.len(), start)
        }),
    decreases run.len(),
{
    let cap = magnitude(limiter.capacity().rank());
    let rate = magnitude(limiter.refill_rate().rank());
    whole_is_finite(capacity as nat);
    lemma_magnitude_zero(limiter.refill_rate().rank());
    assert(limiter.refill_rate().units() == rate);
    assert(limiter.capacity().units() == cap);
    if run.len() == 0 {
        let state = limiter.bucket(buckets, key, end);
        if state.last_update.nanos >= start.nanos {
            let t = magnitude(state.tokens.rank());
            if state.tokens.rank() < limiter.capacity().rank() {
                lemma_magnitude_monotone(state.tokens.rank(), limiter.capacity().rank());
            }
            let n = nanos_apart(start, state.last_update);
            assert(0 * pow2(1074) == 0);
            assert(t * NANOS_PER_SEC * FINE <= cap * NANOS_PER_SEC * (FINE + 0))
                by (nonlinear_arith)
                requires
                    t <= cap,
            ;
            assert(rate * n * (FINE + 1) >= 0) by (nonlinear_arith)
                requires
                    rate >= 0,
                    n >= 0,
            ;
        }
    } else {
        let earlier = run.drop_last();
        let last = run.last();
        assert(run[run.len() - 1] == last);
        assert(runs_within(earlier, start, last.at)) by {
            assert forall|i: int| 0 <= i < earlier.len() implies start.nanos <= (
            #[trigger] earlier[i]).at.nanos <= last.at.nanos by {
                assert(earlier[i] == run[i]);
                assert(run[i].at.nanos <= run[run.len() - 1].at.nanos);
            }
            assert forall|i: int, j: int| 0 <= i < j < earlier.len() implies (
            #[trigger] earlier[i]).at.nanos <= (#[trigger] earlier[j]).at.nanos by {
                assert(earlier[i] == run[i] && earlier[j] == run[j]);
            }
        }
        lemma_counted_run(limiter, capacity, buckets, key, earlier, start, last.at);
        let before = after_run(limiter, buckets, key, earlier);
        let state = limiter.bucket(before, key, last.at);
        lemma_counted_step(
            limiter,
            capacity,
            state,
            spent(limiter, buckets, key, earlier),
            earlier.len(),
            start,
            last,
        );
    }
}

/// What costs nothing is all that a bucket without capacity allows.
proof fn lemma_nothing_spent(
    limiter: TokenBucket,
    buckets: Map<Seq<char>, BucketState>,
    key: Seq<char>,
    run: Seq<Check>,
)
    requires
        limiter.capacity() == Binary64::of_whole(0),
    ensures
        spent(limiter, buckets, key, run) == 0,
    decreases run.len(),
{
    if run.len() > 0 {
        lemma_nothing_spent(limiter, buckets, key, run.drop_last());
        let last = run.last();
        let before = after_run(limiter, buckets, key, run.drop_last());
        if last.cost > 0 {
            let state = limiter.bucket(before, key, last.at);
            cost_above_capacity_is_denied(limiter, 0, state, last.cost, last.at);
        }
    }
}

/// Whatever the rate and the moments, the checks that are allowed from `start` to `end` take no
/// more than the capacity and the rate times the time, up to rounding: each is exceeded by no more
/// than 2^-50 of it, the capacity by no more than that for every check.
pub proof fn spending_is_bounded_up_to_rounding(
    limiter: TokenBucket,
    capacity: u64,
    buckets: Map<Seq<char>, BucketState>,
    key: Seq<char>,
    run: Seq<Check>,
    start: Instant,
    end: Instant,
)
    requires
        is_limiter(limiter, capacity),
        limiter.refill_rate().is_finite(),
        buckets.contains_key(key) ==> is_within(limiter, buckets[key])
            && buckets[key].last_update.nanos <= start.nanos,
        runs_within(run, start, end),
    ensures
        spent(limiter, buckets, key, run) * pow2(1074) * NANOS_PER_SEC * FINE <= allowance(
            limiter,
            run.len(),
            start,
            end,
        ),
{
    let p = pow2(1074);
    let cap = magnitude(limiter.capacity().rank());
    let rate = magnitude(limiter.refill_rate().rank());
    let sum = spent(limiter, buckets, key, run);
    let b = NANOS_PER_SEC as int;
    let g = FINE as int;
    let n = run.len();
    whole_is_finite(capacity as nat);
    lemma_magnitude_zero(limiter.refill_rate().rank());
    assert(limiter.refill_rate().units() == rate);
    assert(limiter.capacity().units() == cap);
    let whole_time = nanos_apart(start, end);
    assert(cap * b * (g + n) >= 0) by (nonlinear_arith)
        requires
            cap >= 0,
            b >= 0,
            g >= 0,
            n >= 0,
    ;
    assert(rate * whole_time * (g + 1) >= 0) by (nonlinear_arith)
        requires
            rate >= 0,
            whole_time >= 0,
            g >= 0,
    ;
    if capacity == 0 {
        lemma_nothing_spent(limiter, buckets, key, run);
        assert(0 * p == 0 && 0 * b == 0 && 0 * g == 0);
    } else {
        lemma_counted_run(limiter, capacity, buckets, key, run, start, end);
        let state = limiter.bucket(after_run(limiter, buckets, key, run), key, end);
        let t = magnitude(state.tokens.rank());
        if state.last_update.nanos >= start.nanos {
            let time = nanos_apart(start, state.last_update);
            assert(rate * time * (g + 1) <= rate * whole_time * (g + 1)) by (nonlinear_arith)
                requires
                    time <= whole_time,
                    rate >= 0,
                    g >= 0,
            ;
            assert(sum * p * b * g <= (sum * p + t) * b * g) by (nonlinear_arith)
                requires
                    t >= 0,
                    b >= 0,
                    g >= 0,
            ;
        } else {
            assert(0 * p == 0 && 0 * b == 0 && 0 * g == 0);
        }
    }
}

} // verus!
