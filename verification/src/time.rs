//! Moments and lengths of time, to the nanosecond.

use crate::binary64::rounding::{magnitude, FRACTIONS, INFINITE};
#[allow(unused_imports)]
use crate::binary64::rounding::{
    lemma_divide, lemma_magnitude_monotone, lemma_magnitude_zero, lemma_pow2_bounds,
    lemma_pow2_ordered, lemma_zero,
};
use crate::binary64::rounding::{parts, power_of_two};
#[allow(unused_imports)]
use crate::binary64::laws::{
    adding_does_not_lower, adding_zero, quotient_is_monotone, sum_is_monotone, whole_is_exact,
    wholes_are_added, wholes_are_compared, wholes_are_ordered, MAX_EXACT,
};
use crate::binary64::Binary64;
use vstd::prelude::*;
#[allow(unused_imports)]
use vstd::arithmetic::div_mod::{lemma_fundamental_div_mod, lemma_fundamental_div_mod_converse};
#[allow(unused_imports)]
use vstd::arithmetic::power2::{lemma2_to64, lemma_pow2_adds, lemma_pow2_pos, pow2};

verus! {

pub const NANOS_PER_SEC: u64 = 1_000_000_000;

/// A length of time: whole seconds, and the nanoseconds beyond them.
#[derive(Clone, Copy, Debug, PartialEq, Eq, Structural)]
pub struct Duration {
    pub secs: u64,
    pub nanos: u32,
}

/// The whole number nearest to `num / den`; half way between two, the even one.
pub open spec fn half_even(num: nat, den: nat) -> nat {
    let quotient = num / den;
    let remainder = num % den;
    if 2 * remainder > den || 2 * remainder == den && quotient % 2 == 1 {
        quotient + 1
    } else {
        quotient
    }
}

/// The length of `n` nanoseconds.
pub open spec fn of_nanos(n: nat) -> Duration {
    Duration {
        secs: (n / NANOS_PER_SEC as nat) as u64,
        nanos: (n % NANOS_PER_SEC as nat) as u32,
    }
}

proof fn lemma_half_even_scaled(m: nat, d: nat, c: nat)
    requires
        d > 0,
        c > 0,
    ensures
        half_even(m * c, d * c) == half_even(m, d),
{
    let q = m / d;
    let r = m % d;
    lemma_fundamental_div_mod(m as int, d as int);
    assert(m * c == (d * c) * q + r * c) by (nonlinear_arith)
        requires
            m == d * q + r,
    ;
    assert(0 <= r * c < d * c) by (nonlinear_arith)
        requires
            0 <= r < d,
            c > 0,
    ;
    assert(q * (d * c) == (d * c) * q) by (nonlinear_arith);
    lemma_fundamental_div_mod_converse((m * c) as int, (d * c) as int, q as int, (r * c) as int);
    assert(2 * (r * c) > d * c <==> 2 * r > d) by (nonlinear_arith)
        requires
            c > 0,
    ;
    assert(2 * (r * c) == d * c <==> 2 * r == d) by (nonlinear_arith)
        requires
            c > 0,
    ;
}

impl Duration {
    /// The number of nanoseconds.
    pub open spec fn total(self) -> nat {
        self.secs as nat * NANOS_PER_SEC as nat + self.nanos as nat
    }

    /// The number of seconds.
    pub open spec fn seconds(self) -> Binary64 {
        Binary64::of_whole(self.secs as nat).plus(
            Binary64::of_whole(self.nanos as nat).over(Binary64::of_whole(NANOS_PER_SEC as nat)),
        )
    }

    /// The length nearest to a number of seconds, where there is one: negative numbers, and
    /// those from 2^64 on, are no lengths of time.
    pub open spec fn of_seconds(x: Binary64) -> Option<Duration> {
        if !x.is_finite() || x.negative() && !x.is_zero() || magnitude(x.rank()) / pow2(1074)
            > u64::MAX {
            None
        } else {
            Some(of_nanos(half_even(magnitude(x.rank()) * NANOS_PER_SEC as nat, pow2(1074))))
        }
    }

    pub fn from_secs(secs: u64) -> (r: Duration)
        ensures
            r == (Duration { secs, nanos: 0 }),
    {
        Duration { secs, nanos: 0 }
    }

    pub fn as_nanos(self) -> (r: u128)
        ensures
            r == self.total(),
    {
        assert(self.secs * NANOS_PER_SEC <= u64::MAX * NANOS_PER_SEC) by (nonlinear_arith)
            requires
                self.secs <= u64::MAX,
        ;
        self.secs as u128 * NANOS_PER_SEC as u128 + self.nanos as u128
    }

    fn from_nanos(n: u128) -> (r: Duration)
        requires
            n / NANOS_PER_SEC as u128 <= u64::MAX,
        ensures
            r == of_nanos(n as nat),
    {
        Duration {
            secs: (n / NANOS_PER_SEC as u128) as u64,
            nanos: (n % NANOS_PER_SEC as u128) as u32,
        }
    }

    pub fn as_seconds(self) -> (r: Binary64)
        ensures
            r == self.seconds(),
    {
        let whole: Binary64 = Binary64::from_whole(self.secs as u128);
        let part: Binary64 = Binary64::from_whole(self.nanos as u128);
        whole.add(part.div(Binary64::from_whole(NANOS_PER_SEC as u128)))
    }

    pub fn from_seconds(x: Binary64) -> (r: Option<Duration>)
        ensures
            r == Self::of_seconds(x),
    {
        let (negative, rank) = x.split();
        if rank >= INFINITE || negative && rank > 0 {
            return None;
        }
        let (m, e) = parts(rank);
        let ghost unit = pow2(1074);
        let ghost num = magnitude(rank as nat) * NANOS_PER_SEC as nat;
        proof {
            lemma_pow2_bounds();
            lemma2_to64();
            lemma_pow2_pos(1074);
        }
        if e >= 1074 {
            let lift: u32 = e - 1074;
            let ghost factor = pow2(lift as nat);
            proof {
                lemma_pow2_adds(lift as nat, 1074);
                assert(m * pow2(e as nat) == m * factor * unit) by (nonlinear_arith)
                    requires
                        pow2(e as nat) == factor * unit,
                ;
                lemma_divide(m as nat * factor, unit);
            }
            if lift >= 12 {
                proof {
                    lemma_pow2_ordered(12, lift as nat);
                    assert(m * factor > u64::MAX) by (nonlinear_arith)
                        requires
                            m >= FRACTIONS,
                            factor >= 0x1000,
                    ;
                }
                return None;
            }
            let f: u128 = power_of_two(lift);
            proof {
                lemma_pow2_ordered(lift as nat, 12);
                assert(m * f <= (2 * FRACTIONS) * 0x1000) by (nonlinear_arith)
                    requires
                        m <= 2 * FRACTIONS,
                        f <= 0x1000,
                ;
            }
            let secs: u128 = m as u128 * f;
            if secs > u64::MAX as u128 {
                return None;
            }
            proof {
                let n = secs as nat * NANOS_PER_SEC as nat;
                assert(num == n * unit) by (nonlinear_arith)
                    requires
                        num == (secs * unit) * NANOS_PER_SEC,
                        n == secs * NANOS_PER_SEC,
                ;
                lemma_fundamental_div_mod_converse(num as int, unit as int, n as int, 0);
                lemma_fundamental_div_mod_converse(
                    n as int,
                    NANOS_PER_SEC as int,
                    secs as int,
                    0,
                );
            }
            Some(Duration { secs: secs as u64, nanos: 0 })
        } else {
            let drop: u32 = 1074 - e;
            let scaled: u128 = m as u128 * NANOS_PER_SEC as u128;
            let ghost c = pow2(e as nat);
            let ghost d = pow2(drop as nat);
            proof {
                lemma_pow2_adds(drop as nat, e as nat);
                lemma_pow2_pos(e as nat);
                lemma_pow2_pos(drop as nat);
                assert(num == scaled * c) by (nonlinear_arith)
                    requires
                        num == (m * c) * NANOS_PER_SEC,
                        scaled == m * NANOS_PER_SEC,
                ;
                lemma_half_even_scaled(scaled as nat, d, c);
                // The value itself is far below the largest number of seconds.
                assert((m as nat * c) / unit <= u64::MAX) by {
                    assert(m * c <= unit * (2 * FRACTIONS)) by (nonlinear_arith)
                        requires
                            m <= 2 * FRACTIONS,
                            unit == d * c,
                            d >= 1,
                            c >= 1,
                    ;
                    vstd::arithmetic::div_mod::lemma_div_is_ordered(
                        (m * c) as int,
                        (unit * (2 * FRACTIONS)) as int,
                        unit as int,
                    );
                    vstd::arithmetic::div_mod::lemma_div_multiples_vanish(
                        (2 * FRACTIONS) as int,
                        unit as int,
                    );
                }
            }
            if drop >= 85 {
                proof {
                    lemma_pow2_ordered(85, drop as nat);
                    lemma_pow2_adds(64, 21);
                    assert(scaled < (2 * FRACTIONS) * NANOS_PER_SEC) by (nonlinear_arith)
                        requires
                            m < 2 * FRACTIONS,
                            scaled == m * NANOS_PER_SEC,
                    ;
                    vstd::arithmetic::div_mod::lemma_basic_div(scaled as int, d as int);
                    vstd::arithmetic::div_mod::lemma_small_mod(scaled as nat, d);
                }
                return Some(Duration { secs: 0, nanos: 0 });
            }
            let divisor: u128 = power_of_two(drop);
            proof {
                lemma_pow2_ordered(drop as nat, 126);
                lemma_pow2_adds(1, 126);
                vstd::arithmetic::div_mod::lemma_div_nonincreasing(scaled as int, divisor as int);
            }
            let quotient: u128 = scaled / divisor;
            let remainder: u128 = scaled % divisor;
            let n: u128 = if 2 * remainder > divisor || 2 * remainder == divisor && quotient % 2
                == 1 {
                quotient + 1
            } else {
                quotient
            };
            Some(Self::from_nanos(n))
        }
    }
}

/// A reading of a clock that never goes back: the nanoseconds since the clock was started.
#[derive(Clone, Copy, Debug, PartialEq, Eq, Structural)]
pub struct Instant {
    pub nanos: u64,
}

/// A moment on the same clock, which may lie beyond the last reading that the clock can give.
#[derive(Clone, Copy, Debug, PartialEq, Eq, Structural)]
pub struct Deadline {
    pub nanos: u128,
}

impl Instant {
    /// The nanoseconds from `earlier` to `self`, 0 where `earlier` is the later one.
    pub open spec fn elapsed(self, earlier: Instant) -> nat {
        if self.nanos >= earlier.nanos {
            (self.nanos - earlier.nanos) as nat
        } else {
            0
        }
    }

    pub fn duration_since(self, earlier: Instant) -> (r: Duration)
        ensures
            r == of_nanos(self.elapsed(earlier)),
            r.total() == self.elapsed(earlier),
    {
        let n: u64 = if self.nanos >= earlier.nanos {
            self.nanos - earlier.nanos
        } else {
            0
        };
        Duration::from_nanos(n as u128)
    }

    /// The moment that lies `wait` after `self`.
    pub open spec fn after(self, wait: Duration) -> Deadline {
        Deadline { nanos: (self.nanos + wait.total()) as u128 }
    }

    pub fn plus(self, wait: Duration) -> (r: Deadline)
        ensures
            r == self.after(wait),
            r.nanos == self.nanos + wait.total(),
    {
        Deadline { nanos: self.nanos as u128 + wait.as_nanos() }
    }
}

impl Deadline {
    /// The nanoseconds from `now` to `self`, 0 where `self` has passed.
    pub open spec fn ahead(self, now: Instant) -> nat {
        if self.nanos >= now.nanos {
            (self.nanos - now.nanos) as nat
        } else {
            0
        }
    }

    pub fn nanos_ahead(self, now: Instant) -> (r: u128)
        ensures
            r == self.ahead(now),
    {
        if self.nanos >= now.nanos as u128 {
            self.nanos - now.nanos as u128
        } else {
            0
        }
    }
}

/// A length of time is a finite number of seconds, and not below 0.
pub proof fn seconds_are_finite(n: nat)
    requires
        n <= u64::MAX,
    ensures
        of_nanos(n).seconds().is_finite(),
        !of_nanos(n).seconds().negative(),
        of_nanos(n).seconds().order() >= 0,
        of_nanos(n).seconds().order() <= Binary64::of_whole(n / NANOS_PER_SEC as nat + 1).order(),
{
    let length = of_nanos(n);
    let (secs, nanos) = (length.secs as nat, length.nanos as nat);
    let (whole, part) = (Binary64::of_whole(secs), Binary64::of_whole(nanos));
    let unit = Binary64::of_whole(NANOS_PER_SEC as nat);
    whole_is_exact(nanos);
    whole_is_exact(NANOS_PER_SEC as nat);
    whole_is_exact(secs);
    whole_is_exact(secs + 1);
    whole_is_exact(1);
    wholes_are_ordered(nanos, NANOS_PER_SEC as nat);
    wholes_are_ordered(0, 1);
    wholes_are_compared(0, NANOS_PER_SEC as nat);
    whole_is_exact(0);
    quotient_is_monotone(part, part, unit);
    adding_does_not_lower(whole, part.over(unit));
    sum_is_monotone(whole, part.over(unit), Binary64::of_whole(1));
    wholes_are_added(secs, 1);
}

/// A longer time is no smaller a number of seconds.
pub proof fn seconds_are_monotone(n: nat, m: nat)
    requires
        n <= m <= u64::MAX,
    ensures
        of_nanos(n).seconds().order() <= of_nanos(m).seconds().order(),
{
    let (a, b) = (of_nanos(n), of_nanos(m));
    let unit = Binary64::of_whole(NANOS_PER_SEC as nat);
    seconds_are_finite(n);
    seconds_are_finite(m);
    whole_is_exact(NANOS_PER_SEC as nat);
    whole_is_exact(a.nanos as nat);
    whole_is_exact(b.nanos as nat);
    whole_is_exact(a.secs as nat);
    whole_is_exact(b.secs as nat);
    whole_is_exact(0);
    wholes_are_ordered(b.nanos as nat, NANOS_PER_SEC as nat);
    wholes_are_compared(0, NANOS_PER_SEC as nat);
    if a.secs == b.secs {
        wholes_are_ordered(a.nanos as nat, b.nanos as nat);
        let (x, y) = (Binary64::of_whole(a.nanos as nat), Binary64::of_whole(b.nanos as nat));
        quotient_is_monotone(x, y, unit);
        quotient_is_monotone(y, y, unit);
        sum_is_monotone(Binary64::of_whole(a.secs as nat), x.over(unit), y.over(unit));
    } else {
        wholes_are_ordered(a.secs as nat + 1, b.secs as nat);
        let y = Binary64::of_whole(b.nanos as nat);
        quotient_is_monotone(y, y, unit);
        adding_does_not_lower(Binary64::of_whole(b.secs as nat), y.over(unit));
    }
}

/// A whole number of seconds is just that number.
pub proof fn whole_seconds_are_exact(secs: u64)
    requires
        secs <= MAX_EXACT,
    ensures
        (Duration { secs, nanos: 0 }).seconds() == Binary64::of_whole(secs as nat),
{
    let unit = Binary64::of_whole(NANOS_PER_SEC as nat);
    let zero = Binary64::of_whole(0);
    whole_is_exact(0);
    whole_is_exact(secs as nat);
    whole_is_exact(NANOS_PER_SEC as nat);
    wholes_are_compared(0, NANOS_PER_SEC as nat);
    wholes_are_ordered(0, NANOS_PER_SEC as nat);
    quotient_is_monotone(zero, zero, unit);
    lemma_zero();
    assert(magnitude(0) == 0);
    assert(0 * pow2(1074) == 0);
    assert(zero.over(unit) == (Binary64 { bits: 0 })) by {
        lemma_magnitude_zero(zero.rank());
        lemma_magnitude_zero(unit.rank());
    }
    adding_zero(Binary64::of_whole(secs as nat), Binary64 { bits: 0 });
}

/// The length nearest to a whole number of seconds is of just so many seconds.
pub proof fn whole_seconds_make_a_length(secs: u64)
    requires
        secs <= MAX_EXACT,
    ensures
        Duration::of_seconds(Binary64::of_whole(secs as nat)) == Some(Duration { secs, nanos: 0 }),
{
    let p = pow2(1074);
    let n = secs as nat * NANOS_PER_SEC as nat;
    whole_is_exact(secs as nat);
    lemma_pow2_pos(1074);
    lemma_divide(secs as nat, p);
    assert((secs * p) * NANOS_PER_SEC == n * p) by (nonlinear_arith)
        requires
            n == secs * NANOS_PER_SEC,
    ;
    lemma_fundamental_div_mod_converse((n * p) as int, p as int, n as int, 0);
    lemma_fundamental_div_mod_converse(n as int, NANOS_PER_SEC as int, secs as int, 0);
}

proof fn lemma_half_even_monotone(a: nat, b: nat, den: nat)
    requires
        a <= b,
        den > 0,
    ensures
        half_even(a, den) <= half_even(b, den),
{
    vstd::arithmetic::div_mod::lemma_div_is_ordered(a as int, b as int, den as int);
    lemma_fundamental_div_mod(a as int, den as int);
    lemma_fundamental_div_mod(b as int, den as int);
}

/// A number of seconds between two whole ones is a length between those.
pub proof fn length_is_between(x: Binary64, low: u64, high: u64)
    requires
        x.is_finite(),
        !x.negative(),
        low <= MAX_EXACT,
        high <= MAX_EXACT,
        Binary64::of_whole(low as nat).order() <= x.order() <= Binary64::of_whole(
            high as nat,
        ).order(),
    ensures
        Duration::of_seconds(x) matches Some(length) && low * NANOS_PER_SEC <= length.total()
            <= high * NANOS_PER_SEC && length.nanos < NANOS_PER_SEC,
{
    let p = pow2(1074);
    let (a, b) = (Binary64::of_whole(low as nat), Binary64::of_whole(high as nat));
    whole_is_exact(low as nat);
    whole_is_exact(high as nat);
    if a.rank() < x.rank() {
        lemma_magnitude_monotone(a.rank(), x.rank());
    }
    if x.rank() < b.rank() {
        lemma_magnitude_monotone(x.rank(), b.rank());
    }
    lemma_pow2_pos(1074);
    let m = magnitude(x.rank());
    assert(low * p <= m <= high * p);
    vstd::arithmetic::div_mod::lemma_div_is_ordered(m as int, (high * p) as int, p as int);
    lemma_divide(high as nat, p);
    let nanos = NANOS_PER_SEC as nat;
    assert((low * p) * nanos == (low * nanos) * p && (high * p) * nanos == (high * nanos) * p)
        by (nonlinear_arith);
    assert((low * p) * nanos <= m * nanos <= (high * p) * nanos) by (nonlinear_arith)
        requires
            low * p <= m <= high * p,
    ;
    let (least, most) = ((low * nanos) as nat, (high * nanos) as nat);
    lemma_fundamental_div_mod_converse((least * p) as int, p as int, least as int, 0);
    lemma_fundamental_div_mod_converse((most * p) as int, p as int, most as int, 0);
    lemma_half_even_monotone(least * p, m * nanos, p);
    lemma_half_even_monotone(m * nanos, most * p, p);
    let n = half_even(m * nanos, p);
    lemma_fundamental_div_mod(n as int, nanos as int);
    vstd::arithmetic::div_mod::lemma_div_is_ordered(n as int, most as int, nanos as int);
    lemma_divide(high as nat, nanos);
}

/// Seconds and nanoseconds make up a length, and a number of nanoseconds is just so long.
pub proof fn lengths_are_counted_in_nanoseconds(length: Duration, n: nat)
    ensures
        length.total() == length.secs * 1_000_000_000 + length.nanos,
        n < 0x1_0000_0000_0000_0000 * 1_000_000_000 ==> of_nanos(n).total() == n,
        of_nanos(n).nanos < 1_000_000_000,
{
}

/// What has elapsed, what lies ahead, and the moment after a wait, on the clock.
pub proof fn moments_are_counted_in_nanoseconds(a: Instant, b: Instant, wait: Duration)
    ensures
        b.nanos >= a.nanos ==> b.elapsed(a) == b.nanos - a.nanos,
        b.nanos < a.nanos ==> b.elapsed(a) == 0,
        a.after(wait).nanos == a.nanos + wait.secs * 1_000_000_000 + wait.nanos,
        a.after(wait).ahead(a) == wait.secs * 1_000_000_000 + wait.nanos,
        a.after(wait).ahead(b) == if a.nanos + wait.total() >= b.nanos {
            a.nanos + wait.total() - b.nanos
        } else {
            0
        },
{
    assert(wait.secs * NANOS_PER_SEC <= u64::MAX * NANOS_PER_SEC) by (nonlinear_arith)
        requires
            wait.secs <= u64::MAX,
    ;
}

/// A number of seconds is a length if it is finite, not below 0 and less than 2^64; and the length
/// is the nearest, to half a nanosecond.
pub proof fn lengths_are_nearest(x: Binary64)
    ensures
        Duration::of_seconds(x) is Some <==> x.is_finite() && x.units() >= 0 && x.units()
            < 0x1_0000_0000_0000_0000 * pow2(1074),
        Duration::of_seconds(x) matches Some(length) ==> length == of_nanos(
            half_even(x.units() as nat * 1_000_000_000, pow2(1074)),
        ),
        ({
            let n = half_even(x.units() as nat * 1_000_000_000, pow2(1074));
            x.units() >= 0 ==> {
                &&& 2 * (n * pow2(1074)) <= 2 * (x.units() * 1_000_000_000) + pow2(1074)
                &&& 2 * (x.units() * 1_000_000_000) <= 2 * (n * pow2(1074)) + pow2(1074)
            }
        }),
{
    let p = pow2(1074);
    let m = magnitude(x.rank());
    lemma_pow2_pos(1074);
    lemma_magnitude_zero(x.rank());
    lemma_fundamental_div_mod(m as int, p as int);
    let q = m / p;
    assert(q > u64::MAX <==> m >= 0x1_0000_0000_0000_0000 * p) by (nonlinear_arith)
        requires
            m == p * q + m % p,
            0 <= m % p < p,
    ;
    if x.units() >= 0 {
        let num = x.units() as nat * 1_000_000_000;
        lemma_fundamental_div_mod(num as int, p as int);
        let (quot, rem) = (num / p, num % p);
        let n = half_even(num, p);
        assert(p * quot == quot * p) by (nonlinear_arith);
        if n == quot {
            assert(2 * rem <= p);
        } else {
            assert(n * p == quot * p + p) by (nonlinear_arith)
                requires
                    n == quot + 1,
            ;
        }
    }
}

} // verus!
