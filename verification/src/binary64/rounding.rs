//! Rounding to 53 binary digits.

use vstd::prelude::*;
#[allow(unused_imports)]
use vstd::arithmetic::power2::{
    lemma2_to64, lemma2_to64_rest, lemma_pow2_adds, lemma_pow2_pos, lemma_pow2_strictly_increases,
    lemma_pow2_unfold, pow2,
};

verus! {

/// 2^52: the number of fractions that share one exponent.
pub const FRACTIONS: u64 = 0x10_0000_0000_0000;

/// The rank of infinity; the ranks above it are those of the values that are not numbers.
pub const INFINITE: u64 = 0x7ff0_0000_0000_0000;

/// The magnitude, in units of 2^-1074, of the value with the given rank: the exponent field is
/// the rank divided by 2^52, and the fraction is the remainder.
///
/// The rank of infinity stands for 2^1024, the value that would follow the largest finite one.
pub open spec fn magnitude(rank: nat) -> nat {
    let exponent = rank / FRACTIONS as nat;
    let fraction = rank % FRACTIONS as nat;
    if exponent == 0 {
        fraction
    } else {
        (FRACTIONS as nat + fraction) * pow2((exponent - 1) as nat)
    }
}

/// Whether `rank` is the rank of the magnitude nearest to `num / den` units. Half way between
/// two magnitudes, the one of even rank is the nearest.
pub open spec fn is_nearest(num: nat, den: nat, rank: nat) -> bool {
    &&& rank <= INFINITE
    &&& rank > 0 ==> {
        let middle = (magnitude((rank - 1) as nat) + magnitude(rank)) * den;
        middle < 2 * num || middle == 2 * num && rank % 2 == 0
    }
    &&& rank < INFINITE ==> {
        let middle = (magnitude(rank) + magnitude(rank + 1)) * den;
        2 * num < middle || 2 * num == middle && rank % 2 == 0
    }
}

/// The rank of the magnitude nearest to `num / den` units.
pub open spec fn nearest(num: nat, den: nat) -> nat {
    choose|rank: nat| is_nearest(num, den, rank)
}

/// The gap between the magnitude of `rank` and the next one.
pub(crate) open spec fn gap(rank: nat) -> nat {
    let exponent = rank / FRACTIONS as nat;
    if exponent == 0 {
        1
    } else {
        pow2((exponent - 1) as nat)
    }
}

pub(crate) proof fn lemma_magnitude_step(rank: nat)
    ensures
        magnitude(rank + 1) == magnitude(rank) + gap(rank),
        gap(rank) > 0,
{
    let f = FRACTIONS as nat;
    let e = rank / f;
    let r = rank % f;
    assert(rank == f * e + r);
    lemma2_to64();
    if e > 0 {
        lemma_pow2_pos((e - 1) as nat);
    }
    if r + 1 < f {
        assert((rank + 1) / f == e && (rank + 1) % f == r + 1);
        if e > 0 {
            let p = pow2((e - 1) as nat);
            assert((f + (r + 1)) * p == (f + r) * p + p) by (nonlinear_arith);
        }
    } else {
        assert(rank + 1 == f * (e + 1));
        assert((rank + 1) / f == e + 1 && (rank + 1) % f == 0);
        if e > 0 {
            let p = pow2((e - 1) as nat);
            lemma_pow2_unfold(e);
            assert(pow2(e) == 2 * p);
            assert((f + 0) * (2 * p) == (f + (f - 1)) * p + p) by (nonlinear_arith);
        }
    }
}

pub(crate) proof fn lemma_magnitude_monotone(a: nat, b: nat)
    requires
        a < b,
    ensures
        magnitude(a) < magnitude(b),
    decreases b,
{
    lemma_magnitude_step((b - 1) as nat);
    if a < b - 1 {
        lemma_magnitude_monotone(a, (b - 1) as nat);
    }
}

pub(crate) proof fn lemma_nearest_ordered(num: nat, den: nat, a: nat, b: nat)
    requires
        den > 0,
        is_nearest(num, den, a),
        is_nearest(num, den, b),
    ensures
        b <= a,
{
    if a + 1 < b {
        let upper = magnitude(a) + magnitude(a + 1);
        let lower = magnitude((b - 1) as nat) + magnitude(b);
        lemma_magnitude_monotone(a, (b - 1) as nat);
        lemma_magnitude_monotone(a + 1, b);
        assert(upper * den < lower * den) by (nonlinear_arith)
            requires
                upper < lower,
                den > 0,
        ;
    }
}

/// At most one rank is nearest.
pub(crate) proof fn lemma_nearest_unique(num: nat, den: nat, rank: nat)
    requires
        den > 0,
        is_nearest(num, den, rank),
    ensures
        nearest(num, den) == rank,
{
    lemma_nearest_ordered(num, den, rank, nearest(num, den));
    lemma_nearest_ordered(num, den, nearest(num, den), rank);
}

/// A rank written as `exponent * 2^52 + quotient`, where the quotient has 53 bits, or fewer
/// where the exponent is 0.
pub(crate) proof fn lemma_rank_parts(quotient: nat, exponent: nat)
    requires
        quotient < 2 * FRACTIONS,
        exponent == 0 || FRACTIONS <= quotient,
    ensures
        magnitude(exponent * FRACTIONS as nat + quotient) == quotient * pow2(exponent),
        gap(exponent * FRACTIONS as nat + quotient) == pow2(exponent),
{
    let f = FRACTIONS as nat;
    let rank = exponent * f + quotient;
    lemma2_to64();
    if quotient < f {
        assert(rank / f == 0 && rank % f == quotient);
    } else {
        let r = (quotient - f) as nat;
        assert(rank == (exponent + 1) * f + r) by (nonlinear_arith)
            requires
                rank == exponent * f + quotient,
                r == quotient - f,
        ;
        vstd::arithmetic::div_mod::lemma_fundamental_div_mod_converse(
            rank as int,
            f as int,
            (exponent + 1) as int,
            r as int,
        );
    }
}

/// Rounding a number that lies between `quotient` and `quotient + 1` units of 2^`exponent`:
/// `up` says whether it is above the middle, or on it with an odd quotient.
pub(crate) proof fn lemma_round(
    quotient: nat,
    exponent: nat,
    num: nat,
    den: nat,
    up: bool,
    rank: nat,
)
    requires
        den > 0,
        quotient < 2 * FRACTIONS,
        exponent == 0 || FRACTIONS <= quotient,
        quotient * (pow2(exponent) * den) <= num,
        num < (quotient + 1) * (pow2(exponent) * den),
        up <==> (2 * num > (2 * quotient + 1) * (pow2(exponent) * den) || 2 * num == (2 * quotient
            + 1) * (pow2(exponent) * den) && quotient % 2 == 1),
        rank == exponent * FRACTIONS as nat + quotient + if up { 1nat } else { 0 },
    ensures
        is_nearest(
            num,
            den,
            if rank <= INFINITE {
                rank
            } else {
                INFINITE as nat
            },
        ),
{
    let low = exponent * FRACTIONS as nat + quotient;
    let p = pow2(exponent);
    lemma_rank_parts(quotient, exponent);
    lemma_magnitude_step(low);
    lemma_magnitude_step(low + 1);
    assert(low % 2 == quotient % 2) by (nonlinear_arith)
        requires
            low == exponent * 0x10_0000_0000_0000 + quotient,
    ;
    let at = magnitude(low);
    assert(at * den == quotient * (p * den)) by (nonlinear_arith)
        requires
            at == quotient * p,
    ;
    assert((at + p) * den == (quotient + 1) * (p * den)) by (nonlinear_arith)
        requires
            at == quotient * p,
    ;
    assert((at + (at + p)) * den == (2 * quotient + 1) * (p * den)) by (nonlinear_arith)
        requires
            at == quotient * p,
    ;
    let result = if rank <= INFINITE {
        rank
    } else {
        INFINITE as nat
    };
    if rank > INFINITE {
        // Everything from the rank of infinity on is rounded to it.
        if low > INFINITE {
            lemma_magnitude_monotone(INFINITE as nat, low);
        }
        lemma_magnitude_step((INFINITE - 1) as nat);
        let below = magnitude((INFINITE - 1) as nat);
        let top = magnitude(INFINITE as nat);
        assert((below + top) * den < 2 * (at * den)) by (nonlinear_arith)
            requires
                below < top,
                top <= at,
                den > 0,
        ;
    } else if up {
        let above = magnitude(low + 2);
        assert(2 * ((at + p) * den) < ((at + p) + above) * den) by (nonlinear_arith)
            requires
                at + p < above,
                den > 0,
        ;
    } else if low > 0 {
        lemma_magnitude_step((low - 1) as nat);
        let below = magnitude((low - 1) as nat);
        assert((below + at) * den < 2 * (at * den)) by (nonlinear_arith)
            requires
                below < at,
                den > 0,
        ;
    }
}

/// What the quotient and the remainder of `m` by `whole = 2 * half` say of a number `num / den`
/// that is `m` units, or that lies strictly between `m` and `m + 1` units. A unit is
/// `k / (b * den)`, and `e` is `whole` units.
pub(crate) proof fn lemma_quotient(
    m: nat,
    quotient: nat,
    remainder: nat,
    half: nat,
    k: nat,
    e: nat,
    b: nat,
    num: nat,
    den: nat,
    inexact: bool,
)
    requires
        half > 0,
        m == quotient * (2 * half) + remainder,
        remainder < 2 * half,
        k > 0,
        b > 0,
        den > 0,
        (e * den) * b == (2 * half) * k,
        if inexact {
            m * k < num * b < (m + 1) * k
        } else {
            num * b == m * k
        },
    ensures
        quotient * (e * den) <= num,
        num < (quotient + 1) * (e * den),
        2 * num > (2 * quotient + 1) * (e * den) <==> (remainder > half || remainder == half
            && inexact),
        2 * num == (2 * quotient + 1) * (e * den) <==> (remainder == half && !inexact),
{
    let x = e * den;
    assert(quotient * x * b == quotient * (2 * half) * k) by (nonlinear_arith)
        requires
            x * b == (2 * half) * k,
    ;
    assert((quotient + 1) * x * b == (quotient + 1) * (2 * half) * k) by (nonlinear_arith)
        requires
            x * b == (2 * half) * k,
    ;
    assert((2 * quotient + 1) * x * b == 2 * ((quotient * (2 * half) + half) * k))
        by (nonlinear_arith)
        requires
            x * b == (2 * half) * k,
    ;
    let middle = quotient * (2 * half) + half;
    assert(quotient * (2 * half) * k <= m * k) by (nonlinear_arith)
        requires
            quotient * (2 * half) <= m,
    ;
    assert((quotient + 1) * (2 * half) == quotient * (2 * half) + 2 * half) by (nonlinear_arith);
    assert((m + 1) * k <= (quotient + 1) * (2 * half) * k) by (nonlinear_arith)
        requires
            m + 1 <= (quotient + 1) * (2 * half),
    ;
    assert(m * k < (m + 1) * k) by (nonlinear_arith)
        requires
            k > 0,
    ;
    assert(quotient * x <= num) by (nonlinear_arith)
        requires
            quotient * x * b <= num * b,
            b > 0,
    ;
    assert(num < (quotient + 1) * x) by (nonlinear_arith)
        requires
            num * b < (quotient + 1) * x * b,
            b > 0,
    ;
    if remainder < half {
        assert((m + 1) * k <= middle * k) by (nonlinear_arith)
            requires
                m + 1 <= middle,
        ;
        assert(2 * num < (2 * quotient + 1) * x) by (nonlinear_arith)
            requires
                2 * (num * b) < (2 * quotient + 1) * x * b,
                b > 0,
        ;
    } else if remainder == half && !inexact {
        assert(2 * num == (2 * quotient + 1) * x) by (nonlinear_arith)
            requires
                2 * (num * b) == (2 * quotient + 1) * x * b,
                b > 0,
        ;
    } else {
        assert(remainder > half ==> middle * k < m * k) by (nonlinear_arith)
            requires
                k > 0,
                remainder > half ==> middle < m,
        ;
        assert(2 * num > (2 * quotient + 1) * x) by (nonlinear_arith)
            requires
                2 * (num * b) > (2 * quotient + 1) * x * b,
                b > 0,
        ;
    }
}

/// 2^`e` where `e` is not negative, else 1.
pub(crate) open spec fn power_above(e: int) -> nat {
    if e >= 0 {
        pow2(e as nat)
    } else {
        1
    }
}

/// 2^-`e` where `e` is negative, else 1.
pub(crate) open spec fn power_below(e: int) -> nat {
    if e >= 0 {
        1
    } else {
        pow2((-e) as nat)
    }
}

/// Whether `num / den` is `m * 2^e`, or, where it is `inexact`, lies strictly between that and
/// `(m + 1) * 2^e`.
pub(crate) open spec fn is_scaled(num: nat, den: nat, m: nat, e: int, inexact: bool) -> bool {
    let k = power_above(e) * den;
    let n = num * power_below(e);
    if inexact {
        m * k < n < (m + 1) * k
    } else {
        n == m * k
    }
}

pub(crate) proof fn lemma_shift(e: int, s: int)
    requires
        s >= 0,
        e + s >= 0,
    ensures
        pow2((e + s) as nat) * power_below(e) == pow2(s as nat) * power_above(e),
        power_above(e) > 0,
        power_below(e) > 0,
{
    lemma2_to64();
    if e >= 0 {
        lemma_pow2_adds(e as nat, s as nat);
        lemma_pow2_pos(e as nat);
        assert(pow2(s as nat) * pow2(e as nat) == pow2(e as nat) * pow2(s as nat))
            by (nonlinear_arith);
        assert(e as nat + s as nat == (e + s) as nat);
        assert(pow2((e + s) as nat) * 1 == pow2((e + s) as nat)) by (nonlinear_arith);
    } else {
        assert(pow2(s as nat) * 1 == pow2(s as nat)) by (nonlinear_arith);
        lemma_pow2_adds((e + s) as nat, (-e) as nat);
        lemma_pow2_pos((-e) as nat);
        assert((e + s) as nat + (-e) as nat == s as nat);
    }
}

pub(crate) proof fn lemma_pow2_bounds()
    ensures
        pow2(127) == 0x8000_0000_0000_0000_0000_0000_0000_0000,
        pow2(52) == FRACTIONS,
        pow2(53) == 2 * FRACTIONS,
        pow2(54) == 4 * FRACTIONS,
        pow2(0) == 1,
{
    lemma2_to64();
    lemma2_to64_rest();
    lemma_pow2_adds(63, 64);
}

pub(crate) proof fn lemma_pow2_ordered(a: nat, b: nat)
    requires
        a <= b,
    ensures
        pow2(a) <= pow2(b),
{
    if a < b {
        lemma_pow2_strictly_increases(a, b);
    }
}

pub(crate) fn power_of_two(n: u32) -> (p: u128)
    requires
        n <= 127,
    ensures
        p == pow2(n as nat),
{
    let mut p: u128 = 1;
    let mut i: u32 = 0;
    proof {
        lemma_pow2_bounds();
    }
    while i < n
        invariant
            i <= n <= 127,
            p == pow2(i as nat),
        decreases n - i,
    {
        proof {
            lemma_pow2_bounds();
            lemma_pow2_unfold((i + 1) as nat);
            lemma_pow2_ordered((i + 1) as nat, 127);
        }
        p = p * 2;
        i = i + 1;
    }
    p
}

/// The number of binary digits of `m`.
pub(crate) fn bit_length(m: u128) -> (length: u32)
    requires
        0 < m < pow2(127),
    ensures
        1 <= length <= 127,
        pow2((length - 1) as nat) <= m < pow2(length as nat),
{
    let mut p: u128 = 2;
    let mut length: u32 = 1;
    proof {
        lemma_pow2_bounds();
        lemma2_to64();
    }
    while p <= m
        invariant
            0 < m < pow2(127),
            1 <= length <= 127,
            p == pow2(length as nat),
            pow2((length - 1) as nat) <= m,
        decreases 127 - length,
    {
        proof {
            lemma_pow2_bounds();
            if length == 127 {
                assert(false);
            }
            lemma_pow2_unfold((length + 1) as nat);
        }
        p = p * 2;
        length = length + 1;
    }
    length
}

/// The rank nearest to `num / den`, which is given as `m * 2^e`, exactly or not.
pub(crate) fn round(
    m: u128,
    e: i32,
    inexact: bool,
    Ghost(num): Ghost<nat>,
    Ghost(den): Ghost<nat>,
) -> (rank: u64)
    requires
        m < pow2(127),
        -5000 < e < 5000,
        den > 0,
        inexact ==> m >= 4 * FRACTIONS,
        is_scaled(num, den, m as nat, e as int, inexact),
    ensures
        is_nearest(num, den, rank as nat),
{
    proof {
        lemma_pow2_bounds();
    }
    let ghost k = power_above(e as int) * den;
    let ghost b = power_below(e as int);
    if m == 0 {
        proof {
            lemma_shift(e as int, if e < 0 { -e as int } else { 0 });
            assert(0 * k == 0);
            assert(num == 0) by (nonlinear_arith)
                requires
                    num * b == 0,
                    b > 0,
            ;
            lemma_magnitude_step(0);
        }
        return 0;
    }
    let length: i32 = bit_length(m) as i32;
    let shift: i32 = if length - 53 > -e { length - 53 } else { -e };
    if shift > length {
        proof {
            let half = pow2((shift - 1) as nat);
            lemma_pow2_pos((shift - 1) as nat);
            lemma_pow2_unfold(shift as nat);
            lemma_pow2_ordered(length as nat, (shift - 1) as nat);
            lemma_shift(e as int, shift as int);
            assert(0 * (2 * half) == 0);
            assert(k > 0) by (nonlinear_arith)
                requires
                    k == power_above(e as int) * den,
                    power_above(e as int) > 0,
                    den > 0,
            ;
            assert((1 * den) * b == (2 * half) * k) by (nonlinear_arith)
                requires
                    1 * b == (2 * half) * power_above(e as int),
                    k == power_above(e as int) * den,
            ;
            lemma_quotient(m as nat, 0, m as nat, half, k, 1, b, num, den, inexact);
            lemma_round(0, 0, num, den, false, 0);
        }
        return 0;
    }
    if shift >= 1 {
        let half: u128 = power_of_two((shift - 1) as u32);
        proof {
            lemma_pow2_pos((shift - 1) as nat);
            lemma_pow2_unfold(shift as nat);
            lemma_pow2_ordered(shift as nat, 127);
        }
        let quotient: u128 = m / (2 * half);
        let remainder: u128 = m % (2 * half);
        let exponent: i32 = e + shift;
        let ghost p = pow2(exponent as nat);
        proof {
            let whole = 2 * half as nat;
            assert(m == quotient * whole + remainder) by {
                vstd::arithmetic::div_mod::lemma_fundamental_div_mod(m as int, whole as int);
                assert(whole * quotient == quotient * whole) by (nonlinear_arith);
            }
            // The quotient has at most 53 bits, and no fewer unless the exponent is 0.
            lemma_pow2_adds(53, shift as nat);
            lemma_pow2_ordered(length as nat, (53 + shift) as nat);
            assert(quotient < 2 * FRACTIONS) by (nonlinear_arith)
                requires
                    quotient * whole <= m,
                    m < (2 * FRACTIONS) * whole,
                    whole > 0,
            ;
            if exponent > 0 {
                lemma_pow2_adds(52, shift as nat);
                assert(quotient >= FRACTIONS) by (nonlinear_arith)
                    requires
                        m == quotient * whole + remainder,
                        remainder < whole,
                        m >= FRACTIONS * whole,
                        whole > 0,
                ;
            }
            lemma_shift(e as int, shift as int);
            assert(k > 0) by (nonlinear_arith)
                requires
                    k == power_above(e as int) * den,
                    power_above(e as int) > 0,
                    den > 0,
            ;
            assert((p * den) * b == whole * k) by (nonlinear_arith)
                requires
                    p * b == whole * power_above(e as int),
                    k == power_above(e as int) * den,
            ;
            lemma_quotient(
                m as nat,
                quotient as nat,
                remainder as nat,
                half as nat,
                k,
                p,
                b,
                num,
                den,
                inexact,
            );
        }
        let up: bool = remainder > half || remainder == half && (inexact || quotient % 2 == 1);
        proof {
            lemma_round(
                quotient as nat,
                exponent as nat,
                num,
                den,
                up,
                exponent as nat * FRACTIONS as nat + quotient as nat + if up { 1nat } else { 0 },
            );
        }
        return finish(quotient as u64, exponent as u32, up);
    }
    let room: i32 = 53 - length;
    let lift: i32 = if room < e { room } else { e };
    let factor: u128 = power_of_two(lift as u32);
    proof {
        lemma_pow2_adds(length as nat, lift as nat);
        lemma_pow2_ordered((length + lift) as nat, 53);
        lemma_pow2_pos(lift as nat);
        assert(m * factor < 2 * FRACTIONS) by (nonlinear_arith)
            requires
                m < pow2(length as nat),
                factor > 0,
                pow2(length as nat) * factor <= 2 * FRACTIONS,
        ;
    }
    let quotient: u128 = m * factor;
    let exponent: i32 = e - lift;
    proof {
        if exponent > 0 {
            lemma_pow2_adds((length - 1) as nat, lift as nat);
            assert((length - 1) as nat + lift as nat == 52);
            assert(quotient >= FRACTIONS) by (nonlinear_arith)
                requires
                    m >= pow2((length - 1) as nat),
                    quotient == m * factor,
                    pow2((length - 1) as nat) * factor == FRACTIONS,
            ;
        }
        let p = pow2(exponent as nat);
        lemma_pow2_adds(lift as nat, exponent as nat);
        assert(lift as nat + exponent as nat == e as nat);
        assert(power_above(e as int) == factor * p);
        lemma_pow2_ordered(length as nat, 54);
        assert(!inexact);
        lemma_pow2_pos(exponent as nat);
        assert(num == quotient * (p * den)) by (nonlinear_arith)
            requires
                num * 1 == m * ((factor * p) * den),
                quotient == m * factor,
        ;
        assert(p * den > 0) by (nonlinear_arith)
            requires
                p > 0,
                den > 0,
        ;
        assert((quotient + 1) * (p * den) == quotient * (p * den) + p * den) by (nonlinear_arith);
        assert((2 * quotient + 1) * (p * den) == 2 * (quotient * (p * den)) + p * den)
            by (nonlinear_arith);
        lemma_round(
            quotient as nat,
            exponent as nat,
            num,
            den,
            false,
            exponent as nat * FRACTIONS as nat + quotient as nat,
        );
    }
    finish(quotient as u64, exponent as u32, false)
}

/// The rank with the given parts, at most that of infinity.
pub(crate) fn finish(quotient: u64, exponent: u32, up: bool) -> (rank: u64)
    requires
        quotient < 2 * FRACTIONS,
        exponent == 0 || FRACTIONS <= quotient,
    ensures
        ({
            let exact = exponent * FRACTIONS + quotient + if up { 1int } else { 0 };
            rank == if exact <= INFINITE { exact } else { INFINITE as int }
        }),
{
    if exponent >= 2046 {
        assert(exponent * FRACTIONS >= 2046 * FRACTIONS) by (nonlinear_arith)
            requires
                exponent >= 2046,
        ;
        INFINITE
    } else {
        assert(exponent * FRACTIONS <= 2045 * FRACTIONS) by (nonlinear_arith)
            requires
                exponent <= 2045,
        ;
        exponent as u64 * FRACTIONS + quotient + if up { 1 } else { 0 }
    }
}

/// The significand and the exponent of a rank.
pub(crate) fn parts(rank: u64) -> (r: (u64, u32))
    requires
        rank < INFINITE,
    ensures
        r.0 < 2 * FRACTIONS,
        r.1 == 0 || FRACTIONS <= r.0,
        r.1 <= 2045,
        rank == r.1 * FRACTIONS + r.0,
        magnitude(rank as nat) == r.0 * pow2(r.1 as nat),
{
    proof {
        lemma_pow2_bounds();
    }
    let exponent: u64 = rank / FRACTIONS;
    let fraction: u64 = rank % FRACTIONS;
    if exponent == 0 {
        assert(fraction * pow2(0) == fraction) by (nonlinear_arith)
            requires
                pow2(0) == 1,
        ;
        (fraction, 0)
    } else {
        (FRACTIONS + fraction, (exponent - 1) as u32)
    }
}

/// The significand brought to 53 bits, and by how many places it was moved.
pub(crate) fn normalize(significand: u64) -> (r: (u64, u32))
    requires
        0 < significand < 2 * FRACTIONS,
    ensures
        FRACTIONS <= r.0 < 2 * FRACTIONS,
        r.1 <= 52,
        r.0 == significand * pow2(r.1 as nat),
{
    proof {
        lemma_pow2_bounds();
        lemma_pow2_ordered(53, 127);
    }
    let length: u32 = bit_length(significand as u128);
    proof {
        if length > 53 {
            lemma_pow2_ordered(53, (length - 1) as nat);
        }
    }
    let lift: u32 = 53 - length;
    let factor: u128 = power_of_two(lift);
    proof {
        lemma_pow2_adds(length as nat, lift as nat);
        lemma_pow2_adds((length - 1) as nat, lift as nat);
        lemma_pow2_pos(lift as nat);
        assert(FRACTIONS <= significand * factor < 2 * FRACTIONS) by (nonlinear_arith)
            requires
                pow2((length - 1) as nat) <= significand < pow2(length as nat),
                factor > 0,
                pow2(length as nat) * factor == 2 * FRACTIONS,
                pow2((length - 1) as nat) * factor == FRACTIONS,
        ;
    }
    ((significand as u128 * factor) as u64, lift)
}

/// A magnitude whose exponent is greater by more than 64 swallows the other.
pub(crate) proof fn lemma_absorb(rank: nat, significand: nat, exponent: nat, other: nat, num: nat)
    requires
        rank < INFINITE,
        rank == exponent * FRACTIONS + significand,
        FRACTIONS <= significand < 2 * FRACTIONS,
        exponent > 64,
        other < pow2((exponent - 12) as nat),
        num == magnitude(rank) + other || num == magnitude(rank) - other,
    ensures
        is_nearest(num, 1, rank),
{
    lemma_rank_parts(significand, exponent);
    lemma_magnitude_step(rank);
    lemma_magnitude_step((rank - 1) as nat);
    lemma2_to64();
    lemma_pow2_adds((exponent - 12) as nat, 11);
    lemma_pow2_adds((exponent - 12) as nat, 12);
    assert((exponent - 12) as nat + 11 == (exponent - 1) as nat);
    assert((exponent - 12) as nat + 12 == exponent);
    if significand > FRACTIONS {
        lemma_rank_parts((significand - 1) as nat, exponent);
    } else {
        lemma_rank_parts((2 * FRACTIONS - 1) as nat, (exponent - 1) as nat);
        assert((exponent - 1) as nat * FRACTIONS as nat + (2 * FRACTIONS - 1) == rank - 1)
            by (nonlinear_arith)
            requires
                rank == exponent * FRACTIONS + FRACTIONS,
                exponent > 0,
        ;
    }
    assert(gap((rank - 1) as nat) >= pow2((exponent - 1) as nat));
}

pub(crate) proof fn lemma_magnitude_zero(rank: nat)
    ensures
        magnitude(rank) == 0 <==> rank == 0,
{
    if rank > 0 {
        lemma_magnitude_monotone(0, rank);
    }
}

pub(crate) proof fn lemma_divide(n: nat, d: nat)
    requires
        d > 0,
    ensures
        (n * d) / d == n,
{
    vstd::arithmetic::div_mod::lemma_div_multiples_vanish(n as int, d as int);
    assert(d * n == n * d) by (nonlinear_arith);
}

/// The quotient of two normalized significands, as a quotient of magnitudes.
pub(crate) proof fn lemma_quotient_scaled(
    mx: nat,
    ex: nat,
    tx: nat,
    my: nat,
    ey: nat,
    ty: nat,
    nx: nat,
    ny: nat,
    quotient: nat,
    remainder: nat,
)
    requires
        nx == mx * pow2(tx),
        ny == my * pow2(ty),
        quotient == (nx * 0x1_0000_0000_0000_0000) / ny,
        remainder == (nx * 0x1_0000_0000_0000_0000) % ny,
        ny > 0,
    ensures
        is_scaled(
            mx * pow2(ex) * pow2(1074),
            my * pow2(ey),
            quotient,
            ex + 1074 + ty - tx - 64 - ey,
            remainder != 0,
        ),
{
    let e = ex + 1074 + ty - tx - 64 - ey;
    let num = mx * pow2(ex) * pow2(1074);
    let den = my * pow2(ey);
    let s = ey + tx + 64;
    lemma_shift(e, s as int);
    let above = power_above(e);
    let below = power_below(e);
    let k = above * den;
    let n = num * below;
    let all = (tx + 64) + ty;
    let y = pow2(all);
    let v = pow2(s) * above;
    lemma_pow2_pos(all);
    lemma_pow2_pos(s);
    lemma2_to64();
    lemma_pow2_adds(tx + 64, ty);
    lemma_pow2_adds(tx, 64);
    lemma_pow2_adds(ey, tx + 64);
    assert(ey + (tx + 64) == s);
    lemma_pow2_adds(ex, 1074);
    lemma_pow2_adds(ex + 1074, ty);
    assert((e + s) as nat == (ex + 1074) + ty);
    let dividend = nx * pow2(64);
    let p = pow2(ex) * pow2(1074);
    let q = pow2(tx) * pow2(64);
    let u = pow2(ty);
    assert(n == mx * p * below) by (nonlinear_arith)
        requires
            n == mx * pow2(ex) * pow2(1074) * below,
            p == pow2(ex) * pow2(1074),
    ;
    assert(dividend == mx * q) by (nonlinear_arith)
        requires
            dividend == (mx * pow2(tx)) * pow2(64),
            q == pow2(tx) * pow2(64),
    ;
    assert(n * y == dividend * v) by (nonlinear_arith)
        requires
            n == mx * p * below,
            y == q * u,
            dividend == mx * q,
            v == (p * u) * below,
    ;
    assert(k * y == ny * v) by (nonlinear_arith)
        requires
            k == above * (my * pow2(ey)),
            y == pow2(tx + 64) * pow2(ty),
            ny == my * pow2(ty),
            v == (pow2(ey) * pow2(tx + 64)) * above,
    ;
    assert(v > 0) by (nonlinear_arith)
        requires
            v == pow2(s) * above,
            pow2(s) > 0,
            above > 0,
    ;
    vstd::arithmetic::div_mod::lemma_fundamental_div_mod(dividend as int, ny as int);
    assert(quotient * k * y == (ny * quotient) * v) by (nonlinear_arith)
        requires
            k * y == ny * v,
    ;
    assert((quotient + 1) * k * y == (ny * quotient + ny) * v) by (nonlinear_arith)
        requires
            k * y == ny * v,
    ;
    assert((ny * quotient) * v + remainder * v == dividend * v) by (nonlinear_arith)
        requires
            ny * quotient + remainder == dividend,
    ;
    assert(dividend * v < (ny * quotient + ny) * v) by (nonlinear_arith)
        requires
            dividend < ny * quotient + ny,
            v > 0,
    ;
    assert(n < (quotient + 1) * k) by (nonlinear_arith)
        requires
            n * y < (quotient + 1) * k * y,
            y > 0,
    ;
    if remainder == 0 {
        assert(0 * v == 0);
        assert(n == quotient * k) by (nonlinear_arith)
            requires
                n * y == quotient * k * y,
                y > 0,
        ;
    } else {
        assert(remainder * v > 0) by (nonlinear_arith)
            requires
                remainder > 0,
                v > 0,
        ;
        assert(quotient * k < n) by (nonlinear_arith)
            requires
                quotient * k * y < n * y,
                y > 0,
        ;
    }
}

pub(crate) proof fn lemma_zero()
    ensures
        forall|den: nat| den > 0 ==> #[trigger] nearest(0, den) == 0,
{
    lemma_magnitude_step(0);
    assert forall|den: nat| den > 0 implies #[trigger] nearest(0, den) == 0 by {
        assert(is_nearest(0, den, 0)) by {
            assert((magnitude(0) + magnitude(1)) * den > 0) by (nonlinear_arith)
                requires
                    magnitude(0) + magnitude(1) > 0,
                    den > 0,
            ;
        }
        lemma_nearest_unique(0, den, 0);
    }
}

} // verus!
