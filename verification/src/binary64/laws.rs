//! What holds of the rounded arithmetic.

use crate::binary64::rounding::{magnitude, nearest, FRACTIONS, INFINITE};
#[allow(unused_imports)]
use crate::binary64::rounding::{
    is_nearest, lemma_divide, lemma_magnitude_monotone, lemma_magnitude_step, lemma_magnitude_zero,
    lemma_nearest_unique, lemma_pow2_bounds, lemma_pow2_ordered, lemma_rank_parts, lemma_zero,
};
#[allow(unused_imports)]
use crate::binary64::{order_is_that_of_the_values, signed};
use crate::binary64::Binary64;
use vstd::prelude::*;
#[allow(unused_imports)]
use vstd::arithmetic::power2::{
    lemma2_to64, lemma_pow2_adds, lemma_pow2_pos, lemma_pow2_unfold, pow2,
};

verus! {

/// Whether a number is not below the middle between `rank` and the rank before it, where it
/// would be rounded down.
spec fn reaches(num: nat, den: nat, rank: nat) -> bool {
    rank > 0 ==> {
        let middle = (magnitude((rank - 1) as nat) + magnitude(rank)) * den;
        middle < 2 * num || middle == 2 * num && rank % 2 == 0
    }
}

proof fn lemma_reaches(num: nat, den: nat, rank: nat)
    requires
        rank <= INFINITE,
        reaches(num, den, rank),
        rank < INFINITE ==> !reaches(num, den, rank + 1),
    ensures
        is_nearest(num, den, rank),
{
}

proof fn lemma_search(num: nat, den: nat, rank: nat) -> (r: nat)
    requires
        rank <= INFINITE,
        reaches(num, den, rank),
    ensures
        is_nearest(num, den, r),
    decreases INFINITE - rank,
{
    if rank < INFINITE && reaches(num, den, rank + 1) {
        lemma_search(num, den, rank + 1)
    } else {
        lemma_reaches(num, den, rank);
        rank
    }
}

/// To each number there is a nearest magnitude.
pub proof fn nearest_exists(num: nat, den: nat)
    ensures
        is_nearest(num, den, nearest(num, den)),
{
    let r = lemma_search(num, den, 0);
}

/// A magnitude is nearest to itself.
pub proof fn nearest_is_exact(rank: nat, den: nat)
    requires
        rank < INFINITE,
        den > 0,
    ensures
        nearest(magnitude(rank) * den, den) == rank,
{
    let here = magnitude(rank);
    let above = magnitude(rank + 1);
    lemma_magnitude_step(rank);
    assert(2 * (here * den) < (here + above) * den) by (nonlinear_arith)
        requires
            here < above,
            den > 0,
    ;
    if rank > 0 {
        lemma_magnitude_step((rank - 1) as nat);
        let below = magnitude((rank - 1) as nat);
        assert((below + here) * den < 2 * (here * den)) by (nonlinear_arith)
            requires
                below < here,
                den > 0,
        ;
    }
    lemma_nearest_unique(here * den, den, rank);
}

/// Rounding keeps the order.
pub proof fn nearest_is_monotone(a: nat, b: nat, den: nat)
    requires
        a <= b,
        den > 0,
    ensures
        nearest(a, den) <= nearest(b, den),
{
    nearest_exists(a, den);
    nearest_exists(b, den);
    let (x, y) = (nearest(a, den), nearest(b, den));
    if y + 1 < x {
        let upper = magnitude((x - 1) as nat) + magnitude(x);
        let lower = magnitude(y) + magnitude(y + 1);
        lemma_magnitude_monotone(y, (x - 1) as nat);
        lemma_magnitude_monotone(y + 1, x);
        assert(lower * den < upper * den) by (nonlinear_arith)
            requires
                lower < upper,
                den > 0,
        ;
    }
}

/// Whether a value is a number, and not below 0.
pub open spec fn at_least_zero(x: Binary64) -> bool {
    !x.is_nan() && x.order() >= 0
}

proof fn lemma_signed(negative: bool, rank: nat)
    requires
        rank <= INFINITE,
    ensures
        signed(negative, rank).negative() == negative,
        signed(negative, rank).rank() == rank,
{
}

/// Where a sum is not below 0, its order is that of the rounded magnitude.
proof fn lemma_plus(a: Binary64, b: Binary64)
    requires
        a.is_finite(),
        b.is_finite(),
        a.units() + b.units() >= 0,
    ensures
        !a.plus(b).is_nan(),
        a.plus(b).order() == nearest((a.units() + b.units()) as nat, 1),
{
    let sum = (a.units() + b.units()) as nat;
    nearest_exists(sum, 1);
    lemma_zero();
    lemma_signed(false, nearest(sum, 1));
    lemma_signed(true, 0);
}

/// A number that is not below 0 has the order of its own rounded magnitude.
proof fn lemma_units(a: Binary64)
    requires
        a.is_finite(),
        at_least_zero(a),
    ensures
        a.units() >= 0,
        a.order() == nearest(a.units() as nat, 1),
        a.order() == a.rank(),
        a.units() == magnitude(a.rank()),
{
    lemma_magnitude_zero(a.rank());
    nearest_is_exact(a.rank(), 1);
    assert(magnitude(a.rank()) * 1 == magnitude(a.rank())) by (nonlinear_arith);
}

/// Adding does not lower a number.
pub proof fn adding_does_not_lower(a: Binary64, b: Binary64)
    requires
        at_least_zero(a),
        at_least_zero(b),
    ensures
        at_least_zero(a.plus(b)),
        a.plus(b).order() >= a.order(),
        a.plus(b).order() >= b.order(),
{
    if a.is_finite() && b.is_finite() {
        lemma_units(a);
        lemma_units(b);
        lemma_plus(a, b);
        nearest_is_monotone(a.units() as nat, (a.units() + b.units()) as nat, 1);
        nearest_is_monotone(b.units() as nat, (a.units() + b.units()) as nat, 1);
    }
}

/// A greater number added gives no smaller a sum.
pub proof fn sum_is_monotone(a: Binary64, b: Binary64, c: Binary64)
    requires
        at_least_zero(a),
        at_least_zero(b),
        at_least_zero(c),
        b.order() <= c.order(),
    ensures
        at_least_zero(a.plus(b)),
        a.plus(b).order() <= a.plus(c).order(),
        b.plus(a).order() <= c.plus(a).order(),
{
    adding_does_not_lower(a, b);
    adding_does_not_lower(a, c);
    adding_does_not_lower(b, a);
    adding_does_not_lower(c, a);
    if a.is_finite() && c.is_finite() {
        lemma_units(a);
        lemma_units(b);
        lemma_units(c);
        order_is_that_of_the_values(c, b);
        lemma_plus(a, b);
        lemma_plus(a, c);
        lemma_plus(b, a);
        lemma_plus(c, a);
        nearest_is_monotone((a.units() + b.units()) as nat, (a.units() + c.units()) as nat, 1);
    } else {
        lemma_order_bound(a.plus(b));
        lemma_order_bound(b.plus(a));
    }
}

proof fn lemma_order_bound(x: Binary64)
    requires
        !x.is_nan(),
    ensures
        x.order() <= INFINITE,
{
}

/// Taking a part away leaves no less than nothing, and no more than there was.
pub proof fn taking_away_lowers(a: Binary64, b: Binary64)
    requires
        a.is_finite(),
        b.is_finite(),
        0 <= b.order() <= a.order(),
    ensures
        at_least_zero(a.minus(b)),
        a.minus(b).order() <= a.order(),
        a.minus(b).is_finite(),
{
    let c = b.opposite();
    lemma_signed(!b.negative(), b.rank());
    lemma_units(a);
    lemma_units(b);
    order_is_that_of_the_values(a, b);
    assert(c.units() == -b.units()) by {
        lemma_magnitude_zero(b.rank());
    }
    lemma_plus(a, c);
    nearest_is_monotone((a.units() + c.units()) as nat, a.units() as nat, 1);
}

/// A product of numbers that are not below 0 is not below 0, if it is a number.
pub proof fn product_is_at_least_zero(a: Binary64, b: Binary64)
    requires
        at_least_zero(a),
        at_least_zero(b),
    ensures
        a.times(b).is_nan() || at_least_zero(a.times(b)),
        a.is_finite() && b.is_finite() ==> !a.times(b).is_nan() && a.times(b).order() == nearest(
            magnitude(a.rank()) * magnitude(b.rank()),
            pow2(1074),
        ),
{
    let negative = a.negative() != b.negative();
    if a.is_finite() && b.is_finite() {
        let num = magnitude(a.rank()) * magnitude(b.rank());
        lemma_pow2_pos(1074);
        nearest_exists(num, pow2(1074));
        lemma_signed(negative, nearest(num, pow2(1074)));
        if negative {
            // One of them is the negative zero.
            lemma_magnitude_zero(0);
            assert(num == 0) by (nonlinear_arith)
                requires
                    num == magnitude(a.rank()) * magnitude(b.rank()),
                    magnitude(a.rank()) == 0 || magnitude(b.rank()) == 0,
            ;
            lemma_zero();
        }
    } else if !a.times(b).is_nan() {
        lemma_signed(negative, INFINITE as nat);
    }
}

/// A greater factor gives no smaller a product.
pub proof fn product_is_monotone(a: Binary64, b: Binary64, c: Binary64)
    requires
        a.is_finite(),
        b.is_finite(),
        c.is_finite(),
        at_least_zero(a),
        0 <= b.order() <= c.order(),
    ensures
        0 <= b.times(a).order() <= c.times(a).order(),
        !b.times(a).is_nan(),
        !c.times(a).is_nan(),
{
    product_is_at_least_zero(b, a);
    product_is_at_least_zero(c, a);
    if b.rank() < c.rank() {
        lemma_magnitude_monotone(b.rank(), c.rank());
    }
    let (x, y, z) = (magnitude(b.rank()), magnitude(c.rank()), magnitude(a.rank()));
    assert(x * z <= y * z) by (nonlinear_arith)
        requires
            x <= y,
    ;
    lemma_pow2_pos(1074);
    nearest_is_monotone(x * z, y * z, pow2(1074));
}

/// The greatest number up to which all whole numbers are values.
pub const MAX_EXACT: u64 = 0x20_0000_0000_0000;

/// How far a number has to be moved to have 53 binary digits.
proof fn lemma_normal(n: nat) -> (t: nat)
    requires
        0 < n < 2 * FRACTIONS,
    ensures
        t <= 52,
        FRACTIONS <= n * pow2(t) < 2 * FRACTIONS,
    decreases 2 * FRACTIONS - n,
{
    lemma2_to64();
    if n >= FRACTIONS {
        assert(n * pow2(0) == n) by (nonlinear_arith)
            requires
                pow2(0) == 1,
        ;
        0
    } else {
        let t = lemma_normal(2 * n);
        lemma_pow2_unfold(t + 1);
        assert((2 * n) * pow2(t) == n * pow2(t + 1)) by (nonlinear_arith)
            requires
                pow2(t + 1) == 2 * pow2(t),
        ;
        if t + 1 > 52 {
            lemma_pow2_bounds();
            lemma_pow2_ordered(53, t + 1);
            assert(n * pow2(t + 1) >= 2 * FRACTIONS) by (nonlinear_arith)
                requires
                    n >= 1,
                    pow2(t + 1) >= 2 * FRACTIONS,
            ;
        }
        t + 1
    }
}

/// A whole number of up to 53 binary digits has a rank.
proof fn lemma_whole_rank(n: nat) -> (rank: nat)
    requires
        n <= MAX_EXACT,
    ensures
        rank < INFINITE,
        magnitude(rank) == n * pow2(1074),
{
    lemma_pow2_bounds();
    lemma2_to64();
    if n == 0 {
        assert(0 * pow2(1074) == 0);
        0
    } else if n == MAX_EXACT {
        lemma_rank_parts(FRACTIONS as nat, 1075);
        lemma_pow2_unfold(1075);
        assert(FRACTIONS * pow2(1075) == n * pow2(1074)) by (nonlinear_arith)
            requires
                pow2(1075) == 2 * pow2(1074),
                n == 2 * FRACTIONS,
        ;
        1075 * FRACTIONS as nat + FRACTIONS as nat
    } else {
        let t = lemma_normal(n);
        let m = n * pow2(t);
        let e = (1074 - t) as nat;
        lemma_rank_parts(m, e);
        lemma_pow2_adds(t, e);
        assert(m * pow2(e) == n * pow2(1074)) by (nonlinear_arith)
            requires
                m == n * pow2(t),
                pow2(1074) == pow2(t) * pow2(e),
        ;
        assert(e * FRACTIONS + m < INFINITE) by (nonlinear_arith)
            requires
                e <= 1074,
                m < 2 * FRACTIONS,
                INFINITE == 2047 * FRACTIONS,
        ;
        e * FRACTIONS as nat + m
    }
}

/// Whole numbers of up to 53 binary digits are values.
pub proof fn whole_is_exact(n: nat)
    requires
        n <= MAX_EXACT,
    ensures
        Binary64::of_whole(n).is_finite(),
        !Binary64::of_whole(n).negative(),
        Binary64::of_whole(n).units() == n * pow2(1074),
        Binary64::of_whole(n).whole_part() == n,
{
    let rank = lemma_whole_rank(n);
    nearest_is_exact(rank, 1);
    assert(magnitude(rank) * 1 == n * pow2(1074));
    lemma_signed(false, rank);
    lemma_pow2_pos(1074);
    lemma_divide(n, pow2(1074));
}

/// The value nearest to a whole number of 64 bits is finite and not below 0; greater numbers
/// have no smaller a value.
pub proof fn whole_is_finite(n: nat)
    requires
        n <= 0x1_0000_0000_0000_0000,
    ensures
        Binary64::of_whole(n).is_finite(),
        !Binary64::of_whole(n).negative(),
        at_least_zero(Binary64::of_whole(n)),
{
    let top: nat = 0x1_0000_0000_0000_0000;
    let rank = 1086 * FRACTIONS as nat + FRACTIONS as nat;
    lemma_pow2_bounds();
    lemma2_to64();
    lemma_rank_parts(FRACTIONS as nat, 1086);
    lemma_pow2_adds(12, 1074);
    assert(FRACTIONS * pow2(1086) == top * pow2(1074)) by (nonlinear_arith)
        requires
            pow2(1086) == 0x1000 * pow2(1074),
            top == FRACTIONS * 0x1000,
    ;
    nearest_is_exact(rank, 1);
    assert(magnitude(rank) * 1 == top * pow2(1074));
    assert(n * pow2(1074) <= top * pow2(1074)) by (nonlinear_arith)
        requires
            n <= top,
    ;
    nearest_is_monotone(n * pow2(1074), top * pow2(1074), 1);
    lemma_signed(false, nearest(n * pow2(1074), 1));
}

/// The values nearest to whole numbers are in the order of the numbers.
pub proof fn wholes_are_ordered(a: nat, b: nat)
    requires
        a <= b <= 0x1_0000_0000_0000_0000,
    ensures
        Binary64::of_whole(a).order() <= Binary64::of_whole(b).order(),
{
    whole_is_finite(a);
    whole_is_finite(b);
    assert(a * pow2(1074) <= b * pow2(1074)) by (nonlinear_arith)
        requires
            a <= b,
    ;
    nearest_is_monotone(a * pow2(1074), b * pow2(1074), 1);
    nearest_exists(a * pow2(1074), 1);
    nearest_exists(b * pow2(1074), 1);
}

/// Whole numbers of up to 53 binary digits are compared as such.
pub proof fn wholes_are_compared(a: nat, b: nat)
    requires
        a <= MAX_EXACT,
        b <= MAX_EXACT,
    ensures
        Binary64::of_whole(a).at_least(Binary64::of_whole(b)) == (a >= b),
{
    let (x, y) = (Binary64::of_whole(a), Binary64::of_whole(b));
    whole_is_exact(a);
    whole_is_exact(b);
    order_is_that_of_the_values(x, y);
    order_is_that_of_the_values(y, x);
    lemma_pow2_pos(1074);
    let p = pow2(1074);
    if a < b {
        assert(a * p < b * p) by (nonlinear_arith)
            requires
                a < b,
                p > 0,
        ;
    } else {
        assert(a * p >= b * p) by (nonlinear_arith)
            requires
                a >= b,
        ;
    }
}

/// Whole numbers of up to 53 binary digits are subtracted as such.
pub proof fn wholes_are_subtracted(a: nat, b: nat)
    requires
        b <= a <= MAX_EXACT,
    ensures
        Binary64::of_whole(a).minus(Binary64::of_whole(b)) == Binary64::of_whole((a - b) as nat),
{
    let (x, y) = (Binary64::of_whole(a), Binary64::of_whole(b));
    whole_is_exact(a);
    whole_is_exact(b);
    lemma_signed(true, y.rank());
    let sum = x.units() + y.opposite().units();
    assert(sum == (a - b) * pow2(1074)) by (nonlinear_arith)
        requires
            sum == a * pow2(1074) - b * pow2(1074),
    ;
    lemma_pow2_pos(1074);
    let n = (a - b) as nat;
    if n == 0 {
        assert(n * pow2(1074) == 0) by (nonlinear_arith)
            requires
                n == 0,
        ;
        lemma_zero();
    } else {
        assert(n * pow2(1074) > 0) by (nonlinear_arith)
            requires
                n > 0,
                pow2(1074) > 0,
        ;
    }
}

/// Whole numbers of up to 53 binary digits are added as such.
pub proof fn wholes_are_added(a: nat, b: nat)
    requires
        a + b <= MAX_EXACT,
    ensures
        Binary64::of_whole(a).plus(Binary64::of_whole(b)) == Binary64::of_whole(a + b),
{
    let (x, y) = (Binary64::of_whole(a), Binary64::of_whole(b));
    whole_is_exact(a);
    whole_is_exact(b);
    let sum = x.units() + y.units();
    assert(sum == (a + b) * pow2(1074)) by (nonlinear_arith)
        requires
            sum == a * pow2(1074) + b * pow2(1074),
    ;
    lemma_pow2_pos(1074);
    if a + b == 0 {
        lemma_zero();
    } else {
        assert((a + b) * pow2(1074) > 0) by (nonlinear_arith)
            requires
                a + b > 0,
                pow2(1074) > 0,
        ;
    }
}

/// Whole numbers of up to 53 binary digits are multiplied as such.
pub proof fn wholes_are_multiplied(a: nat, b: nat)
    requires
        a <= MAX_EXACT,
        b <= MAX_EXACT,
        a * b <= MAX_EXACT,
    ensures
        Binary64::of_whole(a).times(Binary64::of_whole(b)) == Binary64::of_whole(a * b),
{
    let (x, y) = (Binary64::of_whole(a), Binary64::of_whole(b));
    let p = pow2(1074);
    whole_is_exact(a);
    whole_is_exact(b);
    let rank = lemma_whole_rank(a * b);
    lemma_pow2_pos(1074);
    assert((a * p) * (b * p) == ((a * b) * p) * p) by (nonlinear_arith);
    nearest_is_exact(rank, p);
    nearest_is_exact(rank, 1);
    assert(magnitude(rank) * 1 == (a * b) * p);
}

/// Whole numbers of up to 53 binary digits are divided as such, where there is no remainder.
pub proof fn wholes_are_divided(a: nat, b: nat)
    requires
        a * b <= MAX_EXACT,
        a <= MAX_EXACT,
        0 < b <= MAX_EXACT,
    ensures
        Binary64::of_whole(a * b).over(Binary64::of_whole(b)) == Binary64::of_whole(a),
{
    let (x, y) = (Binary64::of_whole(a * b), Binary64::of_whole(b));
    let p = pow2(1074);
    whole_is_exact(a * b);
    whole_is_exact(b);
    let rank = lemma_whole_rank(a);
    lemma_pow2_pos(1074);
    assert(((a * b) * p) * p == (a * p) * (b * p)) by (nonlinear_arith);
    assert(b * p > 0) by (nonlinear_arith)
        requires
            b > 0,
            p > 0,
    ;
    nearest_is_exact(rank, b * p);
    nearest_is_exact(rank, 1);
    assert(magnitude(rank) * 1 == a * p);
    lemma_magnitude_zero(y.rank());
}

/// A quotient of whole numbers of up to 53 binary digits lies between the whole numbers that the
/// unrounded one lies between.
pub proof fn whole_quotient_is_between(a: nat, b: nat, q: nat)
    requires
        a <= MAX_EXACT,
        0 < b <= MAX_EXACT,
        q * b <= a <= (q + 1) * b,
        q + 1 <= MAX_EXACT,
    ensures
        ({
            let quotient = Binary64::of_whole(a).over(Binary64::of_whole(b));
            &&& quotient.is_finite()
            &&& !quotient.negative()
            &&& Binary64::of_whole(q).order() <= quotient.order() <= Binary64::of_whole(
                q + 1,
            ).order()
        }),
{
    let (x, y) = (Binary64::of_whole(a), Binary64::of_whole(b));
    let p = pow2(1074);
    whole_is_exact(a);
    whole_is_exact(b);
    whole_is_exact(q);
    whole_is_exact(q + 1);
    let low = Binary64::of_whole(q).rank();
    let high = Binary64::of_whole(q + 1).rank();
    lemma_pow2_pos(1074);
    let (num, den) = ((a * p) * p, b * p);
    assert(den > 0) by (nonlinear_arith)
        requires
            den == b * p,
            b > 0,
            p > 0,
    ;
    lemma_magnitude_zero(y.rank());
    assert((q * p) * den <= num) by (nonlinear_arith)
        requires
            num == (a * p) * p,
            den == b * p,
            q * b <= a,
    ;
    assert(num <= ((q + 1) * p) * den) by (nonlinear_arith)
        requires
            num == (a * p) * p,
            den == b * p,
            a <= (q + 1) * b,
    ;
    nearest_is_exact(low, den);
    nearest_is_exact(high, den);
    nearest_is_monotone((q * p) * den, num, den);
    nearest_is_monotone(num, ((q + 1) * p) * den, den);
    lemma_signed(false, nearest(num, den));
}

/// A quotient of numbers that are not below 0 is not below 0; a greater dividend gives no smaller
/// a quotient, and none greater than 1 where it is not greater than the divisor.
pub proof fn quotient_is_monotone(a: Binary64, b: Binary64, c: Binary64)
    requires
        a.is_finite(),
        b.is_finite(),
        c.is_finite(),
        !a.negative(),
        !b.negative(),
        !c.negative(),
        a.rank() <= b.rank() <= c.rank(),
        c.rank() > 0,
    ensures
        at_least_zero(a.over(c)),
        !a.over(c).negative(),
        a.over(c).is_finite(),
        a.over(c).order() <= b.over(c).order() <= Binary64::of_whole(1).order(),
{
    let (x, y, den) = (magnitude(a.rank()), magnitude(b.rank()), magnitude(c.rank()));
    let p = pow2(1074);
    if a.rank() < b.rank() {
        lemma_magnitude_monotone(a.rank(), b.rank());
    }
    if b.rank() < c.rank() {
        lemma_magnitude_monotone(b.rank(), c.rank());
    }
    lemma_magnitude_zero(c.rank());
    lemma_pow2_pos(1074);
    let one = lemma_whole_rank(1);
    assert(1 * p == p) by (nonlinear_arith);
    nearest_is_exact(one, den);
    nearest_is_exact(one, 1);
    assert(p * 1 == p) by (nonlinear_arith);
    assert(x * p <= y * p <= p * den) by (nonlinear_arith)
        requires
            x <= y <= den,
    ;
    nearest_is_monotone(x * p, y * p, den);
    nearest_is_monotone(y * p, p * den, den);
    nearest_exists(x * p, den);
    nearest_exists(y * p, den);
    lemma_signed(false, nearest(x * p, den));
    lemma_signed(false, nearest(y * p, den));
    lemma_signed(false, one);
}

/// Adding nothing changes nothing.
pub proof fn adding_zero(a: Binary64, zero: Binary64)
    requires
        a.is_finite(),
        !a.negative(),
        zero.is_zero(),
    ensures
        a.plus(zero) == a,
{
    assert(magnitude(0) == 0);
    lemma_units(a);
    lemma_magnitude_zero(a.rank());
}

/// Nothing times anything finite is nothing.
pub proof fn times_zero(a: Binary64)
    requires
        a.is_finite(),
        !a.negative(),
    ensures
        a.times(Binary64 { bits: 0 }) == (Binary64 { bits: 0 }),
{
    lemma_magnitude_zero(0);
    assert(magnitude(a.rank()) * 0 == 0);
    lemma_pow2_pos(1074);
    lemma_zero();
}

/// Nothing times anything finite is nothing, of either sign.
pub proof fn zero_times(a: Binary64)
    requires
        a.is_finite(),
    ensures
        Binary64::of_whole(0).times(a).is_zero(),
{
    whole_is_exact(0);
    lemma_magnitude_zero(Binary64::of_whole(0).rank());
    assert(0 * pow2(1074) == 0);
    assert(0 * magnitude(a.rank()) == 0);
    lemma_pow2_pos(1074);
    lemma_zero();
    lemma_signed(a.negative(), 0);
}

/// A product of whole numbers that is not below 2^53 is not rounded below it.
pub proof fn great_products_stay_great(a: nat, b: nat)
    requires
        0 < a <= MAX_EXACT,
        b <= u64::MAX,
        a * b >= MAX_EXACT,
    ensures
        at_least_zero(Binary64::of_whole(a).times(Binary64::of_whole(b))),
        Binary64::of_whole(a).times(Binary64::of_whole(b)).order() >= Binary64::of_whole(
            MAX_EXACT as nat,
        ).order(),
{
    let (x, y) = (Binary64::of_whole(a), Binary64::of_whole(b));
    let top = Binary64::of_whole(MAX_EXACT as nat);
    let p = pow2(1074);
    whole_is_exact(a);
    whole_is_finite(b);
    whole_is_exact(MAX_EXACT as nat);
    lemma_pow2_pos(1074);
    product_is_at_least_zero(x, y);
    let (num, least) = (magnitude(x.rank()) * magnitude(y.rank()), magnitude(top.rank()) * p);
    assert(num >= least) by {
        if b <= MAX_EXACT {
            whole_is_exact(b);
            assert((a * p) * (b * p) == ((a * b) * p) * p) by (nonlinear_arith);
            assert(((a * b) * p) * p >= (MAX_EXACT * p) * p) by (nonlinear_arith)
                requires
                    a * b >= MAX_EXACT,
            ;
        } else {
            wholes_are_ordered(MAX_EXACT as nat, b);
            if top.rank() < y.rank() {
                lemma_magnitude_monotone(top.rank(), y.rank());
            }
            let (m, t) = (magnitude(y.rank()), magnitude(top.rank()));
            assert((a * p) * m >= t * p) by (nonlinear_arith)
                requires
                    a >= 1,
                    m >= t,
            ;
        }
    }
    nearest_is_exact(top.rank(), p);
    nearest_is_monotone(least, num, p);
}

/// A sum of whole numbers that is not below 2^53 is not rounded below it.
pub proof fn great_sums_stay_great(a: nat, b: nat)
    requires
        a <= MAX_EXACT,
        b <= MAX_EXACT,
        a + b >= MAX_EXACT,
    ensures
        Binary64::of_whole(a).plus(Binary64::of_whole(b)).order() >= Binary64::of_whole(
            MAX_EXACT as nat,
        ).order(),
{
    let (x, y) = (Binary64::of_whole(a), Binary64::of_whole(b));
    let p = pow2(1074);
    whole_is_exact(a);
    whole_is_exact(b);
    whole_is_exact(MAX_EXACT as nat);
    assert(a * p + b * p == (a + b) * p) by (nonlinear_arith);
    assert((a + b) * p >= MAX_EXACT * p) by (nonlinear_arith)
        requires
            a + b >= MAX_EXACT,
    ;
    lemma_pow2_pos(1074);
    assert(a * p >= 0 && b * p >= 0) by (nonlinear_arith);
    lemma_plus(x, y);
    lemma_units(Binary64::of_whole(MAX_EXACT as nat));
    nearest_is_monotone((MAX_EXACT * p) as nat, ((a + b) * p) as nat, 1);
}

/// The whole part keeps the order.
pub proof fn whole_part_is_monotone(a: Binary64, b: Binary64)
    requires
        !a.is_nan(),
        !b.is_nan(),
        a.order() <= b.order(),
    ensures
        a.whole_part() <= b.whole_part(),
{
    if !a.negative() && !b.negative() {
        if a.rank() < b.rank() {
            lemma_magnitude_monotone(a.rank(), b.rank());
        }
        lemma_pow2_pos(1074);
        vstd::arithmetic::div_mod::lemma_div_is_ordered(
            magnitude(a.rank()) as int,
            magnitude(b.rank()) as int,
            pow2(1074) as int,
        );
    } else if b.negative() && !a.negative() {
        // Both are zero.
        assert(magnitude(0) == 0);
        lemma_pow2_pos(1074);
        assert(0nat / pow2(1074) == 0) by {
            vstd::arithmetic::div_mod::lemma_div_basics(pow2(1074) as int);
        }
    }
}

/// The smaller of two numbers is one of them, and no greater than either.
pub proof fn lesser_is_the_smaller(a: Binary64, b: Binary64)
    requires
        !a.is_nan(),
        !b.is_nan(),
    ensures
        a.lesser(b) == a || a.lesser(b) == b,
        a.lesser(b).order() <= a.order(),
        a.lesser(b).order() <= b.order(),
{
}

/// The whole part of a number that is not below 0 is the greatest whole number that is no greater,
/// as far as there is one of 64 bits.
pub proof fn whole_part_is_the_floor(x: Binary64)
    requires
        x.is_finite(),
    ensures
        x.units() < 0 ==> x.whole_part() == 0,
        0 <= x.units() < 0x1_0000_0000_0000_0000 * pow2(1074) ==> x.whole_part() * pow2(1074)
            <= x.units() < (x.whole_part() + 1) * pow2(1074),
        x.units() >= 0x1_0000_0000_0000_0000 * pow2(1074) ==> x.whole_part() == u64::MAX,
{
    let p = pow2(1074);
    let m = magnitude(x.rank());
    lemma_pow2_pos(1074);
    lemma_magnitude_zero(x.rank());
    vstd::arithmetic::div_mod::lemma_fundamental_div_mod(m as int, p as int);
    let q = m / p;
    assert(q > u64::MAX <==> m >= 0x1_0000_0000_0000_0000 * p) by (nonlinear_arith)
        requires
            m == p * q + m % p,
            0 <= m % p < p,
    ;
    assert(q * p <= m < (q + 1) * p) by (nonlinear_arith)
        requires
            m == p * q + m % p,
            0 <= m % p < p,
    ;
    assert(0 * p == 0 && 1 * p == p);
}

/// Whether a number is the one nearest to `num / den` units: no other is nearer.
pub proof fn nearest_is_nearest(num: nat, den: nat, other: nat)
    requires
        den > 0,
        nearest(num, den) < INFINITE,
        other < INFINITE,
    ensures
        ({
            let (m, o) = (magnitude(nearest(num, den)) * den, magnitude(other) * den);
            let miss = if m >= num {
                m - num
            } else {
                num - m
            };
            let other_miss = if o >= num {
                o - num
            } else {
                num - o
            };
            miss <= other_miss
        }),
{
    let rank = nearest(num, den);
    nearest_exists(num, den);
    let (m, o) = (magnitude(rank) * den, magnitude(other) * den);
    if other < rank {
        let below = (rank - 1) as nat;
        lemma_magnitude_monotone(other, rank);
        assert(o <= m) by (nonlinear_arith)
            requires
                o == magnitude(other) * den,
                m == magnitude(rank) * den,
                magnitude(other) <= magnitude(rank),
        ;
        if other < below {
            lemma_magnitude_monotone(other, below);
        }
        let w = magnitude(below);
        assert(o <= w * den) by (nonlinear_arith)
            requires
                o == magnitude(other) * den,
                magnitude(other) <= w,
        ;
        assert((w + magnitude(rank)) * den == w * den + m) by (nonlinear_arith)
            requires
                m == magnitude(rank) * den,
        ;
    } else if other > rank {
        let above = rank + 1;
        lemma_magnitude_monotone(rank, other);
        assert(m <= o) by (nonlinear_arith)
            requires
                o == magnitude(other) * den,
                m == magnitude(rank) * den,
                magnitude(rank) <= magnitude(other),
        ;
        if above < other {
            lemma_magnitude_monotone(above, other);
        }
        let w = magnitude(above);
        assert(w * den <= o) by (nonlinear_arith)
            requires
                o == magnitude(other) * den,
                magnitude(other) >= w,
        ;
        assert((magnitude(rank) + w) * den == m + w * den) by (nonlinear_arith)
            requires
                m == magnitude(rank) * den,
        ;
    }
}

/// A sum is rounded once: it has the sign of the exact sum, and the magnitude nearest to it.
pub proof fn sums_are_rounded_once(a: Binary64, b: Binary64)
    requires
        a.is_finite(),
        b.is_finite(),
    ensures
        ({
            let exact = a.units() + b.units();
            &&& exact > 0 ==> a.plus(b) == signed(false, nearest(exact as nat, 1))
            &&& exact < 0 ==> a.plus(b) == signed(true, nearest((-exact) as nat, 1))
            &&& exact == 0 ==> a.plus(b).is_zero()
            &&& a.minus(b).units() == a.plus(b.opposite()).units()
            &&& b.opposite().units() == -b.units()
        }),
{
    lemma_signed(!b.negative(), b.rank());
}

} // verus!
