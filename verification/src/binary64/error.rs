//! How far rounded arithmetic is off.

use crate::binary64::laws::MAX_EXACT;
#[allow(unused_imports)]
use crate::binary64::laws::{nearest_exists, nearest_is_exact, nearest_is_monotone};
#[allow(unused_imports)]
use crate::binary64::rounding::{gap, lemma_magnitude_step, lemma_pow2_bounds};
use crate::binary64::rounding::{magnitude, nearest, FRACTIONS, INFINITE};
use vstd::prelude::*;
#[allow(unused_imports)]
use vstd::arithmetic::power2::{lemma_pow2_pos, pow2};

verus! {

/// Whether `a` is not below `b` by more than `parts` of its 2^53 parts.
pub open spec fn near(a: nat, b: nat, parts: nat) -> bool {
    a * MAX_EXACT >= b * (MAX_EXACT - parts)
}

/// Parts add up.
pub proof fn near_is_transitive(a: nat, b: nat, c: nat, s: nat, t: nat)
    requires
        near(a, b, s),
        near(b, c, t),
        s + t <= MAX_EXACT,
    ensures
        near(a, c, s + t),
{
    let k = MAX_EXACT as int;
    assert(a * k * k >= b * (k - s) * k) by (nonlinear_arith)
        requires
            a * k >= b * (k - s),
            k > 0,
    ;
    assert(b * (k - s) * k >= c * (k - t) * (k - s)) by (nonlinear_arith)
        requires
            b * k >= c * (k - t),
            k - s >= 0,
    ;
    assert(c * (k - t) * (k - s) >= c * (k - (s + t)) * k) by (nonlinear_arith)
        requires
            c >= 0,
            s >= 0,
            t >= 0,
    ;
    assert(a * k >= c * (k - (s + t))) by (nonlinear_arith)
        requires
            a * k * k >= c * (k - (s + t)) * k,
            k > 0,
    ;
}

/// A common factor does not matter.
pub proof fn near_is_scaled(a: nat, b: nat, s: nat, f: nat)
    requires
        near(a, b, s),
    ensures
        near(a * f, b * f, s),
{
    let k = MAX_EXACT as int;
    assert((a * f) * k >= (b * f) * (k - s)) by (nonlinear_arith)
        requires
            a * k >= b * (k - s),
            f >= 0,
    ;
}

/// A common factor can be left out.
pub proof fn near_is_unscaled(a: nat, b: nat, s: nat, f: nat)
    requires
        near(a * f, b * f, s),
        f > 0,
    ensures
        near(a, b, s),
{
    let k = MAX_EXACT as int;
    assert(a * k >= b * (k - s)) by (nonlinear_arith)
        requires
            (a * f) * k >= (b * f) * (k - s),
            f > 0,
    ;
}

proof fn lemma_gap(rank: nat)
    requires
        rank >= FRACTIONS,
    ensures
        gap(rank) * FRACTIONS <= magnitude(rank),
{
    let f = FRACTIONS as nat;
    let e = rank / f;
    let r = rank % f;
    assert(e >= 1);
    lemma_pow2_pos((e - 1) as nat);
    let p = pow2((e - 1) as nat);
    assert(p * f <= (f + r) * p) by (nonlinear_arith)
        requires
            r >= 0,
            p >= 0,
    ;
}

/// A number is rounded down by no more than a part of 2^53, unless it is too small.
pub proof fn rounding_down_is_near(num: nat, den: nat)
    requires
        den > 0,
        FRACTIONS * den <= num,
        nearest(num, den) < INFINITE,
    ensures
        nearest(num, den) >= FRACTIONS,
        near(magnitude(nearest(num, den)) * den, num, 1),
{
    let rank = nearest(num, den);
    let f = FRACTIONS as nat;
    nearest_exists(num, den);
    lemma_pow2_bounds();
    assert(magnitude(f) == f) by {
        assert(f / f == 1 && f % f == 0);
        assert((f + 0) * pow2(0) == f) by (nonlinear_arith)
            requires
                pow2(0) == 1,
        ;
    }
    nearest_is_exact(f, den);
    nearest_is_monotone(f * den, num, den);
    lemma_magnitude_step(rank);
    lemma_gap(rank);
    let (m, g) = (magnitude(rank), gap(rank));
    assert((m + (m + g)) * den >= 2 * num);
    let k = MAX_EXACT as int;
    assert((m * den) * k >= num * (k - 1)) by (nonlinear_arith)
        requires
            (m + (m + g)) * den >= 2 * num,
            g * f <= m,
            k == 2 * f,
            den > 0,
            f > 0,
            m >= 0,
    ;
}

/// A number is rounded up by no more than a part of 2^53, or half a unit.
pub proof fn rounding_up_is_near(num: nat, den: nat)
    requires
        den > 0,
    ensures
        near(num, magnitude(nearest(num, den)) * den, 1) || 2 * (magnitude(nearest(num, den)) * den)
            <= 2 * num + den,
        (FRACTIONS + 1) * den <= num ==> near(num, magnitude(nearest(num, den)) * den, 1),
{
    let rank = nearest(num, den);
    let f = FRACTIONS as nat;
    let k = MAX_EXACT as int;
    nearest_exists(num, den);
    if rank > 0 {
        let below = (rank - 1) as nat;
        lemma_magnitude_step(below);
        let (m, g) = (magnitude(below), gap(below));
        let top = magnitude(rank);
        assert((m + top) * den <= 2 * num);
        if below >= f {
            lemma_gap(below);
            assert(num * k >= (top * den) * (k - 1)) by (nonlinear_arith)
                requires
                    (m + top) * den <= 2 * num,
                    top == m + g,
                    g * f <= m,
                    k == 2 * f,
                    den > 0,
                    f > 0,
                    g >= 0,
            ;
        } else {
            assert(g == 1) by {
                assert(below / f == 0);
            }
            assert(2 * (top * den) <= 2 * num + den) by (nonlinear_arith)
                requires
                    (m + top) * den <= 2 * num,
                    top == m + 1,
            ;
            if (FRACTIONS + 1) * den <= num {
                lemma_pow2_bounds();
                assert(magnitude(f + 1) == f + 1) by {
                    assert((f + 1) / f == 1 && (f + 1) % f == 1);
                    assert((f + 1) * pow2(0) == f + 1) by (nonlinear_arith)
                        requires
                            pow2(0) == 1,
                    ;
                }
                nearest_is_exact(f + 1, den);
                nearest_is_monotone((f + 1) * den, num, den);
            }
        }
    } else {
        assert(magnitude(0) == 0);
        assert(0 * den == 0);
    }
}

/// A number is rounded down by no more than a part of 2^53, or half a unit, unless it is beyond
/// all finite values.
pub proof fn rounding_down_is_near_or_half(num: nat, den: nat)
    requires
        den > 0,
        nearest(num, den) < INFINITE,
    ensures
        near(magnitude(nearest(num, den)) * den, num, 1) || 2 * num <= 2 * (magnitude(
            nearest(num, den),
        ) * den) + den,
{
    if FRACTIONS * den <= num {
        rounding_down_is_near(num, den);
    } else {
        let rank = nearest(num, den);
        let f = FRACTIONS as nat;
        nearest_exists(num, den);
        lemma_pow2_bounds();
        assert(magnitude(f) == f) by {
            assert(f / f == 1 && f % f == 0);
            assert((f + 0) * pow2(0) == f) by (nonlinear_arith)
                requires
                    pow2(0) == 1,
            ;
        }
        nearest_is_exact(f, den);
        nearest_is_monotone(num, f * den, den);
        lemma_magnitude_step(rank);
        let m = magnitude(rank);
        assert(gap(rank) == 1) by {
            if rank < f {
                assert(rank / f == 0);
            } else {
                assert(rank / f == 1);
            }
        }
        assert((m + (m + 1)) * den >= 2 * num);
        assert(2 * num <= 2 * (m * den) + den) by (nonlinear_arith)
            requires
                (m + (m + 1)) * den >= 2 * num,
        ;
    }
}

} // verus!
