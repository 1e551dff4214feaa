//! Binary floating-point numbers of 64 bits (IEEE 754 binary64), held by their bits, with the
//! arithmetic that the limiter needs.
//!
//! Every finite number is a whole multiple of 2^-1074, the smallest positive one. The contracts
//! speak of numbers in that unit, so that they are statements about integers.

pub mod error;
pub mod laws;
pub mod rounding;

use rounding::{magnitude, nearest, FRACTIONS, INFINITE};
#[allow(unused_imports)]
use rounding::{
    lemma_absorb, lemma_divide, lemma_magnitude_monotone, lemma_magnitude_zero,
    lemma_nearest_unique, lemma_pow2_bounds, lemma_pow2_ordered, lemma_quotient_scaled, lemma_shift,
    lemma_zero, power_above, power_below,
};
use rounding::{normalize, parts, power_of_two, round};
use vstd::prelude::*;
#[allow(unused_imports)]
use vstd::arithmetic::power2::{
    lemma2_to64, lemma_pow2_adds, lemma_pow2_pos, lemma_pow2_strictly_increases, pow2,
};

verus! {

/// 2^63: the bit that holds the sign.
pub const SIGN: u64 = 0x8000_0000_0000_0000;

/// The bits of the quiet value that is not a number.
pub const QUIET: u64 = 0x7ff8_0000_0000_0000;

/// A binary64 value.
#[derive(Clone, Copy, Debug, PartialEq, Eq, Structural)]
pub struct Binary64 {
    pub bits: u64,
}

/// The value with the given sign and rank.
pub open spec fn signed(negative: bool, rank: nat) -> Binary64 {
    Binary64 { bits: (if negative { SIGN + rank } else { rank as int }) as u64 }
}

impl Binary64 {
    pub open spec fn negative(self) -> bool {
        self.bits >= SIGN
    }

    /// The bits without the sign. Magnitudes are ordered as their ranks.
    pub open spec fn rank(self) -> nat {
        if self.bits >= SIGN {
            (self.bits - SIGN) as nat
        } else {
            self.bits as nat
        }
    }

    pub open spec fn is_nan(self) -> bool {
        self.rank() > INFINITE
    }

    pub open spec fn is_infinite(self) -> bool {
        self.rank() == INFINITE
    }

    pub open spec fn is_finite(self) -> bool {
        self.rank() < INFINITE
    }

    pub open spec fn is_zero(self) -> bool {
        self.rank() == 0
    }

    /// The value of a finite number, in units of 2^-1074.
    pub open spec fn units(self) -> int {
        if self.negative() {
            -(magnitude(self.rank()) as int)
        } else {
            magnitude(self.rank()) as int
        }
    }

    pub open spec fn nan() -> Binary64 {
        Binary64 { bits: QUIET }
    }

    /// The place of a value that is a number among the others; both zeros have the same.
    pub open spec fn order(self) -> int {
        if self.negative() {
            -(self.rank() as int)
        } else {
            self.rank() as int
        }
    }

    /// `self >= other`, which is false where one of them is not a number.
    pub open spec fn at_least(self, other: Binary64) -> bool {
        !self.is_nan() && !other.is_nan() && self.order() >= other.order()
    }

    /// `self > 0`.
    pub open spec fn positive(self) -> bool {
        !self.is_nan() && self.order() > 0
    }

    /// The smaller of two values; a value that is not a number gives way to the other.
    pub open spec fn lesser(self, other: Binary64) -> Binary64 {
        if self.is_nan() || !other.is_nan() && other.order() < self.order() {
            other
        } else {
            self
        }
    }

    /// The whole part of a value that is not negative, and 0 for any other; at most the largest
    /// `u64`.
    pub open spec fn whole_part(self) -> u64 {
        if self.is_nan() || self.negative() {
            0
        } else {
            let whole = magnitude(self.rank()) / pow2(1074);
            if whole > u64::MAX {
                u64::MAX
            } else {
                whole as u64
            }
        }
    }

    /// The value nearest to a whole number.
    pub open spec fn of_whole(n: nat) -> Binary64 {
        signed(false, nearest(n * pow2(1074), 1))
    }

    /// The sum, rounded.
    pub open spec fn plus(self, other: Binary64) -> Binary64 {
        if self.is_nan() || other.is_nan() {
            Self::nan()
        } else if self.is_infinite() {
            if other.is_infinite() && self.negative() != other.negative() {
                Self::nan()
            } else {
                self
            }
        } else if other.is_infinite() {
            other
        } else {
            let sum = self.units() + other.units();
            if sum == 0 {
                signed(self.negative() && other.negative(), 0)
            } else if sum < 0 {
                signed(true, nearest((-sum) as nat, 1))
            } else {
                signed(false, nearest(sum as nat, 1))
            }
        }
    }

    pub open spec fn opposite(self) -> Binary64 {
        signed(!self.negative(), self.rank())
    }

    /// The difference, rounded.
    pub open spec fn minus(self, other: Binary64) -> Binary64 {
        self.plus(other.opposite())
    }

    /// The product, rounded.
    pub open spec fn times(self, other: Binary64) -> Binary64 {
        let negative = self.negative() != other.negative();
        if self.is_nan() || other.is_nan() || self.is_infinite() && other.is_zero()
            || self.is_zero() && other.is_infinite() {
            Self::nan()
        } else if self.is_infinite() || other.is_infinite() {
            signed(negative, INFINITE as nat)
        } else {
            signed(
                negative,
                nearest(magnitude(self.rank()) * magnitude(other.rank()), pow2(1074)),
            )
        }
    }

    /// The quotient, rounded.
    pub open spec fn over(self, other: Binary64) -> Binary64 {
        let negative = self.negative() != other.negative();
        if self.is_nan() || other.is_nan() || self.is_infinite() && other.is_infinite()
            || self.is_zero() && other.is_zero() {
            Self::nan()
        } else if self.is_infinite() || other.is_zero() {
            signed(negative, INFINITE as nat)
        } else if other.is_infinite() {
            signed(negative, 0)
        } else {
            signed(
                negative,
                nearest(magnitude(self.rank()) * pow2(1074), magnitude(other.rank())),
            )
        }
    }

    pub(crate) fn split(self) -> (r: (bool, u64))
        ensures
            r.0 == self.negative(),
            r.1 == self.rank(),
    {
        if self.bits >= SIGN {
            (true, self.bits - SIGN)
        } else {
            (false, self.bits)
        }
    }

    fn join(negative: bool, rank: u64) -> (r: Self)
        requires
            rank <= INFINITE,
        ensures
            r == signed(negative, rank as nat),
    {
        Binary64 { bits: if negative { SIGN + rank } else { rank } }
    }

    /// Adds two finite numbers, the first of which has no smaller an exponent.
    fn sum_ordered(x: (bool, u64), y: (bool, u64), mx: u64, ex: u32, my: u64, ey: u32) -> (r: Self)
        requires
            x.1 < INFINITE,
            y.1 < INFINITE,
            ey <= ex <= 2045,
            mx < 2 * FRACTIONS,
            my < 2 * FRACTIONS,
            ex == 0 || FRACTIONS <= mx,
            x.1 == ex * FRACTIONS + mx,
            magnitude(x.1 as nat) == mx * pow2(ex as nat),
            magnitude(y.1 as nat) == my * pow2(ey as nat),
        ensures
            r == signed(x.0, x.1 as nat).plus(signed(y.0, y.1 as nat)),
    {
        let ghost a = signed(x.0, x.1 as nat);
        let ghost b = signed(y.0, y.1 as nat);
        let ghost sum = a.units() + b.units();
        let ghost size = (if sum < 0 { -sum } else { sum }) as nat;
        let distance: u32 = ex - ey;
        proof {
            lemma_pow2_bounds();
        }
        if distance > 64 {
            proof {
                let other = magnitude(y.1 as nat);
                lemma_pow2_adds(53, ey as nat);
                lemma_pow2_strictly_increases((53 + ey) as nat, (ex - 11) as nat);
                lemma_pow2_ordered((53 + ey) as nat, (ex - 12) as nat);
                lemma_pow2_pos(ey as nat);
                assert(other < pow2((53 + ey) as nat)) by (nonlinear_arith)
                    requires
                        other == my * pow2(ey as nat),
                        my < 2 * FRACTIONS,
                        pow2(ey as nat) > 0,
                        pow2((53 + ey) as nat) == (2 * FRACTIONS) * pow2(ey as nat),
                ;
                lemma_pow2_ordered((ex - 12) as nat, ex as nat);
                assert(magnitude(x.1 as nat) >= pow2(ex as nat)) by (nonlinear_arith)
                    requires
                        magnitude(x.1 as nat) == mx * pow2(ex as nat),
                        mx >= 1,
                ;
                lemma_absorb(x.1 as nat, mx as nat, ex as nat, other, size);
                lemma_nearest_unique(size, 1, x.1 as nat);
            }
            return Self::join(x.0, x.1);
        }
        let factor: u128 = power_of_two(distance);
        proof {
            lemma_pow2_ordered(distance as nat, 64);
            lemma2_to64();
            assert(mx * factor <= (2 * FRACTIONS) * 0x1_0000_0000_0000_0000) by (nonlinear_arith)
                requires
                    mx <= 2 * FRACTIONS,
                    factor <= 0x1_0000_0000_0000_0000,
            ;
        }
        let large: u128 = mx as u128 * factor;
        let small: u128 = my as u128;
        let ghost p = pow2(ey as nat);
        proof {
            lemma_pow2_adds(distance as nat, ey as nat);
            assert(magnitude(x.1 as nat) == large * p) by (nonlinear_arith)
                requires
                    magnitude(x.1 as nat) == mx * (factor * p),
                    large == mx * factor,
            ;
            assert((large + small) * p == large * p + small * p) by (nonlinear_arith);
            assert((large - small) * p == large * p - small * p) by (nonlinear_arith);
            assert((small - large) * p == small * p - large * p) by (nonlinear_arith);
            lemma_pow2_pos(ey as nat);
        }
        let total: u128 = if x.0 == y.0 {
            large + small
        } else if large >= small {
            large - small
        } else {
            small - large
        };
        let negative: bool = if x.0 == y.0 || large > small {
            x.0
        } else if large < small {
            y.0
        } else {
            false
        };
        proof {
            assert(size == total * p) by {
                if large < small {
                    assert(large * p < small * p) by (nonlinear_arith)
                        requires
                            large < small,
                            p > 0,
                    ;
                }
                if large > small {
                    assert(large * p > small * p) by (nonlinear_arith)
                        requires
                            large > small,
                            p > 0,
                    ;
                }
            }
            assert(total > 0 ==> total * p > 0) by (nonlinear_arith)
                requires
                    p > 0,
            ;
            assert(0 * p == 0);
        }
        let rank: u64 = round(total, ey as i32, false, Ghost(size), Ghost(1));
        proof {
            lemma_nearest_unique(size, 1, rank as nat);
            if total == 0 {
                lemma_zero();
            }
        }
        Self::join(negative, rank)
    }

    pub fn add(self, other: Self) -> (r: Self)
        ensures
            r == self.plus(other),
    {
        let x: (bool, u64) = self.split();
        let y: (bool, u64) = other.split();
        if x.1 > INFINITE || y.1 > INFINITE {
            return Binary64 { bits: QUIET };
        }
        if x.1 == INFINITE {
            if y.1 == INFINITE && x.0 != y.0 {
                return Binary64 { bits: QUIET };
            }
            return self;
        }
        if y.1 == INFINITE {
            return other;
        }
        let (mx, ex) = parts(x.1);
        let (my, ey) = parts(y.1);
        if ex >= ey {
            Self::sum_ordered(x, y, mx, ex, my, ey)
        } else {
            Self::sum_ordered(y, x, my, ey, mx, ex)
        }
    }

    pub fn neg(self) -> (r: Self)
        ensures
            r == self.opposite(),
    {
        let (negative, rank) = self.split();
        Binary64 { bits: if negative { rank } else { SIGN + rank } }
    }

    pub fn sub(self, other: Self) -> (r: Self)
        ensures
            r == self.minus(other),
    {
        self.add(other.neg())
    }

    pub fn mul(self, other: Self) -> (r: Self)
        ensures
            r == self.times(other),
    {
        let (xn, x) = self.split();
        let (yn, y) = other.split();
        let negative: bool = xn != yn;
        if x > INFINITE || y > INFINITE || x == INFINITE && y == 0 || x == 0 && y == INFINITE {
            return Binary64 { bits: QUIET };
        }
        if x == INFINITE || y == INFINITE {
            return Self::join(negative, INFINITE);
        }
        let (mx, ex) = parts(x);
        let (my, ey) = parts(y);
        let ghost num = magnitude(x as nat) * magnitude(y as nat);
        let ghost den = pow2(1074);
        proof {
            lemma_pow2_bounds();
            lemma_pow2_pos(1074);
            assert(mx * my < (2 * FRACTIONS) * (2 * FRACTIONS)) by (nonlinear_arith)
                requires
                    mx < 2 * FRACTIONS,
                    my < 2 * FRACTIONS,
            ;
        }
        let m: u128 = mx as u128 * my as u128;
        let e: i32 = ex as i32 + ey as i32 - 1074;
        proof {
            lemma_shift(e as int, 1074);
            lemma_pow2_adds(ex as nat, ey as nat);
            let p = pow2((ex + ey) as nat);
            let above = power_above(e as int);
            let below = power_below(e as int);
            assert(num == m * p) by (nonlinear_arith)
                requires
                    num == (mx * pow2(ex as nat)) * (my * pow2(ey as nat)),
                    m == mx * my,
                    p == pow2(ex as nat) * pow2(ey as nat),
            ;
            assert(num * below == m * (above * den)) by (nonlinear_arith)
                requires
                    num == m * p,
                    p * below == den * above,
            ;
        }
        let rank: u64 = round(m, e, false, Ghost(num), Ghost(den));
        proof {
            lemma_nearest_unique(num, den, rank as nat);
        }
        Self::join(negative, rank)
    }

    pub fn div(self, other: Self) -> (r: Self)
        ensures
            r == self.over(other),
    {
        let (xn, x) = self.split();
        let (yn, y) = other.split();
        let negative: bool = xn != yn;
        if x > INFINITE || y > INFINITE || x == INFINITE && y == INFINITE || x == 0 && y == 0 {
            return Binary64 { bits: QUIET };
        }
        if x == INFINITE || y == 0 {
            return Self::join(negative, INFINITE);
        }
        if y == INFINITE {
            return Self::join(negative, 0);
        }
        let (mx, ex) = parts(x);
        let (my, ey) = parts(y);
        let ghost num = magnitude(x as nat) * pow2(1074);
        let ghost den = magnitude(y as nat);
        proof {
            lemma_pow2_bounds();
            lemma_magnitude_monotone(0, y as nat);
            if x > 0 {
                lemma_magnitude_monotone(0, x as nat);
            }
        }
        if x == 0 {
            proof {
                assert(magnitude(0) == 0);
                assert(0 * pow2(1074) == 0);
                lemma_zero();
            }
            return Self::join(negative, 0);
        }
        proof {
            assert(my > 0) by (nonlinear_arith)
                requires
                    my * pow2(ey as nat) > 0,
                    my >= 0,
            ;
            assert(mx > 0) by (nonlinear_arith)
                requires
                    mx * pow2(ex as nat) > 0,
                    mx >= 0,
            ;
        }
        let (nx, tx) = normalize(mx);
        let (ny, ty) = normalize(my);
        let dividend: u128 = nx as u128 * 0x1_0000_0000_0000_0000;
        let quotient: u128 = dividend / ny as u128;
        let remainder: u128 = dividend % ny as u128;
        let e: i32 = ex as i32 + 1074 + ty as i32 - tx as i32 - 64 - ey as i32;
        proof {
            lemma_quotient_scaled(
                mx as nat,
                ex as nat,
                tx as nat,
                my as nat,
                ey as nat,
                ty as nat,
                nx as nat,
                ny as nat,
                quotient as nat,
                remainder as nat,
            );
            lemma2_to64();
            vstd::arithmetic::div_mod::lemma_fundamental_div_mod(dividend as int, ny as int);
            assert(quotient >= 4 * FRACTIONS) by (nonlinear_arith)
                requires
                    dividend == ny * quotient + remainder,
                    remainder < ny,
                    ny < 2 * FRACTIONS,
                    dividend >= FRACTIONS * 0x1_0000_0000_0000_0000,
            ;
            lemma_pow2_bounds();
        }
        let rank: u64 = round(quotient, e, remainder != 0, Ghost(num), Ghost(den));
        proof {
            lemma_nearest_unique(num, den, rank as nat);
        }
        Self::join(negative, rank)
    }
}

impl Binary64 {
    pub fn ge(self, other: Self) -> (r: bool)
        ensures
            r == self.at_least(other),
    {
        let (xn, x) = self.split();
        let (yn, y) = other.split();
        if x > INFINITE || y > INFINITE {
            false
        } else if xn {
            yn && x <= y || x == 0 && y == 0
        } else {
            yn || x >= y
        }
    }

    pub fn is_positive(self) -> (r: bool)
        ensures
            r == self.positive(),
    {
        let (negative, rank) = self.split();
        !negative && 0 < rank && rank <= INFINITE
    }

    pub fn min(self, other: Self) -> (r: Self)
        ensures
            r == self.lesser(other),
    {
        let x: (bool, u64) = self.split();
        let y: (bool, u64) = other.split();
        if x.1 > INFINITE || y.1 <= INFINITE && !other.ge(self) {
            other
        } else {
            self
        }
    }

    pub fn from_whole(n: u128) -> (r: Self)
        requires
            n <= 0x7fff_ffff_ffff_ffff_ffff_ffff_ffff_ffff,
        ensures
            r == Self::of_whole(n as nat),
    {
        let ghost num = n as nat * pow2(1074);
        proof {
            lemma_pow2_bounds();
            assert(num * 1 == n * (pow2(1074) * 1)) by (nonlinear_arith)
                requires
                    num == n * pow2(1074),
            ;
        }
        let rank: u64 = round(n, 1074, false, Ghost(num), Ghost(1));
        proof {
            lemma_nearest_unique(num, 1, rank as nat);
        }
        Self::join(false, rank)
    }

    pub fn whole(self) -> (r: u64)
        ensures
            r == self.whole_part(),
    {
        let (negative, rank) = self.split();
        if negative || rank > INFINITE {
            return 0;
        }
        proof {
            lemma_pow2_bounds();
            lemma2_to64();
            lemma_pow2_pos(1074);
        }
        if rank == INFINITE {
            proof {
                assert(magnitude(rank as nat) == FRACTIONS * pow2(2046));
                lemma_pow2_adds(972, 1074);
                lemma_pow2_ordered(64, 972);
                lemma_divide(FRACTIONS as nat * pow2(972), pow2(1074));
                assert(FRACTIONS * pow2(2046) == FRACTIONS * pow2(972) * pow2(1074))
                    by (nonlinear_arith)
                    requires
                        pow2(2046) == pow2(972) * pow2(1074),
                ;
                assert(FRACTIONS * pow2(972) > u64::MAX) by (nonlinear_arith)
                    requires
                        pow2(972) > u64::MAX,
                ;
            }
            return u64::MAX;
        }
        let (m, e) = parts(rank);
        if e >= 1074 {
            let lift: u32 = e - 1074;
            proof {
                lemma_pow2_adds(lift as nat, 1074);
                assert(m * pow2(e as nat) == m * pow2(lift as nat) * pow2(1074))
                    by (nonlinear_arith)
                    requires
                        pow2(e as nat) == pow2(lift as nat) * pow2(1074),
                ;
                lemma_divide(m as nat * pow2(lift as nat), pow2(1074));
            }
            if lift >= 12 {
                proof {
                    lemma_pow2_ordered(12, lift as nat);
                    assert(m * pow2(lift as nat) > u64::MAX) by (nonlinear_arith)
                        requires
                            m >= FRACTIONS,
                            pow2(lift as nat) >= 0x1000,
                    ;
                }
                return u64::MAX;
            }
            let factor: u128 = power_of_two(lift);
            proof {
                lemma_pow2_ordered(lift as nat, 12);
                assert(m * factor <= (2 * FRACTIONS) * 0x1000) by (nonlinear_arith)
                    requires
                        m <= 2 * FRACTIONS,
                        factor <= 0x1000,
                ;
            }
            let n: u128 = m as u128 * factor;
            if n > u64::MAX as u128 {
                u64::MAX
            } else {
                n as u64
            }
        } else {
            let drop: u32 = 1074 - e;
            proof {
                lemma_pow2_adds(drop as nat, e as nat);
                lemma_pow2_pos(e as nat);
                lemma_pow2_pos(drop as nat);
                assert((m as nat * pow2(e as nat)) / (pow2(drop as nat) * pow2(e as nat))
                    == m as nat / pow2(drop as nat)) by {
                    vstd::arithmetic::div_mod::lemma_div_denominator(
                        (m * pow2(e as nat)) as int,
                        pow2(e as nat) as int,
                        pow2(drop as nat) as int,
                    );
                    lemma_divide(m as nat, pow2(e as nat));
                    assert(pow2(drop as nat) * pow2(e as nat) == pow2(e as nat) * pow2(drop as nat))
                        by (nonlinear_arith);
                }
            }
            if drop >= 64 {
                proof {
                    lemma_pow2_ordered(64, drop as nat);
                    vstd::arithmetic::div_mod::lemma_basic_div(m as int, pow2(drop as nat) as int);
                }
                return 0;
            }
            let divisor: u128 = power_of_two(drop);
            let n: u128 = m as u128 / divisor;
            proof {
                lemma_pow2_pos(drop as nat);
                vstd::arithmetic::div_mod::lemma_div_nonincreasing(m as int, divisor as int);
            }
            n as u64
        }
    }
}

/// On finite numbers the order is that of the values.
pub proof fn order_is_that_of_the_values(a: Binary64, b: Binary64)
    requires
        a.is_finite(),
        b.is_finite(),
    ensures
        a.order() < b.order() <==> a.units() < b.units(),
{
    lemma_magnitude_zero(a.rank());
    lemma_magnitude_zero(b.rank());
    if a.rank() < b.rank() {
        lemma_magnitude_monotone(a.rank(), b.rank());
    }
    if b.rank() < a.rank() {
        lemma_magnitude_monotone(b.rank(), a.rank());
    }
}

} // verus!
