//! Binary64 numbers held by their bit patterns, with correctly rounded arithmetic.
//!
//! Prices, quantities and rates are binary64 values. The module gives them an exact meaning, a
//! whole number of units of 2^-1074, and states every operation as the exact result rounded to
//! the nearest value, ties to even.

pub mod arithmetic;
mod big;
pub mod decimal;
pub mod laws;
pub mod order;
pub mod powers;
pub mod root;
pub mod round;

use root::floor_root;
use round::{lemma_units_increase, nearest, units, INF_MAGNITUDE};
use vstd::arithmetic::power2::pow2;
use vstd::prelude::*;

verus! {

/// The weight of the sign bit.
pub const SIGN_BIT: u64 = 0x8000_0000_0000_0000;

/// The bits of the NaN that operations return.
pub const NAN_BITS: u64 = 0x7FF8_0000_0000_0000;

/// `n`, or `limit` where `n` is greater.
pub open spec fn capped(n: nat, limit: nat) -> nat {
    if n > limit {
        limit
    } else {
        n
    }
}

/// A binary64 number, held by its bit pattern. `==` compares bit patterns; numeric equality is
/// `same`.
#[derive(Clone, Copy, Debug, PartialEq, Eq, Structural)]
pub struct Num {
    pub bits: u64,
}

impl Num {
    /// Whether the sign bit is set.
    pub open spec fn spec_is_negative(self) -> bool {
        self.bits >= SIGN_BIT
    }

    /// The bits without the sign.
    pub open spec fn magnitude(self) -> nat {
        if self.bits >= SIGN_BIT {
            (self.bits - SIGN_BIT) as nat
        } else {
            self.bits as nat
        }
    }

    /// Whether this is not a number.
    pub open spec fn spec_is_nan(self) -> bool {
        self.magnitude() > INF_MAGNITUDE
    }

    /// Whether this is an infinity.
    pub open spec fn spec_is_infinite(self) -> bool {
        self.magnitude() == INF_MAGNITUDE
    }

    /// Whether this is neither an infinity nor NaN.
    pub open spec fn spec_is_finite(self) -> bool {
        self.magnitude() < INF_MAGNITUDE
    }

    /// The exact value of a finite number, in units of 2^-1074.
    pub open spec fn value(self) -> int {
        if self.spec_is_negative() {
            -(units(self.magnitude()) as int)
        } else {
            units(self.magnitude()) as int
        }
    }

    /// The position of a number that is not NaN in the numeric order.
    pub open spec fn rank(self) -> int {
        if self.spec_is_negative() {
            -(self.magnitude() as int)
        } else {
            self.magnitude() as int
        }
    }

    /// The number with the given sign and magnitude bits.
    pub open spec fn spec_signed(negative: bool, magnitude: nat) -> Num {
        Num {
            bits: if negative {
                (SIGN_BIT + magnitude) as u64
            } else {
                magnitude as u64
            },
        }
    }

    /// The NaN that operations return.
    pub open spec fn spec_nan() -> Num {
        Num { bits: NAN_BITS }
    }

    /// Numeric `<`; false where either side is NaN.
    pub open spec fn spec_lt(self, other: Num) -> bool {
        !self.spec_is_nan() && !other.spec_is_nan() && self.rank() < other.rank()
    }

    /// Numeric `<=`; false where either side is NaN.
    pub open spec fn spec_le(self, other: Num) -> bool {
        !self.spec_is_nan() && !other.spec_is_nan() && self.rank() <= other.rank()
    }

    /// Numeric equality; false where either side is NaN.
    pub open spec fn spec_same(self, other: Num) -> bool {
        !self.spec_is_nan() && !other.spec_is_nan() && self.rank() == other.rank()
    }

    /// The sign flipped.
    pub open spec fn spec_negated(self) -> Num {
        Num::spec_signed(!self.spec_is_negative(), self.magnitude())
    }

    /// The sign cleared.
    pub open spec fn spec_abs(self) -> Num {
        Num::spec_signed(false, self.magnitude())
    }

    /// The greater of two numbers; a NaN gives way to the other.
    pub open spec fn spec_larger(self, other: Num) -> Num {
        if self.spec_is_nan() || self.spec_lt(other) {
            other
        } else {
            self
        }
    }

    /// The smaller of two numbers; a NaN gives way to the other.
    pub open spec fn spec_smaller(self, other: Num) -> Num {
        if self.spec_is_nan() || other.spec_lt(self) {
            other
        } else {
            self
        }
    }

    /// The number moved into the range from `low` to `high`; a NaN stays.
    pub open spec fn spec_within(self, low: Num, high: Num) -> Num {
        if self.spec_lt(low) {
            low
        } else if high.spec_lt(self) {
            high
        } else {
            self
        }
    }

    /// One with the sign of the number; a NaN stays.
    pub open spec fn spec_signum(self) -> Num {
        if self.spec_is_nan() {
            self
        } else {
            Num::spec_signed(self.spec_is_negative(), 0x3FF0_0000_0000_0000)
        }
    }

    /// The exact sum, rounded.
    #[verifier::opaque]
    pub open spec fn spec_plus(self, other: Num) -> Num {
        if self.spec_is_nan() || other.spec_is_nan() {
            Num::spec_nan()
        } else if self.spec_is_infinite() {
            if other.spec_is_infinite() && self.spec_is_negative() != other.spec_is_negative() {
                Num::spec_nan()
            } else {
                self
            }
        } else if other.spec_is_infinite() {
            other
        } else {
            let sum = self.value() + other.value();
            if sum == 0 {
                Num::spec_signed(self.spec_is_negative() && other.spec_is_negative(), 0)
            } else if sum < 0 {
                Num::spec_signed(true, nearest((-sum) as nat, 1))
            } else {
                Num::spec_signed(false, nearest(sum as nat, 1))
            }
        }
    }

    /// The exact difference, rounded.
    pub open spec fn spec_minus(self, other: Num) -> Num {
        self.spec_plus(other.spec_negated())
    }

    /// The exact product, rounded.
    #[verifier::opaque]
    pub open spec fn spec_times(self, other: Num) -> Num {
        let negative = self.spec_is_negative() != other.spec_is_negative();
        if self.spec_is_nan() || other.spec_is_nan() {
            Num::spec_nan()
        } else if self.spec_is_infinite() || other.spec_is_infinite() {
            if self.magnitude() == 0 || other.magnitude() == 0 {
                Num::spec_nan()
            } else {
                Num::spec_signed(negative, INF_MAGNITUDE as nat)
            }
        } else {
            Num::spec_signed(
                negative,
                nearest(units(self.magnitude()) * units(other.magnitude()), pow2(1074)),
            )
        }
    }

    /// The exact quotient, rounded.
    #[verifier::opaque]
    pub open spec fn spec_over(self, other: Num) -> Num {
        let negative = self.spec_is_negative() != other.spec_is_negative();
        if self.spec_is_nan() || other.spec_is_nan() {
            Num::spec_nan()
        } else if self.spec_is_infinite() {
            if other.spec_is_infinite() {
                Num::spec_nan()
            } else {
                Num::spec_signed(negative, INF_MAGNITUDE as nat)
            }
        } else if other.spec_is_infinite() {
            Num::spec_signed(negative, 0)
        } else if other.magnitude() == 0 {
            if self.magnitude() == 0 {
                Num::spec_nan()
            } else {
                Num::spec_signed(negative, INF_MAGNITUDE as nat)
            }
        } else {
            Num::spec_signed(
                negative,
                nearest(units(self.magnitude()) * pow2(1074), units(other.magnitude())),
            )
        }
    }

    /// The square root, rounded. The exact root lies strictly between two half units where the
    /// radicand is no square, and the odd half unit stands for it.
    #[verifier::opaque]
    pub open spec fn spec_root(self) -> Num {
        if self.spec_is_nan() || self.magnitude() == 0 {
            if self.spec_is_nan() {
                Num::spec_nan()
            } else {
                self
            }
        } else if self.spec_is_negative() {
            Num::spec_nan()
        } else if self.spec_is_infinite() {
            self
        } else {
            let radicand = units(self.magnitude()) * pow2(1074);
            let s = floor_root(radicand);
            Num::spec_signed(
                false,
                nearest(
                    2 * s + (if s * s == radicand {
                        0nat
                    } else {
                        1nat
                    }),
                    2,
                ),
            )
        }
    }

    /// The number nearest to a whole number.
    #[verifier::opaque]
    pub open spec fn spec_from_int(n: i64) -> Num {
        Num::spec_signed(
            n < 0,
            nearest((if n < 0 { -n } else { n as int }) as nat * pow2(1074), 1),
        )
    }

    /// The number nearest to a count.
    #[verifier::opaque]
    pub open spec fn spec_from_count(n: u64) -> Num {
        Num::spec_signed(false, nearest(n as nat * pow2(1074), 1))
    }

    /// The whole part, towards zero, held to the range of the result; zero for NaN.
    #[verifier::opaque]
    pub open spec fn spec_to_int(self) -> i64 {
        if self.spec_is_nan() {
            0
        } else if self.spec_is_infinite() {
            if self.spec_is_negative() {
                i64::MIN
            } else {
                i64::MAX
            }
        } else {
            let whole = units(self.magnitude()) / pow2(1074);
            if self.spec_is_negative() {
                (-(capped(whole, 0x8000_0000_0000_0000) as int)) as i64
            } else {
                capped(whole, 0x7FFF_FFFF_FFFF_FFFF) as i64
            }
        }
    }

    /// The whole part of a number that is not below zero, held to the range of the result; zero
    /// for NaN and below zero.
    #[verifier::opaque]
    pub open spec fn spec_to_count(self) -> u64 {
        if self.spec_is_nan() || self.spec_is_negative() {
            0
        } else if self.spec_is_infinite() {
            u64::MAX
        } else {
            capped(units(self.magnitude()) / pow2(1074), 0xFFFF_FFFF_FFFF_FFFF) as u64
        }
    }

    /// The number nearest to `num / den`, for whole numbers that binary64 holds exactly.
    pub open spec fn spec_ratio(num: i64, den: i64) -> Num {
        Num::spec_from_int(num).spec_over(Num::spec_from_int(den))
    }

    /// Whether the sign bit is set.
    #[verifier::when_used_as_spec(spec_is_negative)]
    pub fn is_negative(self) -> (r: bool)
        ensures
            r == self.spec_is_negative(),
    {
        self.bits >= SIGN_BIT
    }

    /// The bits without the sign.
    pub fn magnitude_bits(self) -> (r: u64)
        ensures
            r == self.magnitude(),
            r < SIGN_BIT,
    {
        if self.bits >= SIGN_BIT {
            self.bits - SIGN_BIT
        } else {
            self.bits
        }
    }

    /// Whether this is not a number.
    #[verifier::when_used_as_spec(spec_is_nan)]
    pub fn is_nan(self) -> (r: bool)
        ensures
            r == self.spec_is_nan(),
    {
        self.magnitude_bits() > INF_MAGNITUDE
    }

    /// Whether this is neither an infinity nor NaN.
    #[verifier::when_used_as_spec(spec_is_finite)]
    pub fn is_finite(self) -> (r: bool)
        ensures
            r == self.spec_is_finite(),
    {
        self.magnitude_bits() < INF_MAGNITUDE
    }

    /// The number with the given sign and magnitude bits.
    pub(crate) fn signed(negative: bool, magnitude: u64) -> (r: Num)
        requires
            magnitude < SIGN_BIT,
        ensures
            r == Num::spec_signed(negative, magnitude as nat),
            r.magnitude() == magnitude,
            r.spec_is_negative() == negative,
    {
        Num {
            bits: if negative {
                SIGN_BIT + magnitude
            } else {
                magnitude
            },
        }
    }

    /// Numeric `<`; false where either side is NaN.
    #[verifier::when_used_as_spec(spec_lt)]
    pub fn lt(self, other: Num) -> (r: bool)
        ensures
            r == self.spec_lt(other),
    {
        if self.is_nan() || other.is_nan() {
            return false;
        }
        let a = self.magnitude_bits();
        let b = other.magnitude_bits();
        if self.is_negative() {
            if other.is_negative() {
                a > b
            } else {
                a > 0 || b > 0
            }
        } else {
            !other.is_negative() && a < b
        }
    }

    /// Numeric `<=`; false where either side is NaN.
    #[verifier::when_used_as_spec(spec_le)]
    pub fn le(self, other: Num) -> (r: bool)
        ensures
            r == self.spec_le(other),
    {
        !self.is_nan() && !other.is_nan() && !other.lt(self)
    }

    /// Numeric equality; false where either side is NaN.
    #[verifier::when_used_as_spec(spec_same)]
    pub fn same(self, other: Num) -> (r: bool)
        ensures
            r == self.spec_same(other),
    {
        self.le(other) && other.le(self)
    }

    /// The sign flipped.
    #[verifier::when_used_as_spec(spec_negated)]
    pub fn negated(self) -> (r: Num)
        ensures
            r == self.spec_negated(),
    {
        Num::signed(!self.is_negative(), self.magnitude_bits())
    }

    /// The sign cleared.
    #[verifier::when_used_as_spec(spec_abs)]
    pub fn abs(self) -> (r: Num)
        ensures
            r == self.spec_abs(),
    {
        Num::signed(false, self.magnitude_bits())
    }

    /// The greater of two numbers; a NaN gives way to the other.
    #[verifier::when_used_as_spec(spec_larger)]
    pub fn larger(self, other: Num) -> (r: Num)
        ensures
            r == self.spec_larger(other),
    {
        if self.is_nan() || self.lt(other) {
            other
        } else {
            self
        }
    }

    /// The smaller of two numbers; a NaN gives way to the other.
    #[verifier::when_used_as_spec(spec_smaller)]
    pub fn smaller(self, other: Num) -> (r: Num)
        ensures
            r == self.spec_smaller(other),
    {
        if self.is_nan() || other.lt(self) {
            other
        } else {
            self
        }
    }

    /// The number moved into the range from `low` to `high`; a NaN stays.
    #[verifier::when_used_as_spec(spec_within)]
    pub fn within(self, low: Num, high: Num) -> (r: Num)
        ensures
            r == self.spec_within(low, high),
    {
        if self.lt(low) {
            low
        } else if high.lt(self) {
            high
        } else {
            self
        }
    }

    /// One with the sign of the number; a NaN stays.
    #[verifier::when_used_as_spec(spec_signum)]
    pub fn signum(self) -> (r: Num)
        ensures
            r == self.spec_signum(),
    {
        if self.is_nan() {
            self
        } else {
            Num::signed(self.is_negative(), 0x3FF0_0000_0000_0000)
        }
    }

    /// The exact sum, rounded.
    #[verifier::when_used_as_spec(spec_plus)]
    pub fn plus(self, other: Num) -> (r: Num)
        ensures
            r == self.spec_plus(other),
    {
        arithmetic::sum(self, other)
    }

    /// The exact difference, rounded.
    #[verifier::when_used_as_spec(spec_minus)]
    pub fn minus(self, other: Num) -> (r: Num)
        ensures
            r == self.spec_minus(other),
    {
        arithmetic::sum(self, other.negated())
    }

    /// The exact product, rounded.
    #[verifier::when_used_as_spec(spec_times)]
    pub fn times(self, other: Num) -> (r: Num)
        ensures
            r == self.spec_times(other),
    {
        arithmetic::product(self, other)
    }

    /// The exact quotient, rounded.
    #[verifier::when_used_as_spec(spec_over)]
    pub fn over(self, other: Num) -> (r: Num)
        ensures
            r == self.spec_over(other),
    {
        arithmetic::quotient(self, other)
    }

    /// The square root, rounded.
    #[verifier::when_used_as_spec(spec_root)]
    pub fn root(self) -> (r: Num)
        ensures
            r == self.spec_root(),
    {
        root::root(self)
    }

    /// The number nearest to a whole number.
    #[verifier::when_used_as_spec(spec_from_int)]
    pub fn from_int(n: i64) -> (r: Num)
        ensures
            r == Num::spec_from_int(n),
    {
        proof {
            reveal(Num::spec_from_int);
        }
        let magnitude: u64 = if n < 0 {
            (-(n as i128)) as u64
        } else {
            n as u64
        };
        Num::signed(n < 0, arithmetic::whole(magnitude))
    }

    /// The number nearest to a count.
    #[verifier::when_used_as_spec(spec_from_count)]
    pub fn from_count(n: u64) -> (r: Num)
        ensures
            r == Num::spec_from_count(n),
    {
        proof {
            reveal(Num::spec_from_count);
        }
        Num::signed(false, arithmetic::whole(n))
    }

    /// The whole part, towards zero, held to the range of the result; zero for NaN.
    #[verifier::when_used_as_spec(spec_to_int)]
    pub fn to_int(self) -> (r: i64)
        ensures
            r == self.spec_to_int(),
    {
        proof {
            reveal(Num::spec_to_int);
        }
        let x = self.magnitude_bits();
        if x > INF_MAGNITUDE {
            return 0;
        }
        if self.is_negative() {
            if x == INF_MAGNITUDE {
                return i64::MIN;
            }
            let whole = arithmetic::whole_part(x, 0x8000_0000_0000_0000);
            (-(whole as i128)) as i64
        } else {
            if x == INF_MAGNITUDE {
                return i64::MAX;
            }
            arithmetic::whole_part(x, 0x7FFF_FFFF_FFFF_FFFF) as i64
        }
    }

    /// The whole part of a number that is not below zero, held to the range of the result; zero
    /// for NaN and below zero.
    #[verifier::when_used_as_spec(spec_to_count)]
    pub fn to_count(self) -> (r: u64)
        ensures
            r == self.spec_to_count(),
    {
        proof {
            reveal(Num::spec_to_count);
        }
        let x = self.magnitude_bits();
        if x > INF_MAGNITUDE || self.is_negative() {
            0
        } else if x == INF_MAGNITUDE {
            u64::MAX
        } else {
            arithmetic::whole_part(x, 0xFFFF_FFFF_FFFF_FFFF)
        }
    }

    /// The number nearest to `num / den`, for whole numbers that binary64 holds exactly.
    #[verifier::when_used_as_spec(spec_ratio)]
    pub fn ratio(num: i64, den: i64) -> (r: Num)
        ensures
            r == Num::spec_ratio(num, den),
    {
        arithmetic::quotient(Num::from_int(num), Num::from_int(den))
    }
}

impl Num {
    /// Zero.
    pub open spec fn spec_zero() -> Num {
        Num { bits: 0 }
    }

    /// One.
    pub open spec fn spec_one() -> Num {
        Num { bits: 0x3FF0_0000_0000_0000 }
    }

    /// Infinity.
    pub open spec fn spec_infinity() -> Num {
        Num { bits: INF_MAGNITUDE }
    }

    /// Whether this is a number above zero and below infinity.
    pub open spec fn spec_is_positive(self) -> bool {
        0 < self.bits < INF_MAGNITUDE
    }

    /// Zero.
    #[verifier::when_used_as_spec(spec_zero)]
    pub fn zero() -> (r: Num)
        ensures
            r == Num::spec_zero(),
    {
        Num { bits: 0 }
    }

    /// One.
    #[verifier::when_used_as_spec(spec_one)]
    pub fn one() -> (r: Num)
        ensures
            r == Num::spec_one(),
    {
        Num { bits: 0x3FF0_0000_0000_0000 }
    }

    /// Infinity.
    #[verifier::when_used_as_spec(spec_infinity)]
    pub fn infinity() -> (r: Num)
        ensures
            r == Num::spec_infinity(),
    {
        Num { bits: INF_MAGNITUDE }
    }

    /// Whether this is a number above zero and below infinity.
    #[verifier::when_used_as_spec(spec_is_positive)]
    pub fn is_positive(self) -> (r: bool)
        ensures
            r == self.spec_is_positive(),
    {
        0 < self.bits && self.bits < INF_MAGNITUDE
    }
}

/// The numeric order of finite numbers is the order of their exact values.
pub proof fn lemma_order_of_values(a: Num, b: Num)
    requires
        a.is_finite(),
        b.is_finite(),
    ensures
        a.lt(b) <==> a.value() < b.value(),
        a.le(b) <==> a.value() <= b.value(),
        a.same(b) <==> a.value() == b.value(),
{
    let x = a.magnitude();
    let y = b.magnitude();
    if x < y {
        lemma_units_increase(x, y);
    }
    if y < x {
        lemma_units_increase(y, x);
    }
    if x > 0 {
        lemma_units_increase(0, x);
    }
    if y > 0 {
        lemma_units_increase(0, y);
    }
}

} // verus!
