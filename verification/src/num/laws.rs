//! Laws of the rounded operations.

use super::powers::{
    bit_length, lemma_bit_length_at_most, lemma_bit_length_bounds, lemma_bit_length_unique,
    lemma_pow2_le, lemma_wide_powers,
};
use super::round::{
    lemma_nearest_monotone, lemma_nearest_of_units, lemma_units_increase, nearest, units,
    HIDDEN_BIT, INF_MAGNITUDE,
};
use super::{lemma_order_of_values, Num};
use vstd::arithmetic::power2::{lemma_pow2_pos, pow2};
use vstd::prelude::*;

verus! {

/// Rounding never goes beyond infinity.
pub proof fn lemma_nearest_bounded(num: nat, den: nat)
    ensures
        nearest(num, den) <= INF_MAGNITUDE,
{
}

/// The sign and magnitude of a number put together from them.
pub proof fn lemma_signed(negative: bool, magnitude: nat)
    requires
        magnitude <= INF_MAGNITUDE,
    ensures
        Num::spec_signed(negative, magnitude).magnitude() == magnitude,
        Num::spec_signed(negative, magnitude).is_negative() == negative,
        !Num::spec_signed(negative, magnitude).is_nan(),
{
}

/// The value of one.
pub proof fn lemma_one()
    ensures
        units(0x3FF0_0000_0000_0000) == pow2(1074),
{
    assert(0x3FF0_0000_0000_0000nat % (HIDDEN_BIT as nat) == 0);
    assert(0x3FF0_0000_0000_0000nat / (HIDDEN_BIT as nat) == 1023);
    lemma_wide_powers();
    vstd::arithmetic::power2::lemma_pow2_adds(52, 1022);
}

/// A number not below zero, over one that is no smaller and above zero, is at most one.
pub proof fn lemma_quotient_at_most_one(a: Num, b: Num)
    requires
        a.is_finite(),
        Num::zero().le(a),
        Num::zero().lt(b),
        a.le(b),
    ensures
        Num::zero().le(a.over(b)),
        a.over(b).le(Num::one()),
        a.over(b).is_finite(),
{
    reveal(Num::spec_over);
    lemma_one();
    lemma_pow2_pos(1074);
    let p = pow2(1074);
    if b.is_finite() {
        lemma_order_of_values(a, b);
        lemma_order_of_values(Num::zero(), b);
        let ua = units(a.magnitude());
        let ub = units(b.magnitude());
        let r = nearest(ua * p, ub);
        lemma_nearest_bounded(ua * p, ub);
        lemma_nearest_of_units(0x3FF0_0000_0000_0000, 1);
        assert(p * 1 == p);
        assert(ua * p * 1 <= p * ub) by (nonlinear_arith)
            requires
                ua <= ub,
                p > 0,
        ;
        lemma_nearest_monotone(ua * p, ub, p, 1);
        lemma_signed(a.is_negative() != b.is_negative(), r);
        if a.is_negative() {
            assert(ua * p == 0) by (nonlinear_arith)
                requires
                    ua == 0,
            ;
            lemma_nearest_zero(ub);
        }
    } else {
        lemma_signed(a.is_negative() != b.is_negative(), 0);
    }
}

/// A number over one that is no greater and not below zero is at least one, unless both are zero.
pub proof fn lemma_quotient_at_least_one(a: Num, b: Num)
    requires
        b.is_finite(),
        !b.is_negative(),
        Num::zero().lt(a),
        b.le(a),
    ensures
        Num::one().le(a.over(b)),
{
    reveal(Num::spec_over);
    lemma_one();
    lemma_pow2_pos(1074);
    let p = pow2(1074);
    if a.is_finite() && b.magnitude() > 0 {
        lemma_order_of_values(b, a);
        lemma_units_increase(0, b.magnitude());
        let ua = units(a.magnitude());
        let ub = units(b.magnitude());
        lemma_nearest_bounded(ua * p, ub);
        lemma_nearest_of_units(0x3FF0_0000_0000_0000, 1);
        assert(p * 1 == p);
        assert(p * ub <= ua * p * 1) by (nonlinear_arith)
            requires
                ub <= ua,
                p > 0,
        ;
        lemma_nearest_monotone(p, 1, ua * p, ub);
        lemma_signed(false, nearest(ua * p, ub));
    } else {
        lemma_signed(false, INF_MAGNITUDE as nat);
    }
}

/// Zero is nearest to zero.
pub proof fn lemma_nearest_zero(den: nat)
    requires
        den > 0,
    ensures
        nearest(0, den) == 0,
{
    lemma_nearest_of_units(0, den);
    assert(units(0) * den == 0) by (nonlinear_arith)
        requires
            units(0) == 0,
    ;
}

/// What is subtracted decides the sign of a difference: a number less one that is no smaller is
/// not above zero, and the other way round not below zero.
pub proof fn lemma_minus_order(a: Num, b: Num)
    requires
        a.is_finite(),
        a.le(b),
    ensures
        a.minus(b).le(Num::zero()),
        Num::zero().le(b.minus(a)),
        !b.is_negative() ==> !b.minus(a).is_negative(),
{
    reveal(Num::spec_plus);
    lemma_signed(!a.is_negative(), a.magnitude());
    lemma_signed(!b.is_negative(), b.magnitude());
    if b.is_finite() {
        lemma_order_of_values(a, b);
        let gap = b.value() - a.value();
        lemma_nearest_bounded(gap as nat, 1);
        lemma_signed(true, nearest(gap as nat, 1));
        lemma_signed(false, nearest(gap as nat, 1));
    }
}

/// Two differences of the same numbers are opposite.
pub proof fn lemma_minus_opposite(a: Num, b: Num)
    requires
        !a.is_nan(),
        b.is_finite(),
    ensures
        a.minus(b).same(b.minus(a).negated()),
        !a.minus(b).is_nan(),
{
    reveal(Num::spec_plus);
    lemma_signed(!a.is_negative(), a.magnitude());
    lemma_signed(!b.is_negative(), b.magnitude());
    if a.is_finite() {
        let gap = if a.value() < b.value() {
            b.value() - a.value()
        } else {
            a.value() - b.value()
        };
        lemma_nearest_bounded(gap as nat, 1);
        lemma_signed(true, nearest(gap as nat, 1));
        lemma_signed(false, nearest(gap as nat, 1));
        lemma_signed(true, 0);
    }
}

/// A product with a number above zero keeps the sign of the other factor, and is opposite for
/// opposite factors.
pub proof fn lemma_product_keeps_sign(a: Num, b: Num, f: Num)
    requires
        a.same(b.negated()),
        f.is_positive(),
    ensures
        a.times(f).same(b.times(f).negated()),
        a.le(Num::zero()) ==> a.times(f).le(Num::zero()),
{
    reveal(Num::spec_times);
    lemma_pow2_pos(1074);
    let p = pow2(1074);
    lemma_signed(!b.is_negative(), b.magnitude());
    assert(a.magnitude() == b.magnitude());
    if a.is_finite() {
        let r = nearest(units(a.magnitude()) * units(f.magnitude()), p);
        lemma_nearest_bounded(units(a.magnitude()) * units(f.magnitude()), p);
        lemma_signed(true, r);
        lemma_signed(false, r);
        if a.magnitude() == 0 {
            assert(units(0) * units(f.magnitude()) == 0) by (nonlinear_arith)
                requires
                    units(0) == 0,
            ;
            lemma_nearest_zero(p);
        }
    } else {
        lemma_signed(true, INF_MAGNITUDE as nat);
        lemma_signed(false, INF_MAGNITUDE as nat);
    }
}

/// A number is the opposite of its opposite.
pub proof fn lemma_negated_twice(a: Num)
    requires
        !a.is_nan(),
    ensures
        a.negated().negated() == a,
        a.same(a.negated().negated()),
{
    lemma_signed(!a.is_negative(), a.magnitude());
}

/// A quotient of a number not below zero by one above zero is not below zero.
pub proof fn lemma_quotient_sign(a: Num, b: Num)
    requires
        Num::zero().le(a),
        b.is_positive(),
    ensures
        Num::zero().le(a.over(b)),
{
    reveal(Num::spec_over);
    if a.is_finite() {
        let ub = units(b.magnitude());
        let r = nearest(units(a.magnitude()) * pow2(1074), ub);
        lemma_nearest_bounded(units(a.magnitude()) * pow2(1074), ub);
        lemma_signed(a.is_negative(), r);
        lemma_units_increase(0, b.magnitude());
        if a.is_negative() {
            assert(units(0) * pow2(1074) == 0) by (nonlinear_arith)
                requires
                    units(0) == 0,
            ;
            lemma_nearest_zero(ub);
        }
    }
}

/// A product of numbers not below zero is not below zero, unless it is none: zero times infinity.
pub proof fn lemma_product_sign(a: Num, b: Num)
    requires
        Num::zero().le(a),
        Num::zero().le(b),
        a.is_finite() || Num::zero().lt(b),
        b.is_finite() || Num::zero().lt(a),
    ensures
        Num::zero().le(a.times(b)),
        a.is_negative() == b.is_negative() ==> !a.times(b).is_negative(),
{
    reveal(Num::spec_times);
    lemma_pow2_pos(1074);
    let p = pow2(1074);
    let ua = units(a.magnitude());
    let ub = units(b.magnitude());
    let negative = a.is_negative() != b.is_negative();
    lemma_nearest_bounded(ua * ub, p);
    lemma_signed(negative, nearest(ua * ub, p));
    lemma_signed(negative, INF_MAGNITUDE as nat);
    if a.magnitude() == 0 || b.magnitude() == 0 {
        assert(ua * ub == 0) by (nonlinear_arith)
            requires
                ua == 0 || ub == 0,
        ;
        lemma_nearest_zero(p);
    }
}

/// Adding what is not below zero does not lower a number.
pub proof fn lemma_plus_grows(a: Num, b: Num)
    requires
        a.is_finite(),
        Num::zero().le(b),
    ensures
        !a.plus(b).is_nan(),
        a.le(a.plus(b)),
{
    reveal(Num::spec_plus);
    let ua = units(a.magnitude());
    let ub = units(b.magnitude());
    if b.is_finite() {
        let sum = a.value() + b.value();
        lemma_nearest_of_units(a.magnitude(), 1);
        assert(ua * 1 == ua);
        if sum > 0 {
            lemma_nearest_bounded(sum as nat, 1);
            lemma_signed(false, nearest(sum as nat, 1));
            if !a.is_negative() {
                assert(ua * 1 <= sum as nat * 1);
                lemma_nearest_monotone(ua, 1, sum as nat, 1);
            }
        } else if sum < 0 {
            let low = (-sum) as nat;
            lemma_nearest_bounded(low, 1);
            lemma_signed(true, nearest(low, 1));
            assert(low * 1 <= ua * 1);
            lemma_nearest_monotone(low, 1, ua, 1);
        } else {
            if a.magnitude() > 0 {
                lemma_units_increase(0, a.magnitude());
            }
        }
    }
}

/// One more than the greatest finite value is rounded down to it.
proof fn lemma_greatest_and_one()
    ensures
        nearest(units((INF_MAGNITUDE - 1) as nat) + pow2(1074), 1) < INF_MAGNITUDE,
{
    let top = (INF_MAGNITUDE - 1) as nat;
    let h = HIDDEN_BIT as nat;
    lemma_wide_powers();
    assert(top / h == 2046);
    assert(top % h == h - 1);
    let unit = pow2(2045);
    let sig = (2 * h - 1) as nat;
    let p = pow2(1074);
    assert(units(top) == sig * unit);
    lemma_pow2_pos(2045);
    lemma_pow2_pos(1074);
    lemma_pow2_le(1076, 2045);
    vstd::arithmetic::power2::lemma_pow2_adds(2, 1074);
    vstd::arithmetic::power2::lemma2_to64();
    vstd::arithmetic::power2::lemma_pow2_adds(53, 2045);
    vstd::arithmetic::power2::lemma_pow2_adds(52, 2045);
    let sum = units(top) + p;
    assert(pow2(2097) <= sum < pow2(2098)) by (nonlinear_arith)
        requires
            sum == sig * unit + p,
            sig == 2 * h - 1,
            p < unit,
            pow2(2098) == 2 * h * unit,
            pow2(2097) == h * unit,
            h > 1,
            unit > 0,
    ;
    lemma_bit_length_unique(sum, 2098);
    assert(sum / 1 == sum);
    assert(1 * unit == unit);
    vstd::arithmetic::div_mod::lemma_fundamental_div_mod_converse(
        sum as int,
        unit as int,
        sig as int,
        p as int,
    );
}

/// One more than a finite number not below zero is finite.
pub proof fn lemma_one_more_is_finite(a: Num)
    requires
        a.is_finite(),
        Num::zero().le(a),
    ensures
        Num::one().plus(a).is_finite(),
{
    reveal(Num::spec_plus);
    lemma_one();
    lemma_greatest_and_one();
    lemma_pow2_pos(1074);
    let top = (INF_MAGNITUDE - 1) as nat;
    let sum = (Num::one().value() + a.value()) as nat;
    if a.magnitude() < top {
        lemma_units_increase(a.magnitude(), top);
    }
    assert(sum * 1 <= (units(top) + pow2(1074)) * 1);
    lemma_nearest_monotone(sum, 1, units(top) + pow2(1074), 1);
    lemma_signed(false, nearest(sum, 1));
}

/// Subtracting what is not below zero does not raise a number.
pub proof fn lemma_minus_shrinks(a: Num, b: Num)
    requires
        !a.is_nan(),
        a != Num::infinity() || b.is_finite(),
        Num::zero().le(b),
    ensures
        !a.minus(b).is_nan(),
        a.minus(b).le(a),
{
    reveal(Num::spec_plus);
    let n = b.negated();
    lemma_signed(!b.is_negative(), b.magnitude());
    let ua = units(a.magnitude());
    if a.is_finite() && b.is_finite() {
        let sum = a.value() + n.value();
        lemma_nearest_of_units(a.magnitude(), 1);
        assert(ua * 1 == ua);
        if sum > 0 {
            lemma_nearest_bounded(sum as nat, 1);
            lemma_signed(false, nearest(sum as nat, 1));
            assert(sum as nat * 1 <= ua * 1);
            lemma_nearest_monotone(sum as nat, 1, ua, 1);
        } else if sum < 0 {
            let low = (-sum) as nat;
            lemma_nearest_bounded(low, 1);
            lemma_signed(true, nearest(low, 1));
            if a.is_negative() {
                assert(ua * 1 <= low * 1);
                lemma_nearest_monotone(ua, 1, low, 1);
            }
        } else {
            if a.magnitude() > 0 {
                lemma_units_increase(0, a.magnitude());
            }
        }
    }
}

/// A factor of at least one does not lower a number above zero.
pub proof fn lemma_times_grows(a: Num, f: Num)
    requires
        a.is_positive(),
        Num::one().le(f),
    ensures
        !a.times(f).is_nan(),
        a.le(a.times(f)),
{
    reveal(Num::spec_times);
    if f.is_finite() {
        lemma_one();
        lemma_pow2_pos(1074);
        let ua = units(a.magnitude());
        let uf = units(f.magnitude());
        let one = Num::one();
        assert(one.magnitude() == 0x3FF0_0000_0000_0000);
        lemma_order_of_values(one, f);
        assert(ua * pow2(1074) * pow2(1074) <= ua * uf * pow2(1074)) by (nonlinear_arith)
            requires
                pow2(1074) <= uf,
                ua >= 0,
        ;
        lemma_nearest_monotone(ua * pow2(1074), pow2(1074), ua * uf, pow2(1074));
        lemma_nearest_of_units(a.magnitude(), pow2(1074));
        lemma_nearest_bounded(ua * uf, pow2(1074));
        lemma_signed(false, nearest(ua * uf, pow2(1074)));
    }
}

/// A factor of at most one does not raise a number above zero.
pub proof fn lemma_times_shrinks(a: Num, f: Num)
    requires
        a.is_positive(),
        f.le(Num::one()),
    ensures
        !a.times(f).is_nan(),
        a.times(f).le(a),
{
    reveal(Num::spec_times);
    if f.is_finite() {
        lemma_one();
        lemma_pow2_pos(1074);
        let ua = units(a.magnitude());
        let uf = units(f.magnitude());
        let one = Num::one();
        lemma_nearest_bounded(ua * uf, pow2(1074));
        lemma_signed(f.is_negative(), nearest(ua * uf, pow2(1074)));
        if !f.is_negative() {
            assert(one.magnitude() == 0x3FF0_0000_0000_0000);
            lemma_order_of_values(f, one);
            assert(ua * uf * pow2(1074) <= ua * pow2(1074) * pow2(1074)) by (nonlinear_arith)
                requires
                    uf <= pow2(1074),
                    ua >= 0,
            ;
            lemma_nearest_monotone(ua * uf, pow2(1074), ua * pow2(1074), pow2(1074));
            lemma_nearest_of_units(a.magnitude(), pow2(1074));
        }
    }
}

/// Every whole number of 64 bits is far below infinity.
pub proof fn lemma_whole_finite(n: nat)
    requires
        n <= u64::MAX,
    ensures
        nearest(n * pow2(1074), 1) < INF_MAGNITUDE,
{
    let top: nat = 0x43F0_0000_0000_0000;
    assert(top % (HIDDEN_BIT as nat) == 0);
    assert(top / (HIDDEN_BIT as nat) == 1087);
    lemma_wide_powers();
    lemma_pow2_pos(1074);
    vstd::arithmetic::power2::lemma_pow2_adds(52, 1086);
    vstd::arithmetic::power2::lemma_pow2_adds(64, 1074);
    assert(n * pow2(1074) * 1 <= pow2(64) * pow2(1074) * 1) by (nonlinear_arith)
        requires
            n <= pow2(64),
            pow2(1074) > 0,
    ;
    lemma_nearest_monotone(n * pow2(1074), 1, units(top), 1);
    lemma_nearest_of_units(top, 1);
    assert(units(top) * 1 == units(top));
}

/// The number nearest to a whole number above zero is above zero, and no smaller than the number
/// nearest to a smaller one.
pub proof fn lemma_whole_order(a: i64, b: i64)
    requires
        0 <= a <= b,
    ensures
        Num::from_int(a).is_finite(),
        !Num::from_int(a).is_negative(),
        Num::from_int(a).le(Num::from_int(b)),
{
    lemma_whole_finite(a as nat);
    reveal(Num::spec_from_int);
    let p = pow2(1074);
    lemma_pow2_pos(1074);
    lemma_nearest_bounded(a as nat * p, 1);
    lemma_nearest_bounded(b as nat * p, 1);
    assert(a as nat * p * 1 <= b as nat * p * 1) by (nonlinear_arith)
        requires
            0 <= a <= b,
            p > 0,
    ;
    lemma_nearest_monotone(a as nat * p, 1, b as nat * p, 1);
    lemma_signed(false, nearest(a as nat * p, 1));
    lemma_signed(false, nearest(b as nat * p, 1));
}

/// The number one, from the whole number.
pub proof fn lemma_whole_one()
    ensures
        Num::from_int(1) == Num::one(),
{
    reveal(Num::spec_from_int);
    lemma_one();
    lemma_nearest_of_units(0x3FF0_0000_0000_0000, 1);
    let p = pow2(1074);
    assert(1nat * p == p && p * 1 == p);
}

/// A number held to a range lies in it.
pub proof fn lemma_within(x: Num, low: Num, high: Num)
    requires
        !x.is_nan(),
        low.le(high),
    ensures
        low.le(x.within(low, high)),
        x.within(low, high).le(high),
{
}

/// Whole numbers of up to 53 digits are held exactly.
pub proof fn lemma_whole_exact(k: i64)
    requires
        0 <= k < 0x20_0000_0000_0000,
    ensures
        Num::from_int(k).is_finite(),
        Num::from_int(k).value() == k * pow2(1074),
{
    reveal(Num::spec_from_int);
    let p = pow2(1074);
    lemma_pow2_pos(1074);
    lemma_wide_powers();
    lemma_whole_finite(k as nat);
    if k == 0 {
        lemma_nearest_of_units(0, 1);
        assert(0nat * p == 0);
        assert(units(0) * 1 == 0);
    } else {
        let n = k as nat;
        let b = bit_length(n);
        lemma_bit_length_at_most(n, 53);
        lemma_bit_length_bounds(n);
        let up = (53 - b) as nat;
        let h = HIDDEN_BIT as nat;
        vstd::arithmetic::power2::lemma_pow2_adds((b - 1) as nat, up);
        vstd::arithmetic::power2::lemma_pow2_adds(b, up);
        lemma_pow2_pos(up);
        let sig = n * pow2(up);
        assert(pow2(52) <= sig < pow2(53)) by (nonlinear_arith)
            requires
                sig == n * pow2(up),
                pow2((b - 1) as nat) <= n < pow2(b),
                pow2((b - 1) as nat) * pow2(up) == pow2(52),
                pow2(b) * pow2(up) == pow2(53),
                pow2(up) > 0,
        ;
        let e = (1022 + b) as nat;
        let x = e * h + (sig - h);
        vstd::arithmetic::div_mod::lemma_fundamental_div_mod_converse(
            x as int,
            h as int,
            e as int,
            sig - h,
        );
        assert(x < INF_MAGNITUDE) by (nonlinear_arith)
            requires
                x == e * h + (sig - h),
                e <= 1075,
                h == 0x10_0000_0000_0000,
                sig < 2 * h,
        ;
        assert(x >= h) by (nonlinear_arith)
            requires
                x == e * h + (sig - h),
                e >= 1022,
                sig >= h,
                h > 0,
        ;
        vstd::arithmetic::power2::lemma_pow2_adds(up, (e - 1) as nat);
        assert(up + (e - 1) == 1074);
        let xn = x as nat;
        assert(units(xn) == sig * pow2((e - 1) as nat));
        assert(units(xn) == n * p) by (nonlinear_arith)
            requires
                units(xn) == sig * pow2((e - 1) as nat),
                sig == n * pow2(up),
                pow2(up) * pow2((e - 1) as nat) == p,
        ;
        lemma_nearest_of_units(xn, 1);
        assert(units(xn) * 1 == units(xn));
    }
}

/// The whole part of a whole number is that number.
pub proof fn lemma_whole_part(k: i64)
    requires
        0 <= k < 0x20_0000_0000_0000,
    ensures
        Num::from_int(k).to_int() == k,
        Num::from_int(k).to_count() == k,
{
    reveal(Num::spec_to_int);
    reveal(Num::spec_to_count);
    lemma_whole_exact(k);
    lemma_pow2_pos(1074);
    lemma_whole_order(k, k);
    vstd::arithmetic::div_mod::lemma_div_multiples_vanish(k as int, pow2(1074) as int);
    vstd::arithmetic::mul::lemma_mul_is_commutative(k as int, pow2(1074) as int);
    assert(units(Num::from_int(k).magnitude()) == k * pow2(1074));
}

/// The whole part keeps the order.
pub proof fn lemma_whole_part_order(a: Num, b: Num)
    requires
        a.le(b),
        !a.is_negative(),
        !b.is_negative(),
    ensures
        a.to_int() <= b.to_int(),
        a.to_count() <= b.to_count(),
{
    reveal(Num::spec_to_int);
    reveal(Num::spec_to_count);
    if b.is_finite() {
        lemma_order_of_values(a, b);
        lemma_pow2_pos(1074);
        vstd::arithmetic::div_mod::lemma_div_is_ordered(
            units(a.magnitude()) as int,
            units(b.magnitude()) as int,
            pow2(1074) as int,
        );
    }
}

/// The whole part of zero, of either sign, is zero.
pub proof fn lemma_zero_parts(x: Num)
    requires
        x.magnitude() == 0,
    ensures
        x.to_int() == 0,
        x.to_count() == 0,
{
    reveal(Num::spec_to_int);
    reveal(Num::spec_to_count);
    lemma_pow2_pos(1074);
    vstd::arithmetic::div_mod::lemma_div_of0(pow2(1074) as int);
}

} // verus!
