//! Laws of order and sign: how results lie to each other, not only that they are the nearest.

use super::laws::{
    lemma_minus_order, lemma_nearest_bounded, lemma_nearest_zero, lemma_one, lemma_signed,
    lemma_times_grows, lemma_whole_exact, lemma_whole_order,
};
use super::powers::{bit_length, lemma_bit_length_bounds, lemma_bit_length_unique, lemma_wide_powers};
use super::round::{
    last_place, lemma_nearest_monotone, lemma_nearest_of_units, lemma_units_increase, nearest,
    units, HIDDEN_BIT, INF_MAGNITUDE,
};
use super::{lemma_order_of_values, Num};
use vstd::arithmetic::power2::{lemma_pow2_adds, lemma_pow2_pos, pow2};
use vstd::prelude::*;

verus! {

/// The magnitude bits of one.
const ONE: u64 = 0x3FF0_0000_0000_0000;

/// The order of factors does not matter.
pub proof fn lemma_times_commutes(a: Num, b: Num)
    ensures
        a.times(b) == b.times(a),
{
    reveal(Num::spec_times);
    vstd::arithmetic::mul::lemma_mul_is_commutative(
        units(a.magnitude()) as int,
        units(b.magnitude()) as int,
    );
}

/// A number times one is that number, and times minus one its opposite.
pub proof fn lemma_times_one(x: Num)
    requires
        !x.is_nan(),
    ensures
        x.times(Num::one()) == x,
        x.times(Num::one().negated()) == x.negated(),
        Num::one().times(x) == x,
        Num::one().negated().times(x) == x.negated(),
{
    reveal(Num::spec_times);
    lemma_one();
    lemma_pow2_pos(1074);
    lemma_signed(true, ONE as nat);
    lemma_signed(!x.is_negative(), x.magnitude());
    if x.is_finite() {
        lemma_nearest_of_units(x.magnitude(), pow2(1074));
    }
    lemma_times_commutes(x, Num::one());
    lemma_times_commutes(x, Num::one().negated());
}

/// A product above zero has two factors on one side of zero, one below zero has them on both.
pub proof fn lemma_product_tells_signs(a: Num, b: Num)
    ensures
        Num::zero().lt(a.times(b)) ==> (Num::zero().lt(a) && Num::zero().lt(b)) || (a.lt(
            Num::zero(),
        ) && b.lt(Num::zero())),
        a.times(b).lt(Num::zero()) ==> (Num::zero().lt(a) && b.lt(Num::zero())) || (a.lt(
            Num::zero(),
        ) && Num::zero().lt(b)),
{
    reveal(Num::spec_times);
    lemma_pow2_pos(1074);
    let p = pow2(1074);
    let ua = units(a.magnitude());
    let ub = units(b.magnitude());
    let negative = a.is_negative() != b.is_negative();
    lemma_nearest_bounded(ua * ub, p);
    lemma_signed(negative, nearest(ua * ub, p));
    lemma_signed(negative, INF_MAGNITUDE as nat);
    if a.magnitude() == 0 || b.magnitude() == 0 {
        assert(ua * ub == 0) by (nonlinear_arith)
            requires
                ua == 0 || ub == 0,
        ;
        lemma_nearest_zero(p);
    }
}

/// The sign of a number, as a number.
pub proof fn lemma_signum(x: Num)
    requires
        !x.is_nan(),
    ensures
        Num::zero().lt(x) ==> x.signum() == Num::one(),
        x.lt(Num::zero()) ==> x.signum() == Num::one().negated(),
        x.signum() == Num::one() || x.signum() == Num::one().negated(),
        Num::zero().lt(Num::one()),
        Num::one().negated().lt(Num::zero()),
{
    lemma_signed(true, ONE as nat);
}

/// Quotients of whole numbers above zero are above zero, and in the order of the exact quotients.
pub proof fn lemma_ratio_order(a: i64, b: i64, c: i64, d: i64)
    requires
        0 < a < 0x20_0000_0000_0000,
        0 < b < 0x20_0000_0000_0000,
        0 < c < 0x20_0000_0000_0000,
        0 < d < 0x20_0000_0000_0000,
        a * d <= c * b,
    ensures
        Num::zero().lt(Num::ratio(a, b)),
        Num::ratio(a, b).is_finite(),
        Num::ratio(a, b).le(Num::ratio(c, d)),
{
    lemma_ratio(a, b);
    lemma_ratio(c, d);
    let p = pow2(1074);
    lemma_pow2_pos(1074);
    assert((a * p * p) * (d * p) <= (c * p * p) * (b * p)) by (nonlinear_arith)
        requires
            a * d <= c * b,
            p > 0,
    ;
    assert(b * p > 0 && d * p > 0) by (nonlinear_arith)
        requires
            b > 0,
            d > 0,
            p > 0,
    ;
    lemma_nearest_monotone(
        (a * p * p) as nat,
        (b * p) as nat,
        (c * p * p) as nat,
        (d * p) as nat,
    );
}

proof fn lemma_ratio(a: i64, b: i64)
    requires
        0 < a < 0x20_0000_0000_0000,
        0 < b < 0x20_0000_0000_0000,
    ensures
        Num::zero().lt(Num::ratio(a, b)),
        Num::ratio(a, b).is_finite(),
        !Num::ratio(a, b).is_negative(),
        a * pow2(1074) * pow2(1074) >= 0,
        b * pow2(1074) >= 0,
        Num::ratio(a, b).magnitude() == nearest(
            (a * pow2(1074) * pow2(1074)) as nat,
            (b * pow2(1074)) as nat,
        ),
{
    reveal(Num::spec_over);
    lemma_whole_exact(a);
    lemma_whole_exact(b);
    lemma_whole_order(a, a);
    lemma_whole_order(b, b);
    let p = pow2(1074);
    lemma_pow2_pos(1074);
    lemma_wide_powers();
    super::powers::lemma_pow2_le(53, 1074);
    assert(a * p * p >= b * p && b * p > 0 && a * p >= 0 && a * p * p * 1 <= a * p * (b * p))
        by (nonlinear_arith)
        requires
            a > 0,
            b > 0,
            b <= p,
            p > 0,
    ;
    let n = (a * p * p) as nat;
    let d = (b * p) as nat;
    assert(units(Num::from_int(b).magnitude()) == d);
    assert(units(Num::from_int(a).magnitude()) * p == n);
    if Num::from_int(b).magnitude() == 0 {
        assert(units(0) == 0);
    }
    lemma_nearest_bounded(n, d);
    lemma_signed(false, nearest(n, d));
    // At least one unit, and at most the dividend.
    lemma_nearest_of_units(1, 1);
    lemma_nearest_monotone(1, 1, n, d);
    let ma = Num::from_int(a).magnitude();
    lemma_nearest_of_units(ma, 1);
    assert(n * 1 <= units(ma) * d);
    lemma_nearest_monotone(n, d, units(ma), 1);
    assert(units(ma) * 1 == units(ma));
}

/// The weight of the last digit of a magnitude.
spec fn grain(m: nat) -> nat {
    if m < HIDDEN_BIT {
        1
    } else {
        pow2((m / (HIDDEN_BIT as nat) - 1) as nat)
    }
}

/// The next magnitude is one last digit further, and a magnitude has at most 53 digits.
proof fn lemma_grain(m: nat)
    requires
        m + 1 < INF_MAGNITUDE,
    ensures
        units(m + 1) == units(m) + grain(m),
        grain(m) > 0,
        units(m) < 0x20_0000_0000_0000 * grain(m),
        m >= HIDDEN_BIT ==> units(m) >= 0x10_0000_0000_0000 * grain(m),
        units(m) + grain(m) <= 0x20_0000_0000_0000 * grain(m),
{
    let h = HIDDEN_BIT as nat;
    lemma_wide_powers();
    vstd::arithmetic::power2::lemma2_to64();
    if m + 1 < h {
    } else if m + 1 == h {
        assert((m + 1) % h == 0 && (m + 1) / h == 1);
        assert(units(m + 1) == h * pow2(0));
    } else {
        let e = (m / h - 1) as nat;
        let r = m % h;
        vstd::arithmetic::div_mod::lemma_fundamental_div_mod(m as int, h as int);
        vstd::arithmetic::div_mod::lemma_mod_bound(m as int, h as int);
        lemma_pow2_pos(e);
        let g = pow2(e);
        assert(units(m) == (h + r) * g);
        if r + 1 < h {
            vstd::arithmetic::div_mod::lemma_fundamental_div_mod_converse(
                (m + 1) as int,
                h as int,
                (e + 1) as int,
                (r + 1) as int,
            );
            assert(units(m + 1) == (h + (r + 1)) * g);
            assert((h + (r + 1)) * g == (h + r) * g + g) by (nonlinear_arith);
        } else {
            vstd::arithmetic::div_mod::lemma_fundamental_div_mod_converse(
                (m + 1) as int,
                h as int,
                (e + 2) as int,
                0,
            );
            vstd::arithmetic::power2::lemma_pow2_unfold(e + 1);
            assert(units(m + 1) == h * pow2(e + 1));
            assert(h * (2 * g) == (h + (h - 1)) * g + g) by (nonlinear_arith);
        }
        assert((h + r) * g < 2 * h * g && h * g <= (h + r) * g && (h + r) * g + g <= 2 * h * g)
            by (nonlinear_arith)
            requires
                0 <= r < h,
                g > 0,
        ;
    }
}

/// A smaller number over a greater one is below one.
pub proof fn lemma_over_greater(a: Num, b: Num)
    requires
        a.is_positive(),
        b.is_positive(),
        a.lt(b),
    ensures
        a.over(b).lt(Num::one()),
        !a.over(b).is_negative(),
{
    reveal(Num::spec_over);
    lemma_one();
    lemma_pow2_pos(1074);
    let p = pow2(1074);
    let k = (b.magnitude() - 1) as nat;
    let ua = units(a.magnitude());
    let ub = units(b.magnitude());
    lemma_grain(k);
    if a.magnitude() < k {
        lemma_units_increase(a.magnitude(), k);
    }
    lemma_units_increase(0, b.magnitude());
    let below = (ONE - 1) as nat;
    lemma_grain(below);
    lemma_wide_powers();
    lemma_pow2_adds(53, 1021);
    assert(below / (HIDDEN_BIT as nat) == 1022);
    assert(grain(below) == pow2(1021));
    let t = pow2(1021);
    assert(ua * p * 1 <= units(below) * ub) by (nonlinear_arith)
        requires
            units(below) == p - t,
            p == 0x20_0000_0000_0000 * t,
            ub <= 0x20_0000_0000_0000 * grain(k),
            ub - ua >= grain(k),
            t > 0,
            ua >= 0,
    {
        assert(units(below) * ub == p * ub - t * ub);
        assert(t * ub <= t * (0x20_0000_0000_0000 * (ub - ua)));
        assert(t * (0x20_0000_0000_0000 * (ub - ua)) == p * (ub - ua));
        assert(p * (ub - ua) == p * ub - ua * p);
    }
    lemma_nearest_monotone(ua * p, ub, units(below), 1);
    lemma_nearest_of_units(below, 1);
    assert(units(below) * 1 == units(below));
    lemma_signed(false, nearest(ua * p, ub));
}

/// The quotient just above one that whole numbers of 53 digits can have is rounded up.
proof fn lemma_just_above_one()
    ensures
        nearest(0x20_0000_0000_0000 * pow2(1074), 0x1F_FFFF_FFFF_FFFF) > ONE,
{
    let p = pow2(1074);
    let t = pow2(1022);
    let den: nat = 0x1F_FFFF_FFFF_FFFF;
    let num: nat = 0x20_0000_0000_0000 * p;
    lemma_wide_powers();
    lemma_pow2_pos(1022);
    lemma_pow2_adds(52, 1022);
    vstd::arithmetic::power2::lemma_pow2_unfold(1075);
    let q = num / den;
    vstd::arithmetic::div_mod::lemma_fundamental_div_mod(num as int, den as int);
    vstd::arithmetic::div_mod::lemma_mod_bound(num as int, den as int);
    assert(p <= q < 2 * p) by (nonlinear_arith)
        requires
            num == den * q + num % den,
            0 <= num % den < den,
            num == 0x20_0000_0000_0000 * p,
            den == 0x1F_FFFF_FFFF_FFFF,
            p > 2,
    ;
    lemma_bit_length_unique(q, 1075);
    assert(last_place(q) == 1022);
    let unit = den * t;
    let rest = (0x10_0000_0000_0000 * t) as nat;
    assert(num == unit * 0x10_0000_0000_0000 + rest) by (nonlinear_arith)
        requires
            num == 0x20_0000_0000_0000 * p,
            p == 0x10_0000_0000_0000 * t,
            unit == den * t,
            den == 0x1F_FFFF_FFFF_FFFF,
            rest == 0x10_0000_0000_0000 * t,
    ;
    vstd::arithmetic::mul::lemma_mul_is_commutative(unit as int, 0x10_0000_0000_0000);
    vstd::arithmetic::div_mod::lemma_fundamental_div_mod_converse(
        num as int,
        unit as int,
        0x10_0000_0000_0000,
        rest as int,
    );
    assert(2 * rest > unit);
}

/// A greater number over a smaller one is above one.
pub proof fn lemma_over_smaller(a: Num, b: Num)
    requires
        a.is_positive(),
        b.is_positive(),
        a.lt(b),
    ensures
        Num::one().lt(b.over(a)),
{
    reveal(Num::spec_over);
    lemma_just_above_one();
    lemma_pow2_pos(1074);
    let p = pow2(1074);
    let k = a.magnitude();
    let ua = units(k);
    let ub = units(b.magnitude());
    lemma_grain(k);
    lemma_units_increase(0, k);
    if k + 1 < b.magnitude() {
        lemma_units_increase(k + 1, b.magnitude());
    }
    let g = grain(k);
    let num: nat = 0x20_0000_0000_0000 * p;
    let den: nat = 0x1F_FFFF_FFFF_FFFF;
    assert(num * ua <= ub * p * den) by (nonlinear_arith)
        requires
            num == 0x20_0000_0000_0000 * p,
            den == 0x1F_FFFF_FFFF_FFFF,
            ub >= ua + g,
            ua + g <= 0x20_0000_0000_0000 * g,
            p > 0,
    {
        assert(0x20_0000_0000_0000 * ua <= ub * den);
        assert(p * (0x20_0000_0000_0000 * ua) <= p * (ub * den));
        assert(p * (0x20_0000_0000_0000 * ua) == num * ua);
        assert(p * (ub * den) == ub * p * den);
    }
    lemma_nearest_monotone(num, den, ub * p, ua);
    lemma_nearest_bounded(ub * p, ua);
    lemma_signed(false, nearest(ub * p, ua));
}

/// A quotient tells which of two numbers is the greater.
pub proof fn lemma_over_sides(a: Num, b: Num)
    requires
        !a.is_nan(),
        b.is_positive(),
    ensures
        b.lt(a) ==> Num::one().lt(a.over(b)),
        a.lt(b) ==> a.over(b).lt(Num::one()),
{
    if a.is_positive() {
        if a.lt(b) {
            lemma_over_greater(a, b);
        }
        if b.lt(a) {
            lemma_over_smaller(b, a);
        }
    } else {
        reveal(Num::spec_over);
        lemma_signed(true, INF_MAGNITUDE as nat);
        if a.is_finite() {
            let ub = units(b.magnitude());
            lemma_units_increase(0, b.magnitude());
            lemma_nearest_bounded(units(a.magnitude()) * pow2(1074), ub);
            lemma_signed(a.is_negative(), nearest(units(a.magnitude()) * pow2(1074), ub));
            if a.magnitude() == 0 {
                assert(units(0) * pow2(1074) == 0) by (nonlinear_arith)
                    requires
                        units(0) == 0,
                ;
                lemma_nearest_zero(ub);
            }
        }
    }
}

/// The difference of different numbers tells which is the greater.
pub proof fn lemma_minus_strict(a: Num, b: Num)
    requires
        a.lt(b),
        a.is_finite() || b.is_finite(),
    ensures
        a.minus(b).lt(Num::zero()),
        Num::zero().lt(b.minus(a)),
{
    reveal(Num::spec_plus);
    lemma_signed(!a.is_negative(), a.magnitude());
    lemma_signed(!b.is_negative(), b.magnitude());
    if a.is_finite() && b.is_finite() {
        lemma_order_of_values(a, b);
        let gap = (b.value() - a.value()) as nat;
        lemma_nearest_bounded(gap, 1);
        lemma_nearest_of_units(1, 1);
        lemma_nearest_monotone(1, 1, gap, 1);
        lemma_signed(true, nearest(gap, 1));
        lemma_signed(false, nearest(gap, 1));
    }
}

/// A product of a number other than zero with one of at least one is on the same side of zero.
pub proof fn lemma_times_keeps_side(a: Num, f: Num)
    requires
        f.is_finite(),
        Num::one().le(f),
    ensures
        Num::zero().lt(a) ==> Num::zero().lt(a.times(f)),
        a.lt(Num::zero()) ==> a.times(f).lt(Num::zero()),
{
    reveal(Num::spec_times);
    let b = Num { bits: a.magnitude() as u64 };
    lemma_signed(true, INF_MAGNITUDE as nat);
    if !a.is_nan() && 0 < a.magnitude() < INF_MAGNITUDE {
        assert(b.is_positive());
        lemma_times_grows(b, f);
        lemma_pow2_pos(1074);
        let r = nearest(units(a.magnitude()) * units(f.magnitude()), pow2(1074));
        lemma_nearest_bounded(units(a.magnitude()) * units(f.magnitude()), pow2(1074));
        lemma_signed(true, r);
        lemma_signed(false, r);
    }
}

/// The magnitude of a power of two.
proof fn lemma_power_magnitude(k: nat)
    requires
        52 <= k < 2098,
    ensures
        units(((k - 51) * HIDDEN_BIT) as nat) == pow2(k),
        (k - 51) * HIDDEN_BIT < INF_MAGNITUDE,
{
    let h = HIDDEN_BIT as nat;
    let m = ((k - 51) * h) as nat;
    lemma_wide_powers();
    vstd::arithmetic::div_mod::lemma_fundamental_div_mod_converse(
        m as int,
        h as int,
        k - 51,
        0,
    );
    lemma_pow2_adds(52, (k - 52) as nat);
    assert(m >= h && m < INF_MAGNITUDE) by (nonlinear_arith)
        requires
            m == (k - 51) * h,
            1 <= k - 51 <= 2046,
            h == 0x10_0000_0000_0000,
    ;
}

/// A ten-thousandth is more than a power of two that is far above the last digit of one.
pub proof fn lemma_ten_thousandth(x: Num)
    requires
        Num::ratio(1, 10_000).le(x),
        x.is_finite(),
    ensures
        x.value() >= pow2(1060),
        pow2(1060) >= 0x10_0000 * pow2(1022),
{
    let p = pow2(1074);
    let m = (1009 * HIDDEN_BIT) as nat;
    lemma_ratio(1, 10_000);
    lemma_power_magnitude(1060);
    lemma_wide_powers();
    vstd::arithmetic::power2::lemma2_to64();
    lemma_pow2_pos(1060);
    lemma_pow2_pos(1022);
    lemma_pow2_adds(14, 1060);
    lemma_pow2_adds(38, 1022);
    vstd::arithmetic::power2::lemma2_to64_rest();
    super::powers::lemma_pow2_le(20, 38);
    assert(pow2(1060) >= 0x10_0000 * pow2(1022)) by (nonlinear_arith)
        requires
            pow2(1060) == pow2(38) * pow2(1022),
            pow2(38) >= 0x10_0000,
            pow2(1022) > 0,
    ;
    let n = (1 * p * p) as nat;
    let d = (10_000 * p) as nat;
    assert(units(m) * d <= n * 1) by (nonlinear_arith)
        requires
            units(m) == pow2(1060),
            p == 0x4000 * pow2(1060),
            n == p * p,
            d == 10_000 * p,
            p > 0,
    ;
    assert(d > 0);
    lemma_nearest_monotone(units(m), 1, n, d);
    lemma_nearest_of_units(m, 1);
    assert(units(m) * 1 == units(m));
    let r = Num::ratio(1, 10_000);
    if m < r.magnitude() {
        lemma_units_increase(m, r.magnitude());
    }
    lemma_order_of_values(r, x);
}

/// Rounding loses less than a sixteenth of what is not tiny.
pub proof fn lemma_nearest_close(num: nat, den: nat)
    requires
        den > 0,
        num >= 16 * den,
        nearest(num, den) < INF_MAGNITUDE,
    ensures
        16 * units(nearest(num, den)) * den >= 15 * num,
{
    let h = HIDDEN_BIT as nat;
    lemma_wide_powers();
    vstd::arithmetic::power2::lemma2_to64();
    let q = num / den;
    vstd::arithmetic::div_mod::lemma_fundamental_div_mod(num as int, den as int);
    vstd::arithmetic::div_mod::lemma_mod_bound(num as int, den as int);
    vstd::arithmetic::div_mod::lemma_div_is_ordered(16 * den as int, num as int, den as int);
    vstd::arithmetic::div_mod::lemma_div_multiples_vanish(16, den as int);
    vstd::arithmetic::mul::lemma_mul_is_commutative(16, den as int);
    assert(q >= 16);
    lemma_bit_length_bounds(q);
    let place = last_place(q);
    let unit = den * pow2(place);
    lemma_pow2_pos(place);
    assert(unit > 0) by (nonlinear_arith)
        requires
            unit == den * pow2(place),
            den > 0,
            pow2(place) > 0,
    ;
    let w = num / unit;
    vstd::arithmetic::div_mod::lemma_fundamental_div_mod(num as int, unit as int);
    vstd::arithmetic::div_mod::lemma_mod_bound(num as int, unit as int);
    let bits = place * h + w;
    if place == 0 {
        vstd::arithmetic::mul::lemma_mul_basics(den as int);
        assert(unit == den && w == q);
        assert(bits == w);
        super::powers::lemma_pow2_le(bit_length(q), 53);
        assert(units(bits) == w) by {
            if w >= h {
                vstd::arithmetic::div_mod::lemma_fundamental_div_mod_converse(
                    w as int,
                    h as int,
                    1,
                    w - h,
                );
                vstd::arithmetic::mul::lemma_mul_basics(w as int);
                assert(pow2(0) == 1);
                assert((h + w % h) as nat == w);
                assert(w * 1 == w);
            }
        }
        let x = den * w;
        assert(x >= 16 * den) by (nonlinear_arith)
            requires
                x == den * w,
                w >= 16,
        ;
        assert(16 * units(bits) * den == 16 * x) by (nonlinear_arith)
            requires
                units(bits) == w,
                x == den * w,
        ;
        assert(num == x + num % unit);
    } else {
        vstd::arithmetic::div_mod::lemma_div_denominator(
            num as int,
            den as int,
            pow2(place) as int,
        );
        super::powers::lemma_bit_length_div(q, place);
        assert(bit_length(w) == 53);
        lemma_bit_length_bounds(w);
        let e = (place + 1) as int;
        assert(bits == e * h + (w - h)) by (nonlinear_arith)
            requires
                bits == place * h + w,
                e == place + 1,
        ;
        vstd::arithmetic::div_mod::lemma_fundamental_div_mod_converse(
            bits as int,
            h as int,
            e,
            w - h,
        );
        assert(bits >= h) by (nonlinear_arith)
            requires
                bits == e * h + (w - h),
                e >= 1,
                w >= h,
        ;
        assert(units(bits) == w * pow2(place));
        let x = unit * w;
        assert(x >= 16 * unit) by (nonlinear_arith)
            requires
                x == unit * w,
                w >= 16,
        ;
        assert(16 * units(bits) * den == 16 * x) by (nonlinear_arith)
            requires
                units(bits) == w * pow2(place),
                unit == den * pow2(place),
                x == unit * w,
        ;
        assert(num == x + num % unit);
    }
    assert(16 * units(bits) * den >= 15 * num);
    if bits < nearest(num, den) {
        lemma_units_increase(bits, nearest(num, den));
    }
    assert(16 * units(nearest(num, den)) * den >= 16 * units(bits) * den) by (nonlinear_arith)
        requires
            units(nearest(num, den)) >= units(bits),
            den > 0,
    ;
}

/// What is at least one last digit above the greatest finite number is rounded to infinity.
proof fn lemma_beyond_the_greatest(num: nat, den: nat)
    requires
        den > 0,
        num >= pow2(2098) * den,
    ensures
        nearest(num, den) == INF_MAGNITUDE,
{
    lemma_wide_powers();
    lemma_pow2_pos(2098);
    super::powers::lemma_pow2_le(2098, 2099);
    vstd::arithmetic::power2::lemma_pow2_strictly_increases(2098, 2099);
    let top = pow2(2098);
    lemma_bit_length_unique(top, 2099);
    assert(top / 1 == top);
    lemma_pow2_adds(52, 2046);
    lemma_pow2_pos(2046);
    let unit = pow2(2046);
    assert(1 * unit == unit);
    vstd::arithmetic::div_mod::lemma_fundamental_div_mod_converse(
        top as int,
        unit as int,
        0x10_0000_0000_0000,
        0,
    );
    assert(nearest(top, 1) == INF_MAGNITUDE);
    assert(num * 1 == num);
    lemma_nearest_monotone(top, 1, num, den);
    lemma_nearest_bounded(num, den);
}

/// A number just below one.
pub open spec fn below_one() -> Num {
    Num { bits: 0x3FEF_FFFF_FFFF_FFFE }
}

proof fn lemma_below_one()
    ensures
        below_one().is_finite(),
        below_one().value() == pow2(1074) - pow2(1022),
{
    lemma_one();
    lemma_grain((ONE - 1) as nat);
    lemma_grain((ONE - 2) as nat);
    assert((ONE - 1) as nat / (HIDDEN_BIT as nat) == 1022);
    assert((ONE - 2) as nat / (HIDDEN_BIT as nat) == 1022);
    vstd::arithmetic::power2::lemma_pow2_unfold(1022);
}

/// What is at least a ten-thousandth moves one clearly, up and down.
pub proof fn lemma_one_moves(x: Num)
    requires
        Num::ratio(1, 10_000).le(x),
    ensures
        Num::one().lt(Num::one().plus(x)),
        Num::one().minus(x).le(below_one()),
{
    reveal(Num::spec_plus);
    lemma_one();
    lemma_ratio(1, 10_000);
    lemma_signed(true, x.magnitude());
    if x.is_finite() {
        lemma_ten_thousandth(x);
        lemma_below_one();
        lemma_pow2_pos(1022);
        lemma_pow2_pos(1074);
        let p = pow2(1074) as int;
        let up = (p + x.value()) as nat;
        lemma_grain(ONE as nat);
        assert(ONE as nat / (HIDDEN_BIT as nat) == 1023);
        let above = (ONE + 1) as nat;
        assert(units(above) * 1 == units(above));
        lemma_nearest_of_units(above, 1);
        lemma_nearest_monotone(units(above), 1, up, 1);
        lemma_nearest_bounded(up, 1);
        lemma_signed(false, nearest(up, 1));
        let down = p - x.value();
        if down > 0 {
            let below = below_one().magnitude();
            assert(units(below) * 1 == units(below));
            lemma_nearest_of_units(below, 1);
            lemma_nearest_monotone(down as nat, 1, units(below), 1);
            lemma_nearest_bounded(down as nat, 1);
            lemma_signed(false, nearest(down as nat, 1));
        } else {
            lemma_nearest_bounded((-down) as nat, 1);
            lemma_signed(true, nearest((-down) as nat, 1));
        }
    }
}

/// The opposite of a factor gives the opposite product.
pub proof fn lemma_times_negated(a: Num, b: Num)
    requires
        !a.is_nan(),
        !b.is_nan(),
        !a.times(b).is_nan(),
    ensures
        a.negated().times(b) == a.times(b).negated(),
{
    reveal(Num::spec_times);
    lemma_signed(!a.is_negative(), a.magnitude());
    let negative = a.is_negative() != b.is_negative();
    lemma_nearest_bounded(units(a.magnitude()) * units(b.magnitude()), pow2(1074));
    let r = nearest(units(a.magnitude()) * units(b.magnitude()), pow2(1074));
    lemma_signed(negative, r);
    lemma_signed(!negative, r);
    lemma_signed(negative, INF_MAGNITUDE as nat);
    lemma_signed(!negative, INF_MAGNITUDE as nat);
}

/// Five quarters, exactly.
proof fn lemma_five_quarters()
    ensures
        Num::ratio(125, 100).is_finite(),
        !Num::ratio(125, 100).is_negative(),
        4 * Num::ratio(125, 100).value() == 5 * pow2(1074),
{
    let m = (ONE + 0x4_0000_0000_0000) as nat;
    let h = HIDDEN_BIT as nat;
    let p = pow2(1074);
    lemma_ratio(125, 100);
    lemma_wide_powers();
    lemma_pow2_pos(1074);
    lemma_pow2_adds(52, 1022);
    assert(m / h == 1023 && m % h == 0x4_0000_0000_0000);
    let t = pow2(1022);
    assert(p == 0x10_0000_0000_0000 * t);
    assert(units(m) == 0x14_0000_0000_0000 * t);
    let d = (100 * p) as nat;
    assert(units(m) * d == 125 * p * p) by (nonlinear_arith)
        requires
            4 * units(m) == 5 * p,
            d == 100 * p,
    ;
    lemma_nearest_of_units(m, d);
}

/// A quarter more of a number, over thirty thousand, is enough of a margin: thirty thousand times
/// that or more is above the number.
pub proof fn lemma_margin(x: Num, r: Num)
    requires
        Num::zero().lt(x),
        Num::ratio(1, 10_000).le(r),
        r.is_finite(),
        x.times(Num::ratio(125, 100)).over(Num::from_int(30_000)).le(r),
    ensures
        x.lt(r.times(Num::from_int(30_000))),
{
    let p = pow2(1074);
    let n = Num::from_int(30_000);
    lemma_pow2_pos(1074);
    lemma_one();
    lemma_whole_exact(30_000);
    lemma_whole_order(30_000, 30_000);
    lemma_ten_thousandth(r);
    lemma_ratio(1, 10_000);
    let ur = units(r.magnitude());
    let un = units(n.magnitude());
    assert(un == 30_000 * p);
    let z = ur * un;
    let exact = ur * 30_000;
    assert(z == exact * p) by (nonlinear_arith)
        requires
            z == ur * un,
            un == 30_000 * p,
            exact == ur * 30_000,
    ;
    lemma_nearest_bounded(z, p);
    lemma_signed(false, nearest(z, p));
    let product = r.times(n);
    assert(product.magnitude() == nearest(z, p) && !product.is_negative() && !product.is_nan())
        by {
        reveal(Num::spec_times);
    }
    if x.is_finite() && x.magnitude() < ONE {
        lemma_wide_powers();
        vstd::arithmetic::power2::lemma2_to64();
        lemma_pow2_adds(14, 1060);
        lemma_nearest_of_units(ONE as nat, p);
        assert(p * p * p <= z * p) by (nonlinear_arith)
            requires
                z == exact * p,
                exact >= p,
                p > 0,
        ;
        lemma_nearest_monotone(p * p, p, z, p);
    } else {
        lemma_margin_large(x, r);
        let k = x.magnitude();
        lemma_nearest_of_units(k + 1, p);
        let next = units(k + 1);
        assert(next * p * p <= z * p) by (nonlinear_arith)
            requires
                z == exact * p,
                exact >= next,
                p > 0,
        ;
        lemma_nearest_monotone(next * p, p, z, p);
    }
}

proof fn lemma_margin_large(x: Num, r: Num)
    requires
        Num::one().le(x),
        r.is_finite(),
        x.times(Num::ratio(125, 100)).over(Num::from_int(30_000)).le(r),
    ensures
        x.is_finite(),
        x.magnitude() + 1 < INF_MAGNITUDE,
        units(r.magnitude()) * 30_000 >= units(x.magnitude() + 1),
{
    let p = pow2(1074);
    let q = Num::ratio(125, 100);
    let n = Num::from_int(30_000);
    lemma_pow2_pos(1074);
    lemma_one();
    lemma_five_quarters();
    lemma_whole_exact(30_000);
    lemma_whole_order(30_000, 30_000);
    let y = x.times(q);
    let f = y.over(n);
    let un = units(n.magnitude());
    let uq = units(q.magnitude());
    assert(un == 30_000 * p);
    assert(units(0) == 0);
    assert(n.magnitude() > 0 && q.magnitude() > 0);
    if !x.is_finite() {
        assert(y == Num::infinity()) by {
            reveal(Num::spec_times);
        }
        assert(f == Num::infinity()) by {
            reveal(Num::spec_over);
        }
        assert(false);
    }
    let ux = units(x.magnitude());
    let my = nearest(ux * uq, p);
    lemma_nearest_bounded(ux * uq, p);
    lemma_signed(false, my);
    assert(y.magnitude() == my && !y.is_negative() && !y.is_nan()) by {
        reveal(Num::spec_times);
    }
    if my == INF_MAGNITUDE {
        assert(f == Num::infinity()) by {
            reveal(Num::spec_over);
        }
        assert(false);
    }
    lemma_order_of_values(Num::one(), x);
    assert(ux >= p);
    super::powers::lemma_pow2_le(52, 1074);
    lemma_wide_powers();
    let e = 5 * ux;
    assert(4 * (ux * uq) == e * p) by (nonlinear_arith)
        requires
            4 * uq == 5 * p,
            e == 5 * ux,
    ;
    let k = x.magnitude();
    if k + 1 >= INF_MAGNITUDE {
        let h = HIDDEN_BIT as nat;
        assert(k / h == 2046 && k % h == h - 1);
        let g = pow2(2045);
        lemma_pow2_pos(2045);
        lemma_pow2_adds(53, 2045);
        assert(ux == 0x1F_FFFF_FFFF_FFFF * g);
        assert(pow2(2098) == 0x20_0000_0000_0000 * g);
        assert(e >= 4 * pow2(2098)) by (nonlinear_arith)
            requires
                e == 5 * ux,
                ux == 0x1F_FFFF_FFFF_FFFF * g,
                pow2(2098) == 0x20_0000_0000_0000 * g,
                g > 0,
        ;
        assert(ux * uq >= pow2(2098) * p) by (nonlinear_arith)
            requires
                4 * (ux * uq) == e * p,
                e >= 4 * pow2(2098),
                p > 0,
        ;
        lemma_beyond_the_greatest(ux * uq, p);
        assert(false);
    }
    assert(ux * uq >= 16 * p) by (nonlinear_arith)
        requires
            4 * (ux * uq) == e * p,
            e >= 64,
            p > 0,
    ;
    lemma_nearest_close(ux * uq, p);
    let uy = units(my);
    assert(64 * uy >= 75 * ux) by (nonlinear_arith)
        requires
            16 * uy * p >= 15 * (ux * uq),
            4 * (ux * uq) == e * p,
            e == 5 * ux,
            p > 0,
    {
        assert((64 * uy) * p >= (15 * e) * p);
        assert(64 * uy >= 15 * e);
    }
    let mf = nearest(uy * p, un);
    lemma_nearest_bounded(uy * p, un);
    lemma_signed(false, mf);
    assert(f.magnitude() == mf && !f.is_negative() && !f.is_nan()) by {
        reveal(Num::spec_over);
    }
    assert(mf < INF_MAGNITUDE);
    assert(uy * p >= 16 * un) by (nonlinear_arith)
        requires
            un == 30_000 * p,
            uy >= 480_000,
            p > 0,
    ;
    lemma_nearest_close(uy * p, un);
    let uf = units(mf);
    assert(16 * (uf * 30_000) >= 15 * uy) by (nonlinear_arith)
        requires
            16 * uf * un >= 15 * (uy * p),
            un == 30_000 * p,
            p > 0,
    {
        assert(16 * uf * un == (16 * (uf * 30_000)) * p);
        assert(15 * (uy * p) == (15 * uy) * p);
    }
    lemma_order_of_values(f, r);
    lemma_grain(k);
}

/// A number of full precision times one above one is greater, and times one that is clearly below
/// one, smaller.
pub proof fn lemma_times_strict(a: Num, f: Num)
    requires
        a.is_positive(),
        a.bits >= HIDDEN_BIT,
    ensures
        Num::one().lt(f) ==> a.lt(a.times(f)),
        f.le(below_one()) ==> a.times(f).lt(a),
{
    reveal(Num::spec_times);
    lemma_one();
    lemma_pow2_pos(1074);
    lemma_pow2_pos(1022);
    lemma_wide_powers();
    lemma_pow2_adds(52, 1022);
    let p = pow2(1074);
    let t = pow2(1022);
    let k = a.magnitude();
    let ua = units(k);
    let uf = units(f.magnitude());
    if f.is_finite() {
        let r = nearest(ua * uf, p);
        lemma_nearest_bounded(ua * uf, p);
        lemma_signed(f.is_negative(), r);
        if Num::one().lt(f) {
            let above = (ONE + 1) as nat;
            lemma_grain(ONE as nat);
            assert(ONE as nat / (HIDDEN_BIT as nat) == 1023);
            assert(grain(ONE as nat) == t);
            if above < f.magnitude() {
                lemma_units_increase(above, f.magnitude());
            }
            if k + 1 < INF_MAGNITUDE {
                lemma_grain(k);
                let g = grain(k);
                assert(units(k + 1) * p <= ua * uf) by (nonlinear_arith)
                    requires
                        units(k + 1) == ua + g,
                        uf >= p + t,
                        p == 0x10_0000_0000_0000 * t,
                        ua >= 0x10_0000_0000_0000 * g,
                        t > 0,
                {
                    assert(ua * uf >= ua * p + ua * t);
                    assert(ua * t >= (0x10_0000_0000_0000 * g) * t);
                    assert((0x10_0000_0000_0000 * g) * t == g * p);
                    assert((ua + g) * p == ua * p + g * p);
                }
                lemma_nearest_of_units(k + 1, p);
                assert(units(k + 1) * p * p <= ua * uf * p) by (nonlinear_arith)
                    requires
                        units(k + 1) * p <= ua * uf,
                        p > 0,
                ;
                lemma_nearest_monotone(units(k + 1) * p, p, ua * uf, p);
            } else {
                let h = HIDDEN_BIT as nat;
                assert(k / h == 2046 && k % h == h - 1);
                let g = pow2(2045);
                lemma_pow2_pos(2045);
                lemma_pow2_adds(53, 2045);
                assert(ua == 0x1F_FFFF_FFFF_FFFF * g);
                assert(pow2(2098) * p <= ua * uf) by (nonlinear_arith)
                    requires
                        pow2(2098) == 0x20_0000_0000_0000 * g,
                        ua == 0x1F_FFFF_FFFF_FFFF * g,
                        uf >= p + t,
                        p == 0x10_0000_0000_0000 * t,
                        g > 0,
                        t > 0,
                {
                    assert(ua * uf >= ua * p + ua * t);
                    assert(ua * t >= (0x10_0000_0000_0000 * g) * t);
                    assert((0x10_0000_0000_0000 * g) * t == g * p);
                    assert(ua * p + g * p == (0x20_0000_0000_0000 * g) * p);
                }
                lemma_beyond_the_greatest(ua * uf, p);
            }
        }
        if f.le(below_one()) {
            if !f.is_negative() {
                lemma_below_one();
                lemma_order_of_values(f, below_one());
                let j = (k - 1) as nat;
                lemma_grain(j);
                let g = grain(j);
                assert(ua * uf <= units(j) * p) by (nonlinear_arith)
                    requires
                        ua == units(j) + g,
                        uf + t <= p,
                        p == 0x10_0000_0000_0000 * t,
                        ua >= 0x10_0000_0000_0000 * g,
                        t > 0,
                {
                    assert(ua * uf <= ua * (p - t));
                    assert(ua * (p - t) == ua * p - ua * t);
                    assert(ua * t >= (0x10_0000_0000_0000 * g) * t);
                    assert((0x10_0000_0000_0000 * g) * t == g * p);
                    assert((units(j) + g) * p == units(j) * p + g * p);
                }
                lemma_nearest_of_units(j, p);
                assert(ua * uf * p <= units(j) * p * p) by (nonlinear_arith)
                    requires
                        ua * uf <= units(j) * p,
                        p > 0,
                ;
                lemma_nearest_monotone(ua * uf, p, units(j) * p, p);
            }
        }
    }
}

/// A sum grows with its terms.
pub proof fn lemma_plus_monotone(a: Num, b: Num, c: Num)
    requires
        b.le(c),
        !a.plus(b).is_nan(),
        !a.plus(c).is_nan(),
    ensures
        a.plus(b).le(a.plus(c)),
{
    reveal(Num::spec_plus);
    lemma_signed(true, 0);
    if a.is_finite() && b.is_finite() && c.is_finite() {
        lemma_order_of_values(b, c);
        let x = a.value() + b.value();
        let y = a.value() + c.value();
        let ux = if x < 0 {
            -x
        } else {
            x
        };
        let uy = if y < 0 {
            -y
        } else {
            y
        };
        lemma_nearest_bounded(ux as nat, 1);
        lemma_nearest_bounded(uy as nat, 1);
        lemma_signed(x < 0, nearest(ux as nat, 1));
        lemma_signed(y < 0, nearest(uy as nat, 1));
        if x <= y {
            if 0 <= x {
                lemma_nearest_monotone(ux as nat, 1, uy as nat, 1);
                lemma_nearest_zero(1);
            } else if y <= 0 {
                lemma_nearest_monotone(uy as nat, 1, ux as nat, 1);
                lemma_nearest_zero(1);
            }
        }
    } else if a.is_finite() {
        if b.is_finite() {
            lemma_nearest_bounded(
                (if a.value() + b.value() < 0 {
                    -(a.value() + b.value())
                } else {
                    a.value() + b.value()
                }) as nat,
                1,
            );
        }
        if c.is_finite() {
            lemma_nearest_bounded(
                (if a.value() + c.value() < 0 {
                    -(a.value() + c.value())
                } else {
                    a.value() + c.value()
                }) as nat,
                1,
            );
        }
    }
}

/// A difference shrinks with what is subtracted.
pub proof fn lemma_minus_monotone(a: Num, b: Num, c: Num)
    requires
        b.le(c),
        !a.minus(b).is_nan(),
        !a.minus(c).is_nan(),
    ensures
        a.minus(c).le(a.minus(b)),
{
    lemma_signed(!b.is_negative(), b.magnitude());
    lemma_signed(!c.is_negative(), c.magnitude());
    lemma_plus_monotone(a, c.negated(), b.negated());
}

/// The order of terms does not matter.
pub proof fn lemma_plus_commutes(a: Num, b: Num)
    ensures
        a.plus(b) == b.plus(a),
{
    reveal(Num::spec_plus);
}

/// Zero times a finite number is zero, with the sign of that number.
pub proof fn lemma_zero_times(b: Num)
    requires
        b.is_finite(),
    ensures
        Num::zero().times(b).magnitude() == 0,
        !b.is_negative() ==> Num::zero().times(b) == Num::zero(),
{
    reveal(Num::spec_times);
    lemma_pow2_pos(1074);
    assert(units(0) * units(b.magnitude()) == 0) by (nonlinear_arith)
        requires
            units(0) == 0,
    ;
    lemma_nearest_zero(pow2(1074));
    lemma_signed(b.is_negative(), 0);
}

/// Subtracting zero changes nothing.
pub proof fn lemma_minus_zero(a: Num)
    requires
        a.is_finite(),
    ensures
        a.minus(Num::zero()).same(a),
{
    reveal(Num::spec_plus);
    lemma_signed(true, 0);
    lemma_nearest_of_units(a.magnitude(), 1);
    assert(units(a.magnitude()) * 1 == units(a.magnitude()));
    lemma_signed(a.is_negative(), a.magnitude());
    if a.magnitude() > 0 {
        lemma_units_increase(0, a.magnitude());
    }
}

/// A product with a number above zero grows with the other factor.
pub proof fn lemma_times_monotone(a: Num, b: Num, f: Num)
    requires
        a.le(b),
        f.is_positive(),
    ensures
        a.times(f).le(b.times(f)),
{
    reveal(Num::spec_times);
    lemma_pow2_pos(1074);
    let p = pow2(1074);
    let uf = units(f.magnitude());
    lemma_side(a, nearest(units(a.magnitude()) * uf, p));
    lemma_side(b, nearest(units(b.magnitude()) * uf, p));
    lemma_nearest_bounded(units(a.magnitude()) * uf, p);
    lemma_nearest_bounded(units(b.magnitude()) * uf, p);
    lemma_nearest_zero(p);
    assert(units(0) * uf == 0) by (nonlinear_arith)
        requires
            units(0) == 0,
    ;
    if a.is_finite() && b.is_finite() && a.magnitude() <= b.magnitude() {
        if a.magnitude() < b.magnitude() {
            lemma_units_increase(a.magnitude(), b.magnitude());
        }
        lemma_scaled_order(units(a.magnitude()), units(b.magnitude()), uf, p);
    }
    if a.is_finite() && b.is_finite() && b.magnitude() <= a.magnitude() {
        if b.magnitude() < a.magnitude() {
            lemma_units_increase(b.magnitude(), a.magnitude());
        }
        lemma_scaled_order(units(b.magnitude()), units(a.magnitude()), uf, p);
    }
}

/// A quotient by a number above zero grows with what is divided.
pub proof fn lemma_over_monotone(a: Num, b: Num, d: Num)
    requires
        a.le(b),
        d.is_positive(),
    ensures
        a.over(d).le(b.over(d)),
{
    reveal(Num::spec_over);
    lemma_pow2_pos(1074);
    let p = pow2(1074);
    let ud = units(d.magnitude());
    lemma_units_increase(0, d.magnitude());
    lemma_side(a, nearest(units(a.magnitude()) * p, ud));
    lemma_side(b, nearest(units(b.magnitude()) * p, ud));
    lemma_nearest_bounded(units(a.magnitude()) * p, ud);
    lemma_nearest_bounded(units(b.magnitude()) * p, ud);
    lemma_nearest_zero(ud);
    assert(units(0) * p == 0) by (nonlinear_arith)
        requires
            units(0) == 0,
    ;
    if a.is_finite() && b.is_finite() && a.magnitude() <= b.magnitude() {
        if a.magnitude() < b.magnitude() {
            lemma_units_increase(a.magnitude(), b.magnitude());
        }
        lemma_scaled_order(units(a.magnitude()), units(b.magnitude()), p, ud);
    }
    if a.is_finite() && b.is_finite() && b.magnitude() <= a.magnitude() {
        if b.magnitude() < a.magnitude() {
            lemma_units_increase(b.magnitude(), a.magnitude());
        }
        lemma_scaled_order(units(b.magnitude()), units(a.magnitude()), p, ud);
    }
}

proof fn lemma_side(x: Num, magnitude: nat)
    requires
        magnitude <= INF_MAGNITUDE,
    ensures
        Num::spec_signed(x.is_negative(), magnitude).magnitude() == magnitude,
        Num::spec_signed(x.is_negative(), magnitude).is_negative() == x.is_negative(),
        Num::spec_signed(x.is_negative(), INF_MAGNITUDE as nat).magnitude() == INF_MAGNITUDE,
        Num::spec_signed(x.is_negative(), INF_MAGNITUDE as nat).is_negative()
            == x.is_negative(),
{
    lemma_signed(x.is_negative(), magnitude);
    lemma_signed(x.is_negative(), INF_MAGNITUDE as nat);
}

proof fn lemma_scaled_order(x: nat, y: nat, f: nat, d: nat)
    requires
        x <= y,
        d > 0,
    ensures
        nearest(x * f, d) <= nearest(y * f, d),
{
    assert(x * f * d <= y * f * d) by (nonlinear_arith)
        requires
            x <= y,
    ;
    lemma_nearest_monotone(x * f, d, y * f, d);
}

/// The number nearest to a greater count is no smaller.
pub proof fn lemma_count_order(a: u64, b: u64)
    requires
        a <= b,
    ensures
        Num::from_count(a).le(Num::from_count(b)),
{
    reveal(Num::spec_from_count);
    let p = pow2(1074);
    lemma_scaled_order(a as nat, b as nat, p, 1);
    lemma_nearest_bounded(a as nat * p, 1);
    lemma_nearest_bounded(b as nat * p, 1);
    lemma_signed(false, nearest(a as nat * p, 1));
    lemma_signed(false, nearest(b as nat * p, 1));
}

/// A quotient of a number above zero shrinks as what it is divided by grows.
pub proof fn lemma_over_antitone(a: Num, b: Num, c: Num)
    requires
        a.is_positive(),
        Num::zero().lt(b),
        b.le(c),
    ensures
        a.over(c).le(a.over(b)),
{
    reveal(Num::spec_over);
    lemma_pow2_pos(1074);
    let p = pow2(1074);
    let ua = units(a.magnitude());
    let n = ua * p;
    if b.is_finite() {
        let ub = units(b.magnitude());
        lemma_units_increase(0, b.magnitude());
        lemma_nearest_bounded(n, ub);
        lemma_signed(false, nearest(n, ub));
        if c.is_finite() {
            let uc = units(c.magnitude());
            if b.magnitude() < c.magnitude() {
                lemma_units_increase(b.magnitude(), c.magnitude());
            }
            lemma_nearest_bounded(n, uc);
            lemma_signed(false, nearest(n, uc));
            assert(n * ub <= n * uc) by (nonlinear_arith)
                requires
                    ub <= uc,
            ;
            lemma_nearest_monotone(n, uc, n, ub);
        }
    }
}

/// Nothing over a number above zero is nothing.
pub proof fn lemma_zero_over(d: Num)
    requires
        d.is_positive(),
    ensures
        Num::zero().over(d) == Num::zero(),
{
    reveal(Num::spec_over);
    lemma_units_increase(0, d.magnitude());
    assert(units(0) * pow2(1074) == 0) by (nonlinear_arith)
        requires
            units(0) == 0,
    ;
    lemma_nearest_zero(units(d.magnitude()));
}

/// A finite number over one above zero stays on its side of zero.
pub proof fn lemma_over_keeps_side(a: Num, d: Num)
    requires
        a.is_finite(),
        Num::zero().lt(d),
    ensures
        !a.over(d).is_nan(),
        Num::zero().le(a) ==> Num::zero().le(a.over(d)),
        a.le(Num::zero()) ==> a.over(d).le(Num::zero()),
{
    if d.is_finite() {
        lemma_zero_over(d);
        if Num::zero().le(a) {
            lemma_over_monotone(Num::zero(), a, d);
        } else {
            lemma_over_monotone(a, Num::zero(), d);
        }
        if a.le(Num::zero()) {
            lemma_over_monotone(a, Num::zero(), d);
        }
    } else {
        reveal(Num::spec_over);
        lemma_signed(true, 0);
    }
}

/// A quotient of whole numbers that is at least one.
pub proof fn lemma_ratio_above_one(a: i64, b: i64)
    requires
        0 < b <= a < 0x20_0000_0000_0000,
    ensures
        Num::one().le(Num::ratio(a, b)),
        Num::ratio(a, b).is_finite(),
{
    lemma_ratio_order(1, 1, a, b);
    lemma_ratio_order(a, b, a, b);
    super::laws::lemma_whole_one();
    super::laws::lemma_quotient_at_least_one(Num::one(), Num::one());
}

/// A sum of numbers not below zero is at least each of them.
pub proof fn lemma_sum_grows(a: Num, b: Num)
    requires
        Num::zero().le(a),
        Num::zero().le(b),
    ensures
        a.le(a.plus(b)),
        b.le(a.plus(b)),
        Num::zero().le(a.plus(b)),
{
    lemma_plus_commutes(a, b);
    if a.is_finite() {
        super::laws::lemma_plus_grows(a, b);
    }
    if b.is_finite() {
        super::laws::lemma_plus_grows(b, a);
    }
    reveal(Num::spec_plus);
}

/// A sum of numbers not above zero is at most each of them.
pub proof fn lemma_sum_sinks(a: Num, b: Num)
    requires
        a.le(Num::zero()),
        b.le(Num::zero()),
    ensures
        a.plus(b).le(a),
        a.plus(b).le(b),
        a.plus(b).le(Num::zero()),
{
    reveal(Num::spec_plus);
    lemma_signed(true, 0);
    if a.is_finite() && b.is_finite() {
        lemma_order_of_values(a, Num::zero());
        lemma_order_of_values(b, Num::zero());
        let sum = a.value() + b.value();
        let n = (-sum) as nat;
        lemma_nearest_bounded(n, 1);
        lemma_signed(true, nearest(n, 1));
        let ua = units(a.magnitude());
        let ub = units(b.magnitude());
        lemma_nearest_of_units(a.magnitude(), 1);
        lemma_nearest_of_units(b.magnitude(), 1);
        assert(ua * 1 == ua && ub * 1 == ub);
        if a.magnitude() > 0 {
            lemma_units_increase(0, a.magnitude());
        }
        if b.magnitude() > 0 {
            lemma_units_increase(0, b.magnitude());
        }
        assert(ua <= n && ub <= n);
        lemma_nearest_monotone(ua, 1, n, 1);
        lemma_nearest_monotone(ub, 1, n, 1);
    }
}

/// A finite number times one above zero stays on its side of zero.
pub proof fn lemma_times_stays(a: Num, f: Num)
    requires
        a.is_finite() || (Num::zero().lt(f)),
        !a.is_nan(),
        f.is_positive(),
    ensures
        !a.times(f).is_nan(),
        Num::zero().le(a) ==> Num::zero().le(a.times(f)),
        a.le(Num::zero()) ==> a.times(f).le(Num::zero()),
        f.times(a) == a.times(f),
{
    lemma_times_commutes(a, f);
    lemma_zero_times(f);
    if Num::zero().le(a) {
        lemma_times_monotone(Num::zero(), a, f);
    } else {
        lemma_times_monotone(a, Num::zero(), f);
    }
    if a.le(Num::zero()) {
        lemma_times_monotone(a, Num::zero(), f);
    }
}

/// A finite number times three hundredths is finite, and that times nothing is nothing.
pub proof fn lemma_small_times_zero(x: Num)
    requires
        x.is_finite(),
    ensures
        Num::ratio(3, 100).times(x).times(Num::zero()).magnitude() == 0,
{
    lemma_ratio_order(3, 100, 1, 1);
    super::laws::lemma_whole_one();
    super::laws::lemma_quotient_at_most_one(Num::one(), Num::one());
    let y = Num::ratio(3, 100).times(x);
    lemma_times_commutes(Num::ratio(3, 100), x);
    lemma_shrunk_is_finite(x, Num::ratio(3, 100));
    lemma_times_commutes(y, Num::zero());
    lemma_zero_times(y);
}

proof fn lemma_shrunk_is_finite(x: Num, f: Num)
    requires
        x.is_finite(),
        f.is_positive(),
        f.le(Num::one()),
    ensures
        x.times(f).is_finite(),
{
    reveal(Num::spec_times);
    lemma_pow2_pos(1074);
    let m = x.magnitude();
    lemma_nearest_bounded(units(m) * units(f.magnitude()), pow2(1074));
    lemma_signed(x.is_negative(), nearest(units(m) * units(f.magnitude()), pow2(1074)));
    if m > 0 {
        let a = Num { bits: m as u64 };
        super::laws::lemma_times_shrinks(a, f);
        lemma_signed(false, nearest(units(m) * units(f.magnitude()), pow2(1074)));
    } else {
        assert(units(0) * units(f.magnitude()) == 0) by (nonlinear_arith)
            requires
                units(0) == 0,
        ;
        lemma_nearest_zero(pow2(1074));
    }
}

/// Twice a magnitude below half of the greatest one is a magnitude.
proof fn lemma_doubled(m: nat) -> (d: nat)
    requires
        m + HIDDEN_BIT < INF_MAGNITUDE,
    ensures
        d < INF_MAGNITUDE,
        units(d) == 2 * units(m),
{
    let h = HIDDEN_BIT as nat;
    lemma_wide_powers();
    vstd::arithmetic::power2::lemma2_to64();
    if m < h {
        let d = 2 * m;
        if d >= h {
            vstd::arithmetic::div_mod::lemma_fundamental_div_mod_converse(
                d as int,
                h as int,
                1,
                d - h,
            );
            assert(units(d) == d * pow2(0));
            assert(d * pow2(0) == d) by (nonlinear_arith)
                requires
                    pow2(0) == 1,
            ;
        }
        d
    } else {
        let d = m + h;
        let e = m / h;
        let f = m % h;
        vstd::arithmetic::div_mod::lemma_fundamental_div_mod(m as int, h as int);
        assert(d == (e + 1) * h + f) by (nonlinear_arith)
            requires
                m == h * e + f,
                d == m + h,
        ;
        vstd::arithmetic::div_mod::lemma_fundamental_div_mod_converse(
            d as int,
            h as int,
            (e + 1) as int,
            f as int,
        );
        assert(e >= 1) by (nonlinear_arith)
            requires
                m == h * e + f,
                m >= h,
                f < h,
        ;
        let p = pow2((e - 1) as nat);
        lemma_pow2_adds(1, (e - 1) as nat);
        assert(1 + (e - 1) == e);
        assert(units(d) == (h + f) * pow2(e));
        assert((h + f) * pow2(e) == 2 * ((h + f) * p)) by (nonlinear_arith)
            requires
                pow2(e) == 2 * p,
        ;
        d
    }
}

/// Half of twice a number is that number.
proof fn lemma_half_of_twice(a: Num)
    requires
        a.is_positive(),
        a.magnitude() + HIDDEN_BIT < INF_MAGNITUDE,
    ensures
        a.plus(a).is_finite(),
        a.plus(a).over(Num::from_int(2)) == a,
{
    reveal(Num::spec_plus);
    reveal(Num::spec_over);
    lemma_pow2_pos(1074);
    let p = pow2(1074);
    let m = a.magnitude();
    let two = Num::from_int(2);
    lemma_whole_exact(2);
    lemma_units_increase(0, m);
    let d = lemma_doubled(m);
    lemma_nearest_of_units(d, 1);
    assert(units(d) * 1 == units(d));
    lemma_signed(false, d);
    assert(a.plus(a).magnitude() == d && !a.plus(a).is_negative());
    lemma_whole_order(0, 2);
    lemma_whole_order(1, 2);
    assert(!two.is_negative() && units(two.magnitude()) == 2 * p);
    assert(two.magnitude() != 0);
    assert(units(d) * p == units(m) * (2 * p)) by (nonlinear_arith)
        requires
            units(d) == 2 * units(m),
    ;
    lemma_nearest_of_units(m, 2 * p);
    lemma_signed(false, m);
}

/// The middle of two numbers above zero lies between them.
pub proof fn lemma_middle_lies_between(a: Num, b: Num)
    requires
        a.is_positive(),
        a.le(b),
        b.magnitude() + HIDDEN_BIT < INF_MAGNITUDE,
    ensures
        a.le(a.plus(b).over(Num::from_int(2))),
        a.plus(b).over(Num::from_int(2)).le(b),
{
    let two = Num::from_int(2);
    lemma_whole_exact(2);
    lemma_whole_order(0, 2);
    lemma_whole_order(1, 2);
    lemma_pow2_pos(1074);
    assert(two.is_positive());
    lemma_half_of_twice(a);
    lemma_half_of_twice(b);
    assert(!a.plus(b).is_nan()) by {
        reveal(Num::spec_plus);
        let sum = a.value() + b.value();
        if sum > 0 {
            lemma_nearest_bounded(sum as nat, 1);
            lemma_signed(false, nearest(sum as nat, 1));
        }
    }
    lemma_plus_commutes(a, b);
    lemma_plus_monotone(a, a, b);
    lemma_plus_monotone(b, a, b);
    lemma_over_monotone(a.plus(a), a.plus(b), two);
    lemma_over_monotone(a.plus(b), b.plus(b), two);
}

/// Differences of either order have the same square, in whatever unit.
pub proof fn lemma_square_of_difference(a: Num, b: Num, unit: Num)
    ensures
        ({
            let x = a.minus(b);
            let y = b.minus(a);
            &&& x.times(x) == y.times(y)
            &&& x.over(unit).times(x.over(unit)) == y.over(unit).times(y.over(unit))
        }),
{
    let x = a.minus(b);
    let y = b.minus(a);
    if !a.is_nan() {
        lemma_signed(!a.is_negative(), a.magnitude());
    }
    if !b.is_nan() {
        lemma_signed(!b.is_negative(), b.magnitude());
    }
    assert(x.is_nan() == y.is_nan() && (!x.is_nan() ==> x.magnitude() == y.magnitude())) by {
        reveal(Num::spec_plus);
        if a.is_finite() && b.is_finite() {
            let d = a.value() - b.value();
            let u = (if d < 0 {
                -d
            } else {
                d
            }) as nat;
            lemma_nearest_bounded(u, 1);
            lemma_signed(true, nearest(u, 1));
            lemma_signed(false, nearest(u, 1));
            lemma_signed(true, 0);
            lemma_signed(false, 0);
        }
    }
    let p = x.over(unit);
    let q = y.over(unit);
    assert(p.is_nan() == q.is_nan() && (!p.is_nan() ==> p.magnitude() == q.magnitude())) by {
        reveal(Num::spec_over);
        lemma_pow2_pos(1074);
        if !x.is_nan() && x.is_finite() && unit.is_finite() && unit.magnitude() > 0 {
            lemma_units_increase(0, unit.magnitude());
            let n = nearest(units(x.magnitude()) * pow2(1074), units(unit.magnitude()));
            lemma_nearest_bounded(units(x.magnitude()) * pow2(1074), units(unit.magnitude()));
            lemma_signed(true, n);
            lemma_signed(false, n);
        }
        lemma_signed(true, INF_MAGNITUDE as nat);
        lemma_signed(false, INF_MAGNITUDE as nat);
        lemma_signed(true, 0);
        lemma_signed(false, 0);
    }
    reveal(Num::spec_times);
}

} // verus!
