//! Rounding of a non-negative rational to the nearest binary64 magnitude.
//!
//! Magnitudes are measured in units of 2^-1074, the smallest positive binary64 value, so every
//! finite magnitude is a whole number of units.

use super::powers::{
    bit_length, digits, lemma_bit_length_at_most, lemma_bit_length_bounds, lemma_bit_length_div,
    lemma_pow2_le, lemma_wide_powers, shl, shr,
};
use vstd::arithmetic::div_mod::{
    lemma_div_denominator, lemma_div_of0, lemma_fundamental_div_mod,
    lemma_fundamental_div_mod_converse, lemma_mod_bound,
};
use vstd::arithmetic::mul::lemma_mul_is_commutative;
use vstd::arithmetic::power2::{
    lemma2_to64, lemma_pow2_adds, lemma_pow2_pos, lemma_pow2_unfold, pow2,
};
use vstd::prelude::*;

verus! {

/// The magnitude bits of infinity: all exponent bits set, no fraction bit.
pub const INF_MAGNITUDE: u64 = 0x7FF0_0000_0000_0000;

/// The weight of the lowest exponent bit, and of the hidden bit of a significand.
pub const HIDDEN_BIT: u64 = 0x10_0000_0000_0000;

/// The value of magnitude bits below infinity, in units of 2^-1074.
pub open spec fn units(magnitude: nat) -> nat {
    if magnitude < HIDDEN_BIT {
        magnitude
    } else {
        (HIDDEN_BIT + magnitude % (HIDDEN_BIT as nat)) as nat * pow2(
            (magnitude / (HIDDEN_BIT as nat) - 1) as nat,
        )
    }
}

/// The exponent of the last place of a significand of 53 digits that starts at the first digit of
/// `q`, and at least zero.
pub open spec fn last_place(q: nat) -> nat {
    if bit_length(q) > 53 {
        (bit_length(q) - 53) as nat
    } else {
        0
    }
}

/// Whether `num / unit`, with the whole part `num / unit`, is rounded up to the next whole
/// number: above one half, or at one half from an odd whole part.
pub open spec fn rounds_up(num: nat, unit: nat) -> bool {
    let rest = num % unit;
    2 * rest > unit || (2 * rest == unit && (num / unit) % 2 == 1)
}

/// The magnitude bits of the binary64 value nearest to `num / den` units, ties to even; infinity
/// from the halfway point above the greatest finite value.
pub open spec fn nearest(num: nat, den: nat) -> nat {
    let place = last_place(num / den);
    let unit = den * pow2(place);
    let bits = place * (HIDDEN_BIT as nat) + num / unit + if rounds_up(num, unit) {
        1nat
    } else {
        0nat
    };
    if bits < INF_MAGNITUDE {
        bits
    } else {
        INF_MAGNITUDE as nat
    }
}

/// What is known of `num / den` through the whole part of `num / den * 2^-exp` and whether that
/// quotient has a rest.
pub open spec fn truncated(num: nat, den: nat, exp: int, sig: nat, rest: bool) -> bool {
    if exp >= 0 {
        &&& sig == num / (den * pow2(exp as nat))
        &&& rest == (num % (den * pow2(exp as nat)) != 0)
    } else {
        &&& sig == (num * pow2((-exp) as nat)) / den
        &&& rest == ((num * pow2((-exp) as nat)) % den != 0)
    }
}

proof fn lemma_scaled_division(a: int, b: int, m: int)
    requires
        a >= 0,
        b > 0,
        m > 0,
    ensures
        (a * m) / (b * m) == a / b,
        (a * m) % (b * m) == (a % b) * m,
{
    let q = a / b;
    let r = a % b;
    lemma_fundamental_div_mod(a, b);
    lemma_mod_bound(a, b);
    assert(a * m == q * (b * m) + r * m) by (nonlinear_arith)
        requires
            a == b * q + r,
    ;
    assert(0 <= r * m < b * m) by (nonlinear_arith)
        requires
            0 <= r < b,
            m > 0,
    ;
    lemma_fundamental_div_mod_converse(a * m, b * m, q, r * m);
}

/// Dividing in two steps: the whole part and the rest of `x / (y * p)` from those of `x / y`.
proof fn lemma_two_step_division(x: int, y: int, p: int)
    requires
        x >= 0,
        y > 0,
        p > 0,
    ensures
        y * p > 0,
        x / (y * p) == (x / y) / p,
        x % (y * p) == ((x / y) % p) * y + x % y,
{
    let s = x / y;
    let r = x % y;
    lemma_fundamental_div_mod(x, y);
    lemma_mod_bound(x, y);
    let n = s / p;
    let low = s % p;
    vstd::arithmetic::div_mod::lemma_div_pos_is_pos(x, y);
    lemma_fundamental_div_mod(s, p);
    lemma_mod_bound(s, p);
    assert(y * p > 0) by (nonlinear_arith)
        requires
            y > 0,
            p > 0,
    ;
    assert(x == n * (y * p) + (low * y + r)) by (nonlinear_arith)
        requires
            x == y * s + r,
            s == p * n + low,
    ;
    assert(0 <= low * y + r < y * p) by (nonlinear_arith)
        requires
            0 <= r < y,
            0 <= low <= p - 1,
    ;
    lemma_fundamental_div_mod_converse(x, y * p, n, low * y + r);
}

/// The last place of a quotient from its truncation.
proof fn lemma_place_of_truncated(num: nat, den: nat, exp: int, sig: nat, rest: bool)
    requires
        den > 0,
        truncated(num, den, exp, sig, rest),
        sig > 0,
    ensures
        bit_length(num / den) == if bit_length(sig) + exp > 0 {
            (bit_length(sig) + exp) as nat
        } else {
            0
        },
{
    lemma_bit_length_bounds(sig);
    if exp >= 0 {
        let k = exp as nat;
        lemma_pow2_pos(k);
        lemma_div_denominator(num as int, den as int, pow2(k) as int);
        assert(sig == (num / den) / pow2(k));
        lemma_bit_length_div(num / den, k);
    } else {
        let k = (-exp) as nat;
        lemma_pow2_pos(k);
        let m = pow2(k);
        // (num * m) / den / m == (num * m) / (den * m) == num / den
        lemma_div_denominator((num * m) as int, den as int, m as int);
        lemma_scaled_division(num as int, den as int, m as int);
        assert(num / den == sig / m);
        lemma_bit_length_div(sig, k);
    }
}

/// The whole part and the rest at the last place from a truncation with more digits.
proof fn lemma_round_from_truncated(
    num: nat,
    den: nat,
    exp: int,
    sig: nat,
    rest: bool,
    place: nat,
)
    requires
        den > 0,
        truncated(num, den, exp, sig, rest),
        exp <= place,
        exp == place ==> !rest,
    ensures
        ({
            let p = pow2((place - exp) as nat);
            let unit = den * pow2(place);
            &&& unit > 0
            &&& p > 0
            &&& num / unit == sig / p
            &&& 2 * (num % unit) > unit <==> 2 * (sig % p) > p || (2 * (sig % p) == p && rest)
            &&& 2 * (num % unit) == unit <==> 2 * (sig % p) == p && !rest
        }),
{
    let shift = (place - exp) as nat;
    let p = pow2(shift) as int;
    let unit = den * pow2(place);
    lemma_pow2_pos(shift);
    lemma_pow2_pos(place);
    assert(unit > 0) by (nonlinear_arith)
        requires
            unit == den * pow2(place),
            den > 0,
            pow2(place) > 0,
    ;
    // x / y is the scaled quotient, and scale * unit == y * p.
    let (x, y, scale) = if exp >= 0 {
        (num as int, (den * pow2(exp as nat)) as int, 1int)
    } else {
        ((num * pow2((-exp) as nat)) as int, den as int, pow2((-exp) as nat) as int)
    };
    if exp >= 0 {
        lemma_pow2_pos(exp as nat);
        lemma_pow2_adds(exp as nat, shift);
        assert(y * p == unit) by (nonlinear_arith)
            requires
                y == den * pow2(exp as nat),
                unit == den * pow2(place),
                pow2(place) == pow2(exp as nat) * p,
        ;
        assert(y > 0) by (nonlinear_arith)
            requires
                y == den * pow2(exp as nat),
                den > 0,
                pow2(exp as nat) > 0,
        ;
    } else {
        lemma_pow2_pos((-exp) as nat);
        lemma_pow2_adds(place, (-exp) as nat);
        assert(y * p == unit * scale) by (nonlinear_arith)
            requires
                y == den,
                unit == den * pow2(place),
                p == pow2(place) * scale,
        ;
        assert(x >= 0) by (nonlinear_arith)
            requires
                x == num * scale,
                scale > 0,
                num >= 0,
        ;
    }
    lemma_two_step_division(x, y, p);
    lemma_scaled_division(num as int, unit as int, scale);
    assert(x == num * scale);
    assert(y * p == unit * scale);
    let low = sig as int % p;
    let r = x % y;
    let wide = num as int % unit as int;
    lemma_mod_bound(x, y);
    lemma_mod_bound(sig as int, p);
    assert(wide * scale == low * y + r);
    assert(rest == (r != 0));
    if shift == 0 {
        lemma2_to64();
        assert(p == 1 && low == 0 && r == 0);
        assert(wide == 0) by (nonlinear_arith)
            requires
                wide * scale == 0,
                scale > 0,
        ;
    } else {
        lemma_pow2_unfold(shift);
        let half = pow2((shift - 1) as nat) as int;
        assert(p == 2 * half);
        if low > half {
            assert(2 * wide > unit) by (nonlinear_arith)
                requires
                    low >= half + 1,
                    p == 2 * half,
                    y > 0,
                    r >= 0,
                    scale > 0,
                    wide * scale == low * y + r,
                    y * p == unit * scale,
            ;
        } else if low < half {
            assert(2 * wide < unit) by (nonlinear_arith)
                requires
                    low <= half - 1,
                    p == 2 * half,
                    y > 0,
                    r < y,
                    scale > 0,
                    wide * scale == low * y + r,
                    y * p == unit * scale,
            ;
        } else {
            assert(r > 0 ==> 2 * wide > unit) by (nonlinear_arith)
                requires
                    low == half,
                    p == 2 * half,
                    y > 0,
                    scale > 0,
                    wide * scale == low * y + r,
                    y * p == unit * scale,
            ;
            assert(r == 0 ==> 2 * wide == unit) by (nonlinear_arith)
                requires
                    low == half,
                    p == 2 * half,
                    y > 0,
                    scale > 0,
                    wide * scale == low * y + r,
                    y * p == unit * scale,
            ;
        }
    }
}

/// An exact quotient with too few digits, brought to its last place.
proof fn lemma_exact_from_truncated(num: nat, den: nat, exp: int, sig: nat, place: nat)
    requires
        den > 0,
        truncated(num, den, exp, sig, false),
        place <= exp,
    ensures
        den * pow2(place) > 0,
        num / (den * pow2(place)) == sig * pow2((exp - place) as nat),
        num % (den * pow2(place)) == 0,
{
    let up = (exp - place) as nat;
    let unit = (den * pow2(place)) as int;
    let n = (sig * pow2(up)) as int;
    lemma_pow2_pos(place);
    lemma_pow2_pos(up);
    lemma_pow2_pos(exp as nat);
    lemma_pow2_adds(place, up);
    let wide = (den * pow2(exp as nat)) as int;
    assert(unit > 0) by (nonlinear_arith)
        requires
            unit == den * pow2(place),
            den > 0,
            pow2(place) > 0,
    ;
    assert(wide > 0) by (nonlinear_arith)
        requires
            wide == den * pow2(exp as nat),
            den > 0,
            pow2(exp as nat) > 0,
    ;
    lemma_fundamental_div_mod(num as int, wide);
    assert(num == n * unit) by (nonlinear_arith)
        requires
            num == wide * sig,
            wide == den * pow2(exp as nat),
            pow2(exp as nat) == pow2(place) * pow2(up),
            unit == den * pow2(place),
            n == sig * pow2(up),
    ;
    lemma_fundamental_div_mod_converse(num as int, unit, n, 0);
}

/// The magnitude nearest to `num / den` units, from a truncation of that quotient that has at
/// least 55 digits or no rest.
pub(crate) fn round_truncated(
    sig: u128,
    exp: i32,
    rest: bool,
    Ghost(num): Ghost<nat>,
    Ghost(den): Ghost<nat>,
) -> (r: u64)
    requires
        den > 0,
        truncated(num, den, exp as int, sig as nat, rest),
        sig < pow2(127),
        -100_000 <= exp <= 100_000,
        rest ==> sig >= pow2(54),
    ensures
        r == nearest(num, den),
        r <= INF_MAGNITUDE,
{
    proof {
        lemma_wide_powers();
        lemma2_to64();
    }
    if sig == 0 {
        proof {
            lemma_zero_from_truncated(num, den, exp as int);
            lemma_pow2_pos(0);
            assert(bit_length(0) == 0);
            assert(num / den == 0) by {
                lemma_div_of0(den as int);
            }
            assert(num / (den * pow2(0)) == 0 && num % (den * pow2(0)) == 0) by {
                assert(den * pow2(0) == den);
                lemma_div_of0(den as int);
                vstd::arithmetic::div_mod::lemma_small_mod(0, den);
            }
        }
        return 0;
    }
    let count = digits(sig);
    let ghost length = bit_length(sig as nat);
    proof {
        lemma_bit_length_bounds(sig as nat);
        lemma_bit_length_at_most(sig as nat, 127);
        lemma_place_of_truncated(num, den, exp as int, sig as nat, rest);
        if rest && length <= 54 {
            lemma_pow2_le(length, 54);
        }
    }
    let top: i32 = count as i32 + exp;
    let place: i32 = if top > 53 {
        top - 53
    } else {
        0
    };
    assert(place == last_place(num / den));
    let (whole, up) = if place <= exp {
        let k = (exp - place) as u32;
        proof {
            lemma_exact_from_truncated(num, den, exp as int, sig as nat, place as nat);
            lemma_small_shift(sig as nat, k as nat, 53);
            lemma_pow2_le(53, 128);
        }
        (shl(sig, k), false)
    } else {
        let k = (place - exp) as u32;
        proof {
            lemma_round_from_truncated(
                num,
                den,
                exp as int,
                sig as nat,
                rest,
                place as nat,
            );
        }
        if k > count {
            proof {
                lemma_pow2_le(length, (k - 1) as nat);
                lemma_pow2_unfold(k as nat);
                vstd::arithmetic::div_mod::lemma_basic_div(sig as int, pow2(k as nat) as int);
                vstd::arithmetic::div_mod::lemma_small_mod(sig as nat, pow2(k as nat));
            }
            (0u128, false)
        } else {
            let n = shr(sig, k);
            proof {
                lemma_fundamental_div_mod(sig as int, pow2(k as nat) as int);
                lemma_mod_bound(sig as int, pow2(k as nat) as int);
                lemma_pow2_le(k as nat, 127);
                lemma_mul_is_commutative(n as int, pow2(k as nat) as int);
                lemma_bit_length_div(sig as nat, k as nat);
                lemma_bit_length_fits(n as nat, 53);
                lemma_pow2_unfold(k as nat);
            }
            let base = shl(n, k);
            let low = sig - base;
            let half = shl(1, k - 1);
            (n, low > half || (low == half && (rest || n % 2 == 1)))
        }
    };
    proof {
        let unit = den * pow2(place as nat);
        assert(whole == num / unit);
        assert(up == rounds_up(num, unit));
        assert(whole <= pow2(53)) by {
            if place <= exp {
            } else {
            }
        }
    }
    if place >= 2047 {
        assert(place * HIDDEN_BIT >= INF_MAGNITUDE);
        return INF_MAGNITUDE;
    }
    let bits: u64 = (place as u64) * HIDDEN_BIT + whole as u64 + if up {
        1
    } else {
        0
    };
    if bits < INF_MAGNITUDE {
        bits
    } else {
        INF_MAGNITUDE
    }
}

proof fn lemma_zero_from_truncated(num: nat, den: nat, exp: int)
    requires
        den > 0,
        truncated(num, den, exp, 0, false),
    ensures
        num == 0,
{
    if exp >= 0 {
        lemma_pow2_pos(exp as nat);
        let wide = (den * pow2(exp as nat)) as int;
        assert(wide > 0) by (nonlinear_arith)
            requires
                wide == den * pow2(exp as nat),
                den > 0,
                pow2(exp as nat) > 0,
        ;
        lemma_fundamental_div_mod(num as int, wide);
        assert(wide * 0 == 0);
    } else {
        let m = pow2((-exp) as nat);
        lemma_pow2_pos((-exp) as nat);
        lemma_fundamental_div_mod((num * m) as int, den as int);
        assert(num == 0) by (nonlinear_arith)
            requires
                num * m == 0,
                m > 0,
        ;
    }
}

/// A number with at most `b` digits is below `2^b`.
pub proof fn lemma_bit_length_fits(q: nat, b: nat)
    requires
        bit_length(q) <= b,
    ensures
        q < pow2(b),
{
    lemma_pow2_pos(b);
    if q > 0 {
        lemma_bit_length_bounds(q);
        lemma_pow2_le(bit_length(q), b);
    }
}

proof fn lemma_small_shift(sig: nat, k: nat, b: nat)
    requires
        sig > 0,
        bit_length(sig) + k <= b,
    ensures
        sig * pow2(k) < pow2(b),
        k < b,
{
    super::powers::lemma_bit_length_mul(sig, k);
    lemma_bit_length_bounds(sig);
    lemma_bit_length_fits(sig * pow2(k), b);
}

/// Scaling both terms of a quotient does not move it.
pub proof fn lemma_nearest_scaled(num: nat, den: nat, m: nat)
    requires
        den > 0,
        m > 0,
    ensures
        den * m > 0,
        nearest(num * m, den * m) == nearest(num, den),
{
    lemma_scaled_division(num as int, den as int, m as int);
    let place = last_place(num / den);
    let p = pow2(place);
    lemma_pow2_pos(place);
    let unit = den * p;
    assert(unit > 0 && den * m > 0) by (nonlinear_arith)
        requires
            unit == den * p,
            den > 0,
            p > 0,
            m > 0,
    ;
    assert((den * m) * p == unit * m) by (nonlinear_arith)
        requires
            unit == den * p,
    ;
    lemma_scaled_division(num as int, unit as int, m as int);
    let rest = num % unit;
    assert(2 * (rest * m) > unit * m <==> 2 * rest > unit) by (nonlinear_arith)
        requires
            m > 0,
    ;
    assert(2 * (rest * m) == unit * m <==> 2 * rest == unit) by (nonlinear_arith)
        requires
            m > 0,
    ;
}

/// The whole part at the last place has at most 53 digits, and exactly 53 above the lowest place.
proof fn lemma_whole_bounds(num: nat, den: nat)
    requires
        den > 0,
    ensures
        ({
            let place = last_place(num / den);
            let unit = den * pow2(place);
            &&& unit > 0
            &&& num / unit < 2 * HIDDEN_BIT
            &&& place > 0 ==> num / unit >= HIDDEN_BIT
        }),
{
    lemma_wide_powers();
    let q = num / den;
    let place = last_place(q);
    let p = pow2(place);
    lemma_pow2_pos(place);
    let unit = den * p;
    assert(unit > 0) by (nonlinear_arith)
        requires
            unit == den * p,
            den > 0,
            p > 0,
    ;
    lemma_div_denominator(num as int, den as int, p as int);
    lemma_bit_length_div(q, place);
    let n = num / unit;
    if q > 0 {
        lemma_bit_length_bounds(q);
    }
    lemma_bit_length_fits(n, 53);
    if place > 0 {
        if n == 0 {
            assert(bit_length(0) == 0);
        } else {
            lemma_bit_length_bounds(n);
        }
    }
}

proof fn lemma_bit_length_monotone(a: nat, b: nat)
    requires
        a <= b,
    ensures
        bit_length(a) <= bit_length(b),
{
    if b > 0 {
        lemma_bit_length_bounds(b);
        lemma_bit_length_at_most(a, bit_length(b));
    }
}

proof fn lemma_nearest_monotone_same(a: nat, b: nat, den: nat)
    requires
        den > 0,
        a <= b,
    ensures
        nearest(a, den) <= nearest(b, den),
{
    vstd::arithmetic::div_mod::lemma_div_is_ordered(a as int, b as int, den as int);
    lemma_bit_length_monotone(a / den, b / den);
    let pa = last_place(a / den);
    let pb = last_place(b / den);
    lemma_whole_bounds(a, den);
    lemma_whole_bounds(b, den);
    if pa == pb {
        let unit = (den * pow2(pa)) as int;
        vstd::arithmetic::div_mod::lemma_div_is_ordered(a as int, b as int, unit);
        lemma_fundamental_div_mod(a as int, unit);
        lemma_fundamental_div_mod(b as int, unit);
    } else {
        assert(pa * HIDDEN_BIT + HIDDEN_BIT <= pb * HIDDEN_BIT) by (nonlinear_arith)
            requires
                pa + 1 <= pb,
        ;
    }
}

/// Rounding keeps the order of quotients.
pub proof fn lemma_nearest_monotone(a: nat, da: nat, b: nat, db: nat)
    requires
        da > 0,
        db > 0,
        a * db <= b * da,
    ensures
        nearest(a, da) <= nearest(b, db),
{
    lemma_nearest_scaled(a, da, db);
    lemma_nearest_scaled(b, db, da);
    lemma_mul_is_commutative(da as int, db as int);
    lemma_nearest_monotone_same(a * db, b * da, da * db);
}

/// A finite magnitude is nearest to its own value.
pub proof fn lemma_nearest_of_units(magnitude: nat, den: nat)
    requires
        magnitude < INF_MAGNITUDE,
        den > 0,
    ensures
        nearest(units(magnitude) * den, den) == magnitude,
{
    lemma_wide_powers();
    lemma2_to64();
    let u = units(magnitude);
    lemma_nearest_scaled(u, 1, den);
    assert(1 * den == den);
    let (sig, place) = if magnitude < HIDDEN_BIT {
        (magnitude, 0nat)
    } else {
        (
            (HIDDEN_BIT + magnitude % (HIDDEN_BIT as nat)) as nat,
            (magnitude / (HIDDEN_BIT as nat) - 1) as nat,
        )
    };
    let p = pow2(place);
    lemma_pow2_pos(place);
    if magnitude < HIDDEN_BIT {
        assert(sig * p == sig) by (nonlinear_arith)
            requires
                p == 1,
        ;
    }
    assert(u == sig * p);
    assert(u / 1 == u);
    if magnitude < HIDDEN_BIT {
        lemma_bit_length_at_most(u, 52);
    } else {
        super::powers::lemma_bit_length_unique(sig, 53);
        super::powers::lemma_bit_length_mul(sig, place);
    }
    assert(last_place(u) == place);
    assert(1 * p == p);
    lemma_fundamental_div_mod_converse(u as int, p as int, sig as int, 0);
}

/// A greater magnitude has a greater value.
pub proof fn lemma_units_increase(a: nat, b: nat)
    requires
        a < b < INF_MAGNITUDE,
    ensures
        units(a) < units(b),
{
    if units(b) <= units(a) {
        assert(units(b) * 1 <= units(a) * 1);
        lemma_nearest_monotone(units(b), 1, units(a), 1);
        lemma_nearest_of_units(a, 1);
        lemma_nearest_of_units(b, 1);
        assert(units(b) * 1 == units(b) && units(a) * 1 == units(a));
    }
}

} // verus!
