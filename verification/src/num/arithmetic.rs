//! The correctly rounded operations.

use super::powers::{digits, lemma_bit_length_bounds, lemma_pow2_le, lemma_wide_powers, shl, shr};
use super::round::{
    lemma_bit_length_fits, nearest, round_truncated, truncated, units, HIDDEN_BIT, INF_MAGNITUDE,
};
use super::{capped, Num, NAN_BITS};
use vstd::arithmetic::div_mod::{
    lemma_fundamental_div_mod, lemma_fundamental_div_mod_converse, lemma_mod_bound,
};
use vstd::arithmetic::mul::lemma_mul_is_commutative;
use vstd::arithmetic::power2::{lemma2_to64, lemma_pow2_adds, lemma_pow2_pos, pow2};
use vstd::prelude::*;

verus! {

/// A quotient truncated after scaling both of its terms.
proof fn lemma_truncated_scaled(num: nat, den: nat, exp: int, x: nat, y: nat, c: nat)
    requires
        y > 0,
        c > 0,
        exp >= 0 ==> num == x * c && den * pow2(exp as nat) == y * c,
        exp < 0 ==> num * pow2((-exp) as nat) == x * c && den == y * c,
    ensures
        truncated(num, den, exp, x / y, x % y != 0),
{
    let q = x / y;
    let r = x % y;
    lemma_fundamental_div_mod(x as int, y as int);
    lemma_mod_bound(x as int, y as int);
    assert(x * c == q * (y * c) + r * c) by (nonlinear_arith)
        requires
            x == y * q + r,
    ;
    assert(0 <= r * c < y * c) by (nonlinear_arith)
        requires
            0 <= r < y,
            c > 0,
    ;
    lemma_fundamental_div_mod_converse((x * c) as int, (y * c) as int, q as int, (r * c) as int);
    assert((r * c != 0) == (r != 0)) by (nonlinear_arith)
        requires
            c > 0,
    ;
}

/// The significand and the exponent of finite magnitude bits.
pub(crate) fn split(magnitude: u64) -> (r: (u64, u32))
    requires
        magnitude < INF_MAGNITUDE,
    ensures
        units(magnitude as nat) == r.0 * pow2(r.1 as nat),
        r.0 < pow2(53),
        r.1 <= 2045,
        r.1 > 0 ==> r.0 >= pow2(52),
        magnitude == 0 <==> r.0 == 0,
        r.1 == if magnitude < HIDDEN_BIT {
            0
        } else {
            (magnitude as nat / (HIDDEN_BIT as nat) - 1) as int
        },
{
    proof {
        lemma_wide_powers();
        lemma2_to64();
    }
    if magnitude < HIDDEN_BIT {
        assert(magnitude * pow2(0) == magnitude);
        (magnitude, 0)
    } else {
        (HIDDEN_BIT + magnitude % HIDDEN_BIT, (magnitude / HIDDEN_BIT - 1) as u32)
    }
}

pub(crate) proof fn lemma_pow2_three(a: nat, b: nat, c: nat)
    ensures
        pow2(a) * pow2(b) * pow2(c) == pow2(a + b + c),
{
    lemma_pow2_adds(a, b);
    lemma_pow2_adds(a + b, c);
}

/// The exact product, rounded.
pub(crate) fn product(a: Num, b: Num) -> (r: Num)
    ensures
        r == a.spec_times(b),
{
    proof {
        reveal(Num::spec_times);
        lemma_wide_powers();
    }
    let negative = a.is_negative() != b.is_negative();
    let x = a.magnitude_bits();
    let y = b.magnitude_bits();
    if x > INF_MAGNITUDE || y > INF_MAGNITUDE {
        return Num { bits: NAN_BITS };
    }
    if x == INF_MAGNITUDE || y == INF_MAGNITUDE {
        if x == 0 || y == 0 {
            return Num { bits: NAN_BITS };
        }
        return Num::signed(negative, INF_MAGNITUDE);
    }
    let (sa, ea) = split(x);
    let (sb, eb) = split(y);
    let ghost num = units(x as nat) * units(y as nat);
    let ghost den = pow2(1074);
    let exp: i32 = ea as i32 + eb as i32 - 1074;
    assert(sa * sb < pow2(53) * pow2(53)) by (nonlinear_arith)
        requires
            0 <= sa < pow2(53),
            0 <= sb < pow2(53),
    ;
    proof {
        lemma_pow2_adds(53, 53);
        lemma_pow2_le(106, 127);
        lemma_pow2_pos(1074);
    }
    let sig: u128 = sa as u128 * sb as u128;
    proof {
        let s = sig as nat;
        assert(num == s * (pow2(ea as nat) * pow2(eb as nat))) by (nonlinear_arith)
            requires
                num == (sa * pow2(ea as nat)) * (sb * pow2(eb as nat)),
                s == sa * sb,
        ;
        lemma_pow2_adds(ea as nat, eb as nat);
        if exp >= 0 {
            lemma_pow2_adds(1074, exp as nat);
            lemma_pow2_pos((ea + eb) as nat);
            let c = pow2((ea + eb) as nat);
            assert(1 * c == c);
            lemma_truncated_scaled(num, den, exp as int, s, 1, c);
        } else {
            let k = (-exp) as nat;
            lemma_pow2_adds((ea + eb) as nat, k);
            assert(num * pow2(k) == s * den) by (nonlinear_arith)
                requires
                    num == s * pow2((ea + eb) as nat),
                    pow2((ea + eb) as nat) * pow2(k) == den,
            ;
            assert(1 * den == den);
            lemma_truncated_scaled(num, den, exp as int, s, 1, den);
        }
        assert(s / 1 == s && s % 1 == 0);
    }
    let m = round_truncated(sig, exp, false, Ghost(num), Ghost(den));
    Num::signed(negative, m)
}

/// The exact quotient, rounded.
pub(crate) fn quotient(a: Num, b: Num) -> (r: Num)
    ensures
        r == a.spec_over(b),
{
    proof {
        reveal(Num::spec_over);
        lemma_wide_powers();
    }
    let negative = a.is_negative() != b.is_negative();
    let x = a.magnitude_bits();
    let y = b.magnitude_bits();
    if x > INF_MAGNITUDE || y > INF_MAGNITUDE {
        return Num { bits: NAN_BITS };
    }
    if x == INF_MAGNITUDE {
        if y == INF_MAGNITUDE {
            return Num { bits: NAN_BITS };
        }
        return Num::signed(negative, INF_MAGNITUDE);
    }
    if y == INF_MAGNITUDE {
        return Num::signed(negative, 0);
    }
    if y == 0 {
        if x == 0 {
            return Num { bits: NAN_BITS };
        }
        return Num::signed(negative, INF_MAGNITUDE);
    }
    let (sa, ea) = split(x);
    let (sb, eb) = split(y);
    let ghost num = units(x as nat) * pow2(1074);
    let ghost den = units(y as nat);
    let count = digits(sa as u128);
    proof {
        super::powers::lemma_bit_length_at_most(sa as nat, 53);
    }
    let k = 127 - count;
    proof {
        if sa > 0 {
            super::powers::lemma_bit_length_mul(sa as nat, k as nat);
            lemma_bit_length_fits(sa as nat * pow2(k as nat), 127);
            lemma_bit_length_bounds(sa as nat * pow2(k as nat));
        } else {
            assert(sa * pow2(k as nat) == 0) by (nonlinear_arith)
                requires
                    sa == 0,
            ;
        }
    }
    let wide = shl(sa as u128, k);
    let exp: i32 = ea as i32 + 1074 - eb as i32 - k as i32;
    let sig = wide / (sb as u128);
    let rest = wide % (sb as u128) != 0;
    proof {
        lemma_pow2_pos(eb as nat);
        let d = pow2(eb as nat);
        assert(den > 0) by (nonlinear_arith)
            requires
                den == sb * d,
                sb > 0,
                d > 0,
        ;
        let wn = wide as nat;
        let sbn = sb as nat;
        if exp >= 0 {
            let c = pow2((ea + 1074 - k) as nat);
            lemma_pow2_pos((ea + 1074 - k) as nat);
            lemma_pow2_adds(ea as nat, 1074);
            lemma_pow2_adds(k as nat, (ea + 1074 - k) as nat);
            lemma_pow2_adds(eb as nat, exp as nat);
            assert(num == wn * c) by (nonlinear_arith)
                requires
                    num == (sa * pow2(ea as nat)) * pow2(1074),
                    pow2(ea as nat) * pow2(1074) == pow2(k as nat) * c,
                    wn == sa * pow2(k as nat),
            ;
            assert(den * pow2(exp as nat) == sbn * c) by (nonlinear_arith)
                requires
                    den == sbn * pow2(eb as nat),
                    pow2(eb as nat) * pow2(exp as nat) == c,
            ;
            lemma_truncated_scaled(num, den, exp as int, wn, sbn, c);
        } else {
            let j = (-exp) as nat;
            lemma_pow2_three(ea as nat, 1074, j);
            lemma_pow2_adds(k as nat, eb as nat);
            assert(num * pow2(j) == wn * d) by (nonlinear_arith)
                requires
                    num == (sa * pow2(ea as nat)) * pow2(1074),
                    pow2(ea as nat) * pow2(1074) * pow2(j) == pow2(k as nat) * d,
                    wn == sa * pow2(k as nat),
            ;
            lemma_truncated_scaled(num, den, exp as int, wn, sbn, d);
        }
        if rest {
            assert(sa > 0) by {
                if sa == 0 {
                    assert(wide == 0);
                    assert(0nat % sbn == 0) by {
                        vstd::arithmetic::div_mod::lemma_small_mod(0, sbn);
                    }
                }
            }
            assert(wn >= pow2(126));
            lemma_pow2_adds(73, 53);
            assert(wn >= pow2(73) * sbn) by (nonlinear_arith)
                requires
                    wn >= pow2(73) * pow2(53),
                    sbn <= pow2(53),
            ;
            vstd::arithmetic::div_mod::lemma_div_multiples_vanish(pow2(73) as int, sbn as int);
            lemma_mul_is_commutative(pow2(73) as int, sbn as int);
            vstd::arithmetic::div_mod::lemma_div_is_ordered(
                (sbn * pow2(73)) as int,
                wn as int,
                sbn as int,
            );
            lemma_pow2_le(54, 73);
        }
        vstd::arithmetic::div_mod::lemma_div_nonincreasing(wn as int, sbn as int);
    }
    let m = round_truncated(sig, exp, rest, Ghost(num), Ghost(den));
    Num::signed(negative, m)
}

/// The whole part of `s / 2^k`, and whether there is a rest.
fn tail(s: u64, k: u32) -> (r: (u128, bool))
    requires
        s < pow2(53),
    ensures
        r.0 == s as nat / pow2(k as nat),
        r.1 == (s as nat % pow2(k as nat) != 0),
        r.0 <= s,
{
    proof {
        lemma_pow2_pos(k as nat);
        lemma_fundamental_div_mod(s as int, pow2(k as nat) as int);
        lemma_mod_bound(s as int, pow2(k as nat) as int);
        vstd::arithmetic::div_mod::lemma_div_nonincreasing(s as int, pow2(k as nat) as int);
        lemma_wide_powers();
    }
    if k >= 53 {
        proof {
            lemma_pow2_le(53, k as nat);
            vstd::arithmetic::div_mod::lemma_basic_div(s as int, pow2(k as nat) as int);
            vstd::arithmetic::div_mod::lemma_small_mod(s as nat, pow2(k as nat));
        }
        (0, s != 0)
    } else {
        let q = shr(s as u128, k);
        proof {
            assert(q * pow2(k as nat) <= s) by {
                lemma_mul_is_commutative(q as int, pow2(k as nat) as int);
            }
            lemma_pow2_le(53, 128);
        }
        let base = shl(q, k);
        (q, base != s as u128)
    }
}

/// The magnitude of the sum of two magnitudes, of which the first is not the smaller.
fn sum_magnitude(x: u64, y: u64) -> (r: u64)
    requires
        y <= x < INF_MAGNITUDE,
    ensures
        r == nearest(units(x as nat) + units(y as nat), 1),
        r <= INF_MAGNITUDE,
{
    proof {
        lemma_wide_powers();
    }
    let (sa, ea) = split(x);
    let (sb, eb) = split(y);
    let ghost num = units(x as nat) + units(y as nat);
    let d = ea - eb;
    proof {
        lemma_pow2_adds(eb as nat, d as nat);
        lemma_pow2_pos(eb as nat);
        lemma_pow2_pos(d as nat);
    }
    let ghost c = pow2(eb as nat);
    let ghost full = (sa * pow2(d as nat) + sb) as nat;
    assert(num == full * c) by (nonlinear_arith)
        requires
            num == sa * pow2(ea as nat) + sb * c,
            pow2(ea as nat) == c * pow2(d as nat),
            full == sa * pow2(d as nat) + sb,
    ;
    if d <= 73 {
        proof {
            lemma_pow2_le(d as nat, 73);
            lemma_pow2_adds(53, 73);
            assert(sa * pow2(d as nat) < pow2(126)) by (nonlinear_arith)
                requires
                    sa < pow2(53),
                    pow2(d as nat) <= pow2(73),
                    pow2(53) * pow2(73) == pow2(126),
                    0 < pow2(d as nat),
            ;
        }
        let sig = shl(sa as u128, d) + sb as u128;
        proof {
            assert(1 * c == c);
            lemma_truncated_scaled(num, 1, eb as int, full, 1, c);
            assert(full / 1 == full && full % 1 == 0);
        }
        round_truncated(sig, eb as i32, false, Ghost(num), Ghost(1))
    } else {
        let s = d - 73;
        let (q, rest) = tail(sb, s);
        proof {
            lemma_pow2_adds(73, s as nat);
            lemma_pow2_adds(eb as nat, s as nat);
            lemma_pow2_pos(s as nat);
            lemma_pow2_adds(53, 73);
            assert(sa * pow2(73) < pow2(126)) by (nonlinear_arith)
                requires
                    sa < pow2(53),
                    pow2(53) * pow2(73) == pow2(126),
                    0 < pow2(73),
            ;
            assert(sa * pow2(73) >= pow2(73)) by (nonlinear_arith)
                requires
                    sa >= 1,
            ;
            lemma_pow2_le(54, 73);
        }
        let sig = shl(sa as u128, 73) + q;
        proof {
            let p = pow2(s as nat);
            lemma_fundamental_div_mod(sb as int, p as int);
            lemma_mod_bound(sb as int, p as int);
            let r = sb as nat % p;
            assert(full == sig * p + r) by (nonlinear_arith)
                requires
                    full == sa * pow2(d as nat) + sb,
                    pow2(d as nat) == pow2(73) * p,
                    sb == p * q + r,
                    sig == sa * pow2(73) + q,
            ;
            lemma_fundamental_div_mod_converse(full as int, p as int, sig as int, r as int);
            assert(1 * pow2((eb + s) as nat) == p * c) by (nonlinear_arith)
                requires
                    pow2((eb + s) as nat) == c * p,
            ;
            lemma_truncated_scaled(num, 1, (eb + s) as int, full, p, c);
        }
        round_truncated(sig, (eb + s) as i32, rest, Ghost(num), Ghost(1))
    }
}

/// The magnitude of the difference of two magnitudes, of which the first is the greater.
fn difference_magnitude(x: u64, y: u64) -> (r: u64)
    requires
        y < x < INF_MAGNITUDE,
        units(y as nat) < units(x as nat),
    ensures
        r == nearest((units(x as nat) - units(y as nat)) as nat, 1),
        r <= INF_MAGNITUDE,
{
    proof {
        lemma_wide_powers();
    }
    let (sa, ea) = split(x);
    let (sb, eb) = split(y);
    let ghost num = (units(x as nat) - units(y as nat)) as nat;
    let d = ea - eb;
    proof {
        lemma_pow2_adds(eb as nat, d as nat);
        lemma_pow2_pos(eb as nat);
        lemma_pow2_pos(d as nat);
    }
    let ghost c = pow2(eb as nat);
    let ghost full = sa * pow2(d as nat) - sb;
    assert(num == full * c && full > 0) by (nonlinear_arith)
        requires
            num == sa * pow2(ea as nat) - sb * c,
            num > 0,
            c > 0,
            pow2(ea as nat) == c * pow2(d as nat),
            full == sa * pow2(d as nat) - sb,
    ;
    if d <= 73 {
        proof {
            lemma_pow2_le(d as nat, 73);
            lemma_pow2_adds(53, 73);
            assert(sa * pow2(d as nat) < pow2(126)) by (nonlinear_arith)
                requires
                    sa < pow2(53),
                    pow2(d as nat) <= pow2(73),
                    pow2(53) * pow2(73) == pow2(126),
                    0 < pow2(d as nat),
            ;
        }
        let sig = shl(sa as u128, d) - sb as u128;
        proof {
            assert(1 * c == c);
            lemma_truncated_scaled(num, 1, eb as int, full as nat, 1, c);
            assert(full / 1 == full && full % 1 == 0);
        }
        round_truncated(sig, eb as i32, false, Ghost(num), Ghost(1))
    } else {
        let s = d - 73;
        let (q, rest) = tail(sb, s);
        proof {
            lemma_pow2_adds(73, s as nat);
            lemma_pow2_adds(eb as nat, s as nat);
            lemma_pow2_pos(s as nat);
            lemma_pow2_adds(53, 73);
            lemma_pow2_adds(52, 73);
            assert(sa * pow2(73) < pow2(126)) by (nonlinear_arith)
                requires
                    sa < pow2(53),
                    pow2(53) * pow2(73) == pow2(126),
                    0 < pow2(73),
            ;
            assert(sa * pow2(73) >= pow2(125)) by (nonlinear_arith)
                requires
                    sa >= pow2(52),
                    pow2(52) * pow2(73) == pow2(125),
            ;
            lemma_pow2_adds(1, 53);
            lemma_pow2_le(56, 125);
            lemma2_to64();
        }
        let sig = if rest {
            shl(sa as u128, 73) - q - 1
        } else {
            shl(sa as u128, 73) - q
        };
        proof {
            let p = pow2(s as nat);
            lemma_fundamental_div_mod(sb as int, p as int);
            lemma_mod_bound(sb as int, p as int);
            let r = sb as int % p as int;
            let back = if rest {
                p - r
            } else {
                0int
            };
            assert(full == sig * p + back) by (nonlinear_arith)
                requires
                    full == sa * pow2(d as nat) - sb,
                    pow2(d as nat) == pow2(73) * p,
                    sb == p * q + r,
                    rest ==> sig == sa * pow2(73) - q - 1 && back == p - r,
                    !rest ==> sig == sa * pow2(73) - q && back == 0 && r == 0,
            ;
            lemma_fundamental_div_mod_converse(full as int, p as int, sig as int, back);
            assert(1 * pow2((eb + s) as nat) == p * c) by (nonlinear_arith)
                requires
                    pow2((eb + s) as nat) == c * p,
            ;
            lemma_truncated_scaled(num, 1, (eb + s) as int, full as nat, p, c);
        }
        round_truncated(sig, (eb + s) as i32, rest, Ghost(num), Ghost(1))
    }
}

/// The exact sum, rounded.
pub(crate) fn sum(a: Num, b: Num) -> (r: Num)
    ensures
        r == a.spec_plus(b),
{
    proof {
        reveal(Num::spec_plus);
    }
    let x = a.magnitude_bits();
    let y = b.magnitude_bits();
    if x > INF_MAGNITUDE || y > INF_MAGNITUDE {
        return Num { bits: NAN_BITS };
    }
    if x == INF_MAGNITUDE {
        if y == INF_MAGNITUDE && a.is_negative() != b.is_negative() {
            return Num { bits: NAN_BITS };
        }
        return a;
    }
    if y == INF_MAGNITUDE {
        return b;
    }
    proof {
        if x < y {
            super::round::lemma_units_increase(x as nat, y as nat);
        }
        if y < x {
            super::round::lemma_units_increase(y as nat, x as nat);
        }
        if x > 0 {
            super::round::lemma_units_increase(0, x as nat);
        }
        if y > 0 {
            super::round::lemma_units_increase(0, y as nat);
        }
    }
    if a.is_negative() == b.is_negative() {
        if x == 0 && y == 0 {
            return Num::signed(a.is_negative(), 0);
        }
        let m = if x >= y {
            sum_magnitude(x, y)
        } else {
            sum_magnitude(y, x)
        };
        Num::signed(a.is_negative(), m)
    } else if x == y {
        Num::signed(false, 0)
    } else if x > y {
        let m = difference_magnitude(x, y);
        Num::signed(a.is_negative(), m)
    } else {
        let m = difference_magnitude(y, x);
        Num::signed(b.is_negative(), m)
    }
}

/// The magnitude bits nearest to a whole number.
pub(crate) fn whole(magnitude: u64) -> (r: u64)
    ensures
        r == nearest(magnitude as nat * pow2(1074), 1),
        r <= INF_MAGNITUDE,
{
    proof {
        lemma_wide_powers();
        lemma_pow2_le(64, 127);
        lemma_pow2_pos(1074);
    }
    let ghost num = magnitude as nat * pow2(1074);
    proof {
        assert(1 * pow2(1074) == pow2(1074));
        lemma_truncated_scaled(num, 1, 1074, magnitude as nat, 1, pow2(1074));
        assert(magnitude as nat / 1 == magnitude && magnitude as nat % 1 == 0);
    }
    round_truncated(magnitude as u128, 1074, false, Ghost(num), Ghost(1))
}

/// The whole part of a finite magnitude, at most `limit`.
pub(crate) fn whole_part(x: u64, limit: u64) -> (r: u64)
    requires
        x < INF_MAGNITUDE,
    ensures
        r == capped(units(x as nat) / pow2(1074), limit as nat),
{
    proof {
        lemma_wide_powers();
        lemma_pow2_pos(1074);
    }
    let (s, e) = split(x);
    let ghost w = units(x as nat) / pow2(1074);
    if e >= 1074 {
        let k = e - 1074;
        proof {
            lemma_pow2_adds(k as nat, 1074);
            lemma_pow2_pos(k as nat);
            assert(units(x as nat) == (s * pow2(k as nat)) * pow2(1074)) by (nonlinear_arith)
                requires
                    units(x as nat) == s * pow2(e as nat),
                    pow2(e as nat) == pow2(k as nat) * pow2(1074),
            ;
            vstd::arithmetic::div_mod::lemma_div_multiples_vanish(
                (s * pow2(k as nat)) as int,
                pow2(1074) as int,
            );
            lemma_mul_is_commutative((s * pow2(k as nat)) as int, pow2(1074) as int);
            assert(w == s * pow2(k as nat));
        }
        if k >= 64 {
            proof {
                lemma_pow2_le(64, k as nat);
                assert(s * pow2(k as nat) >= pow2(64)) by (nonlinear_arith)
                    requires
                        s >= 1,
                        pow2(k as nat) >= pow2(64),
                ;
            }
            limit
        } else {
            proof {
                lemma_pow2_le(k as nat, 64);
                lemma_pow2_adds(53, 64);
                lemma_pow2_le(117, 128);
                assert(s * pow2(k as nat) < pow2(117)) by (nonlinear_arith)
                    requires
                        s < pow2(53),
                        0 < pow2(k as nat) <= pow2(64),
                        pow2(53) * pow2(64) == pow2(117),
                ;
            }
            let v = shl(s as u128, k);
            if v >= limit as u128 {
                limit
            } else {
                v as u64
            }
        }
    } else {
        let k = 1074 - e;
        let (q, _) = tail(s, k);
        proof {
            lemma_pow2_adds(k as nat, e as nat);
            lemma_pow2_pos(e as nat);
            lemma_pow2_pos(k as nat);
            let c = pow2(e as nat);
            let p = pow2(k as nat);
            lemma_fundamental_div_mod(s as int, p as int);
            lemma_mod_bound(s as int, p as int);
            let r = s as nat % p;
            assert(s * c == q * (p * c) + r * c) by (nonlinear_arith)
                requires
                    s == p * q + r,
            ;
            assert(0 <= r * c < p * c) by (nonlinear_arith)
                requires
                    0 <= r < p,
                    c > 0,
            ;
            lemma_fundamental_div_mod_converse(
                (s * c) as int,
                (p * c) as int,
                q as int,
                (r * c) as int,
            );
            assert(w == q);
        }
        if q >= limit as u128 {
            limit
        } else {
            q as u64
        }
    }
}

} // verus!
