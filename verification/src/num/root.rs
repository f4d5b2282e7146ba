//! The correctly rounded square root.

use super::arithmetic::split;
use super::powers::{digits, lemma_bit_length_bounds, lemma_pow2_le, lemma_wide_powers, shl};
use super::round::{round_truncated, truncated, units, INF_MAGNITUDE};
use super::{Num, NAN_BITS};
use vstd::arithmetic::div_mod::lemma_fundamental_div_mod_converse;
use vstd::arithmetic::power2::{lemma2_to64, lemma_pow2_adds, lemma_pow2_pos, pow2};
use vstd::prelude::*;

verus! {

/// The greatest number whose square is at most `n`.
pub open spec fn floor_root(n: nat) -> nat
    decreases n,
{
    if n == 0 {
        0
    } else {
        let s = floor_root((n - 1) as nat);
        if (s + 1) * (s + 1) <= n {
            s + 1
        } else {
            s
        }
    }
}

/// The floor root is the greatest number whose square is at most `n`.
pub proof fn lemma_floor_root(n: nat)
    ensures
        floor_root(n) * floor_root(n) <= n,
        n < (floor_root(n) + 1) * (floor_root(n) + 1),
    decreases n,
{
    if n == 0 {
        assert(floor_root(n) == 0);
        assert(0nat * 0nat == 0 && 1nat * 1nat == 1) by (nonlinear_arith);
    } else {
        lemma_floor_root((n - 1) as nat);
        let s = floor_root((n - 1) as nat);
        if (s + 1) * (s + 1) <= n {
            assert(floor_root(n) == s + 1);
            assert(n < ((s + 1) + 1) * ((s + 1) + 1)) by (nonlinear_arith)
                requires
                    n - 1 < (s + 1) * (s + 1),
                    s >= 0,
            ;
        }
    }
}

proof fn lemma_floor_root_unique(n: nat, s: nat)
    requires
        s * s <= n < (s + 1) * (s + 1),
    ensures
        s == floor_root(n),
{
    lemma_floor_root(n);
    let t = floor_root(n);
    if s < t {
        assert((s + 1) * (s + 1) <= t * t) by (nonlinear_arith)
            requires
                0 <= s,
                s + 1 <= t,
        ;
    }
    if t < s {
        assert((t + 1) * (t + 1) <= s * s) by (nonlinear_arith)
            requires
                0 <= t,
                t + 1 <= s,
        ;
    }
}

/// The floor root of a scaled number, truncated back.
proof fn lemma_scaled_root(x: nat, t: nat, sig: nat)
    requires
        sig == floor_root(x),
    ensures
        ({
            let n = x * (pow2(t) * pow2(t));
            let s = floor_root(n);
            let doubled = 2 * s + (if s * s == n {
                0nat
            } else {
                1nat
            });
            truncated(doubled, 2, t as int, sig, sig * sig != x)
        }),
{
    let p = pow2(t);
    lemma_pow2_pos(t);
    let n = x * (p * p);
    let s = floor_root(n);
    lemma_floor_root(n);
    lemma_floor_root(x);
    let low = sig * p;
    let high = (sig + 1) * p;
    assert(low * low <= n) by (nonlinear_arith)
        requires
            low == sig * p,
            n == x * (p * p),
            sig * sig <= x,
    ;
    assert(n < high * high) by (nonlinear_arith)
        requires
            high == (sig + 1) * p,
            n == x * (p * p),
            x < (sig + 1) * (sig + 1),
            p > 0,
    ;
    assert(low <= s) by {
        if s < low {
            assert((s + 1) * (s + 1) <= low * low) by (nonlinear_arith)
                requires
                    0 <= s,
                    s + 1 <= low,
            ;
        }
    }
    assert(s < high) by {
        if high <= s {
            assert(high * high <= s * s) by (nonlinear_arith)
                requires
                    0 <= high,
                    high <= s,
            ;
        }
    }
    let rest = (s - low) as nat;
    assert(high == low + p) by (nonlinear_arith)
        requires
            high == (sig + 1) * p,
            low == sig * p,
    ;
    let odd: nat = if s * s == n {
        0
    } else {
        1
    };
    let doubled = 2 * s + odd;
    let unit = 2 * p;
    assert(doubled == sig * unit + (2 * rest + odd)) by (nonlinear_arith)
        requires
            doubled == 2 * s + odd,
            s == low + rest,
            low == sig * p,
            unit == 2 * p,
    ;
    lemma_fundamental_div_mod_converse(
        doubled as int,
        unit as int,
        sig as int,
        (2 * rest + odd) as int,
    );
    if sig * sig == x {
        assert(low * low == n) by (nonlinear_arith)
            requires
                low == sig * p,
                n == x * (p * p),
                sig * sig == x,
        ;
        assert(s == low) by {
            assert(n < (low + 1) * (low + 1)) by (nonlinear_arith)
                requires
                    low * low == n,
                    low >= 0,
            ;
            lemma_floor_root_unique(n, low);
        }
    } else if rest == 0 && odd == 0 {
        assert(sig * sig == x) by (nonlinear_arith)
            requires
                low * low == n,
                low == sig * p,
                n == x * (p * p),
                p > 0,
        ;
    }
}

/// The whole square root.
fn whole_root(x: u128) -> (r: u128)
    requires
        x < pow2(127),
    ensures
        r == floor_root(x as nat),
        r < pow2(64),
{
    proof {
        lemma_wide_powers();
        lemma2_to64();
        lemma_pow2_adds(64, 64);
    }
    let mut low: u128 = 0;
    let mut high: u128 = 0x1_0000_0000_0000_0000;
    assert(0u128 * 0u128 <= x);
    while high - low > 1
        invariant
            low < high <= 0x1_0000_0000_0000_0000,
            low * low <= x < high * high,
        decreases high - low,
    {
        let mid = low + (high - low) / 2;
        assert(mid * mid < 0x1_0000_0000_0000_0000_0000_0000_0000_0000int) by (nonlinear_arith)
            requires
                0 <= mid < 0x1_0000_0000_0000_0000int,
        ;
        if mid * mid <= x {
            low = mid;
        } else {
            high = mid;
        }
    }
    proof {
        lemma_floor_root_unique(x as nat, low as nat);
    }
    low
}

/// The square root, rounded.
pub(crate) fn root(a: Num) -> (r: Num)
    ensures
        r == a.spec_root(),
{
    proof {
        reveal(Num::spec_root);
        lemma_wide_powers();
    }
    let x = a.magnitude_bits();
    if x > INF_MAGNITUDE {
        return Num { bits: NAN_BITS };
    }
    if x == 0 {
        return a;
    }
    if a.is_negative() {
        return Num { bits: NAN_BITS };
    }
    if x == INF_MAGNITUDE {
        return a;
    }
    let (s, e) = split(x);
    let count = digits(s as u128);
    proof {
        super::powers::lemma_bit_length_at_most(s as nat, 53);
        lemma_bit_length_bounds(s as nat);
    }
    let k = if (e + count) % 2 == 0 {
        126 - count
    } else {
        127 - count
    };
    assert((e + 1074 - k) % 2 == 0);
    let ghost kn = k as nat;
    proof {
        super::powers::lemma_bit_length_mul(s as nat, kn);
        lemma_bit_length_bounds(s as nat * pow2(kn));
        lemma_pow2_le((count + k) as nat, 127);
        lemma_pow2_le(125, (count + k - 1) as nat);
        lemma_pow2_le(127, 128);
    }
    let wide = shl(s as u128, k);
    let sig = whole_root(wide);
    let exp: i32 = (e as i32 + 1074 - k as i32) / 2;
    proof {
        lemma_floor_root(wide as nat);
    }
    let rest = sig * sig != wide;
    let ghost t = exp as nat;
    let ghost radicand = units(x as nat) * pow2(1074);
    let ghost full = floor_root(radicand);
    let ghost num = 2 * full + (if full * full == radicand {
        0nat
    } else {
        1nat
    });
    proof {
        lemma_pow2_adds(t, t);
        lemma_pow2_adds(kn, t + t);
        lemma_pow2_adds(e as nat, 1074);
        assert(kn + (t + t) == e + 1074);
        assert(radicand == wide as nat * (pow2(t) * pow2(t))) by (nonlinear_arith)
            requires
                radicand == (s * pow2(e as nat)) * pow2(1074),
                wide == s * pow2(kn),
                pow2(e as nat) * pow2(1074) == pow2(kn) * (pow2(t) * pow2(t)),
        ;
        lemma_scaled_root(wide as nat, t, sig as nat);
        lemma_pow2_adds(62, 62);
        lemma_pow2_le(124, 125);
        assert(sig >= pow2(62)) by (nonlinear_arith)
            requires
                wide < (sig + 1) * (sig + 1),
                wide >= pow2(62) * pow2(62),
                sig >= 0,
                pow2(62) >= 0,
        ;
        lemma_pow2_le(54, 62);
        lemma_pow2_le(64, 127);
    }
    let m = round_truncated(sig, exp, rest, Ghost(num), Ghost(2));
    Num::signed(false, m)
}

} // verus!
