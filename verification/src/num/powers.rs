//! Powers of two, bit lengths and shifts of wide words.

use vstd::arithmetic::div_mod::{
    lemma_div_denominator, lemma_div_is_ordered, lemma_fundamental_div_mod, lemma_mod_bound,
};
use vstd::arithmetic::mul::{lemma_mul_inequality, lemma_mul_is_commutative};
use vstd::arithmetic::power2::{
    lemma2_to64, lemma2_to64_rest, lemma_pow2_adds, lemma_pow2_pos,
    lemma_pow2_strictly_increases, lemma_pow2_unfold, pow2,
};
use vstd::bits::lemma_u128_shr_is_div;
use vstd::prelude::*;

verus! {

/// The number of binary digits of `q`; zero has none.
pub open spec fn bit_length(q: nat) -> nat
    decreases q,
{
    if q == 0 {
        0
    } else {
        bit_length(q / 2) + 1
    }
}

/// `pow2` grows with its exponent.
pub proof fn lemma_pow2_le(a: nat, b: nat)
    requires
        a <= b,
    ensures
        pow2(a) <= pow2(b),
{
    if a < b {
        lemma_pow2_strictly_increases(a, b);
    }
}

/// A positive number lies between the powers of two around its bit length.
pub proof fn lemma_bit_length_bounds(q: nat)
    requires
        q > 0,
    ensures
        bit_length(q) > 0,
        pow2((bit_length(q) - 1) as nat) <= q < pow2(bit_length(q)),
    decreases q,
{
    lemma2_to64();
    if q / 2 == 0 {
        assert(q == 1);
        assert(bit_length(0) == 0);
        assert(bit_length(q) == 1);
    } else {
        lemma_bit_length_bounds(q / 2);
        let b = bit_length(q / 2);
        lemma_pow2_unfold(b);
        lemma_pow2_unfold(b + 1);
        assert(bit_length(q) == b + 1);
    }
}

/// The bit length is the only exponent with those bounds.
pub proof fn lemma_bit_length_unique(q: nat, b: nat)
    requires
        b > 0,
        pow2((b - 1) as nat) <= q < pow2(b),
    ensures
        bit_length(q) == b,
{
    lemma_pow2_pos((b - 1) as nat);
    lemma_bit_length_bounds(q);
    let c = bit_length(q);
    if b < c {
        lemma_pow2_le(b, (c - 1) as nat);
    }
    if c < b {
        lemma_pow2_le(c, (b - 1) as nat);
    }
}

/// A number below a power of two has no more digits than its exponent.
pub proof fn lemma_bit_length_at_most(q: nat, b: nat)
    requires
        q < pow2(b),
    ensures
        bit_length(q) <= b,
{
    if q > 0 {
        lemma_bit_length_bounds(q);
        let c = bit_length(q);
        if b < c {
            lemma_pow2_le(b, (c - 1) as nat);
        }
    }
}

/// Dividing by a power of two drops that many digits.
pub proof fn lemma_bit_length_div(q: nat, k: nat)
    ensures
        bit_length(q / pow2(k)) == if bit_length(q) > k {
            (bit_length(q) - k) as nat
        } else {
            0
        },
{
    lemma_pow2_pos(k);
    let p = pow2(k) as int;
    let d = q as int / p;
    lemma_fundamental_div_mod(q as int, p);
    lemma_mod_bound(q as int, p);
    if q == 0 {
        assert(d == 0) by {
            vstd::arithmetic::div_mod::lemma_div_of0(p);
        }
    } else {
        lemma_bit_length_bounds(q);
        let b = bit_length(q);
        if b <= k {
            lemma_pow2_le(b, k);
            assert(d == 0) by {
                vstd::arithmetic::div_mod::lemma_basic_div(q as int, p);
            }
        } else {
            let c = (b - k) as nat;
            lemma_pow2_adds((c - 1) as nat, k);
            lemma_pow2_adds(c, k);
            // pow2(c - 1) * p <= q < pow2(c) * p
            assert(pow2((c - 1) as nat) <= d) by {
                vstd::arithmetic::div_mod::lemma_div_multiples_vanish(
                    pow2((c - 1) as nat) as int,
                    p,
                );
                lemma_mul_is_commutative(p, pow2((c - 1) as nat) as int);
                lemma_div_is_ordered((p * pow2((c - 1) as nat)) as int, q as int, p);
            }
            assert(d < pow2(c)) by {
                lemma_mul_is_commutative(p, pow2(c) as int);
                vstd::arithmetic::div_mod::lemma_multiply_divide_lt(q as int, p, pow2(c) as int);
            }
            lemma_bit_length_unique(d as nat, c);
        }
    }
}

/// Multiplying by a power of two appends that many digits.
pub proof fn lemma_bit_length_mul(q: nat, k: nat)
    requires
        q > 0,
    ensures
        bit_length(q * pow2(k)) == bit_length(q) + k,
{
    lemma_bit_length_bounds(q);
    let b = bit_length(q);
    lemma_pow2_pos(k);
    lemma_pow2_adds((b - 1) as nat, k);
    lemma_pow2_adds(b, k);
    let p = pow2(k) as int;
    lemma_mul_inequality(pow2((b - 1) as nat) as int, q as int, p);
    vstd::arithmetic::mul::lemma_mul_strict_inequality(q as int, pow2(b) as int, p);
    lemma_bit_length_unique(q * pow2(k), b + k);
}

/// The powers of two that bound the words used here.
pub proof fn lemma_wide_powers()
    ensures
        pow2(52) == 0x10_0000_0000_0000,
        pow2(53) == 0x20_0000_0000_0000,
        pow2(54) == 0x40_0000_0000_0000,
        pow2(63) == 0x8000_0000_0000_0000,
        pow2(64) == 0x1_0000_0000_0000_0000,
        pow2(74) == 0x400_0000_0000_0000_0000,
        pow2(126) == 0x4000_0000_0000_0000_0000_0000_0000_0000,
        pow2(127) == 0x8000_0000_0000_0000_0000_0000_0000_0000,
        pow2(128) == 0x1_0000_0000_0000_0000_0000_0000_0000_0000,
{
    lemma2_to64();
    lemma2_to64_rest();
    lemma_pow2_adds(10, 64);
    lemma_pow2_adds(62, 64);
    lemma_pow2_adds(63, 64);
    lemma_pow2_adds(64, 64);
}

/// A left shift that loses no digit multiplies by a power of two.
pub proof fn lemma_u128_shl_is_mul(x: u128, k: nat)
    requires
        k < 128,
        x * pow2(k) < pow2(128),
    ensures
        x << (k as u128) == x * pow2(k),
    decreases k,
{
    lemma_wide_powers();
    if k == 0 {
        lemma2_to64();
        assert(x << 0u128 == x) by (bit_vector);
    } else {
        let j = (k - 1) as nat;
        lemma_pow2_unfold(k);
        assert(x * pow2(k) == 2 * (x * pow2(j))) by (nonlinear_arith)
            requires
                pow2(k) == 2 * pow2(j),
        ;
        lemma_u128_shl_is_mul(x, j);
        let y = x << (j as u128);
        let jj = j as u128;
        let kk = k as u128;
        assert(kk == jj + 1);
        assert(x << kk == y << 1u128) by (bit_vector)
            requires
                kk == jj + 1,
                jj < 127,
                y == x << jj,
        ;
        assert(y < 0x8000_0000_0000_0000_0000_0000_0000_0000);
        assert(y << 1u128 == y * 2) by (bit_vector)
            requires
                y < 0x8000_0000_0000_0000_0000_0000_0000_0000u128,
        ;
    }
}

/// `x * 2^k`, where it fits.
pub fn shl(x: u128, k: u32) -> (r: u128)
    requires
        k < 128,
        x * pow2(k as nat) < pow2(128),
    ensures
        r == x * pow2(k as nat),
{
    proof {
        lemma_u128_shl_is_mul(x, k as nat);
    }
    x << (k as u128)
}

/// `x / 2^k`, rounded down.
pub fn shr(x: u128, k: u32) -> (r: u128)
    requires
        k < 128,
    ensures
        r == x as nat / pow2(k as nat),
{
    proof {
        lemma_u128_shr_is_div(x, k as u128);
        lemma_pow2_pos(k as nat);
    }
    x >> (k as u128)
}

/// One halving step of the search for the bit length.
fn narrow(x: u128, y: u128, n: u32, step: u32) -> (r: (u128, u32))
    requires
        step <= 64,
        n <= 126,
        y == x as nat / pow2(n as nat),
        x > 0 ==> y > 0,
        y < pow2(2 * step as nat),
    ensures
        r.0 == x as nat / pow2(r.1 as nat),
        x > 0 ==> r.0 > 0,
        r.0 < pow2(step as nat),
        r.1 == n || r.1 == n + step,
{
    proof {
        lemma_pow2_pos(step as nat);
        lemma_pow2_pos(n as nat);
    }
    let z = shr(y, step);
    if z == 0 {
        proof {
            lemma_fundamental_div_mod(y as int, pow2(step as nat) as int);
            lemma_mod_bound(y as int, pow2(step as nat) as int);
        }
        (y, n)
    } else {
        proof {
            lemma_pow2_adds(n as nat, step as nat);
            lemma_pow2_adds(step as nat, step as nat);
            lemma_div_denominator(x as int, pow2(n as nat) as int, pow2(step as nat) as int);
            vstd::arithmetic::div_mod::lemma_multiply_divide_lt(
                y as int,
                pow2(step as nat) as int,
                pow2(step as nat) as int,
            );
        }
        (z, n + step)
    }
}

/// The bit length of a wide word.
pub fn digits(x: u128) -> (r: u32)
    ensures
        r == bit_length(x as nat),
        r <= 128,
{
    proof {
        lemma2_to64();
        lemma_wide_powers();
    }
    if x == 0 {
        return 0;
    }
    let (y, n) = narrow(x, x, 0, 64);
    let (y, n) = narrow(x, y, n, 32);
    let (y, n) = narrow(x, y, n, 16);
    let (y, n) = narrow(x, y, n, 8);
    let (y, n) = narrow(x, y, n, 4);
    let (y, n) = narrow(x, y, n, 2);
    let (y, n) = narrow(x, y, n, 1);
    proof {
        assert(y == 1);
        lemma_bit_length_div(x as nat, n as nat);
        assert(bit_length(1) == 1) by {
            reveal_with_fuel(bit_length, 3);
        }
        lemma_bit_length_at_most(x as nat, 128);
    }
    n + 1
}

} // verus!
