//! What the identifier of a configuration tells.

use super::{config_id, fnv};
use crate::text::{hex_digit, hex_digits};
use vstd::prelude::*;
use vstd::utf8::{encode_utf8, is_ascii_chars, is_ascii_chars_encode_utf8};

verus! {

/// The hash after one more byte.
spec fn stepped(hash: u64, byte: u8) -> u64 {
    ((hash ^ byte as u64) as nat * 0x100000001b3 % 0x1_0000_0000_0000_0000) as u64
}

/// Whether two hashes differ in their lowest eight bits at most.
spec fn near(a: u64, b: u64) -> bool {
    -255 <= a - b <= 255
}

/// The factor of the hash can be divided out.
proof fn lemma_factor(a: nat, b: nat)
    requires
        a < 0x1_0000_0000_0000_0000,
        b < 0x1_0000_0000_0000_0000,
        a * 0x100000001b3 % 0x1_0000_0000_0000_0000 == b * 0x100000001b3
            % 0x1_0000_0000_0000_0000,
    ensures
        a == b,
{
    let m: int = 0x1_0000_0000_0000_0000;
    let p: int = 0x100000001b3;
    let q: int = 0xce965057aff6957b;
    vstd::arithmetic::div_mod::lemma_mul_mod_noop_left(a * p, q, m);
    vstd::arithmetic::div_mod::lemma_mul_mod_noop_left(b * p, q, m);
    vstd::arithmetic::mul::lemma_mul_is_associative(a as int, p, q);
    vstd::arithmetic::mul::lemma_mul_is_associative(b as int, p, q);
    assert(p * q % m == 1) by (nonlinear_arith)
        requires
            p == 0x100000001b3,
            q == 0xce965057aff6957b,
            m == 0x1_0000_0000_0000_0000,
    ;
    vstd::arithmetic::div_mod::lemma_mul_mod_noop_right(a as int, p * q, m);
    vstd::arithmetic::div_mod::lemma_mul_mod_noop_right(b as int, p * q, m);
    assert(a * 1 == a && b * 1 == b);
    vstd::arithmetic::div_mod::lemma_small_mod(a, m as nat);
    vstd::arithmetic::div_mod::lemma_small_mod(b, m as nat);
}

/// A byte changes a hash in its lowest eight bits, and tells them from those that another gives.
proof fn lemma_byte(h: u64, a: u8, b: u8)
    ensures
        near(h ^ a as u64, h),
        near(h ^ a as u64, h ^ b as u64),
        h ^ a as u64 == h ^ b as u64 ==> a == b,
{
    assert(h ^ a as u64 <= h + 255 && h <= (h ^ a as u64) + 255) by (bit_vector);
    assert((h ^ a as u64) <= (h ^ b as u64) + 255) by (bit_vector);
    assert((h ^ b as u64) <= (h ^ a as u64) + 255) by (bit_vector);
    assert(h ^ a as u64 == h ^ b as u64 ==> a == b) by (bit_vector);
}

/// Where one more byte each makes two hashes the same, they were nearly the same before.
proof fn lemma_step(h: u64, a: u8, g: u64, b: u8)
    requires
        stepped(h, a) == stepped(g, b),
    ensures
        h ^ a as u64 == g ^ b as u64,
        near(h, g),
        h == g <==> a == b,
{
    lemma_factor((h ^ a as u64) as nat, (g ^ b as u64) as nat);
    let x = h ^ a as u64;
    assert(x ^ a as u64 == h) by (bit_vector)
        requires
            x == h ^ a as u64,
    ;
    assert(x ^ b as u64 == g) by (bit_vector)
        requires
            x == g ^ b as u64,
    ;
    lemma_byte(x, a, b);
}

/// Two bytes from one hash on lead to one hash only where they are the same.
proof fn lemma_two(h: u64, a1: u8, a2: u8, b1: u8, b2: u8)
    requires
        stepped(stepped(h, a1), a2) == stepped(stepped(h, b1), b2),
    ensures
        a1 == b1,
        a2 == b2,
{
    let v = stepped(h, a1);
    let w = stepped(h, b1);
    lemma_step(v, a2, w, b2);
    lemma_byte(h, a1, b1);
    let x = (h ^ a1 as u64) as int;
    let y = (h ^ b1 as u64) as int;
    let j = x * 0x100000001b3 / 0x1_0000_0000_0000_0000;
    let k = y * 0x100000001b3 / 0x1_0000_0000_0000_0000;
    assert(v - w == (x - y) * 0x100000001b3 - (j - k) * 0x1_0000_0000_0000_0000);
    assert(j - k == 0);
    assert(x == y);
}

/// Three bytes from one hash on lead to one hash only where they are the same.
proof fn lemma_three(h: u64, a1: u8, a2: u8, a3: u8, b1: u8, b2: u8, b3: u8)
    requires
        stepped(stepped(stepped(h, a1), a2), a3) == stepped(stepped(stepped(h, b1), b2), b3),
    ensures
        a1 == b1,
        a2 == b2,
        a3 == b3,
{
    let h1 = stepped(h, a1);
    let g1 = stepped(h, b1);
    let h2 = stepped(h1, a2);
    let g2 = stepped(g1, b2);
    lemma_step(h2, a3, g2, b3);
    lemma_byte(h, a1, b1);
    lemma_byte(h1, a2, a2);
    lemma_byte(g1, b2, b2);
    let x1 = (h ^ a1 as u64) as int;
    let y1 = (h ^ b1 as u64) as int;
    let x2 = (h1 ^ a2 as u64) as int;
    let y2 = (g1 ^ b2 as u64) as int;
    let j1 = x1 * 0x100000001b3 / 0x1_0000_0000_0000_0000;
    let k1 = y1 * 0x100000001b3 / 0x1_0000_0000_0000_0000;
    let j2 = x2 * 0x100000001b3 / 0x1_0000_0000_0000_0000;
    let k2 = y2 * 0x100000001b3 / 0x1_0000_0000_0000_0000;
    let d = x1 - y1;
    let e = (x2 - h1) - (y2 - g1);
    let g = h2 - g2;
    assert(h1 - g1 == d * 0x100000001b3 - (j1 - k1) * 0x1_0000_0000_0000_0000);
    assert(g == (h1 - g1 + e) * 0x100000001b3 - (j2 - k2) * 0x1_0000_0000_0000_0000);
    // The square of the factor, less whole turns of the hash.
    let turns = (j2 - k2) + (j1 - k1) * 0x100000001b3 - d * 0x10000;
    assert(g == (870 * d + e) * 0x100_0000_0000 + 189225 * d + 435 * e - turns
        * 0x1_0000_0000_0000_0000);
    assert(turns == 0);
    assert(870 * d + e == 0);
    assert(d == 0);
    assert(a1 == b1);
    lemma_two(h1, a2, a3, b2, b3);
}

/// Bytes that follow do not make different hashes the same.
proof fn lemma_tail(a: Seq<u8>, b: Seq<u8>, tail: Seq<u8>)
    requires
        fnv(a) != fnv(b),
    ensures
        fnv(a + tail) != fnv(b + tail),
    decreases tail.len(),
{
    if tail.len() == 0 {
        assert(a + tail =~= a && b + tail =~= b);
    } else {
        lemma_tail(a, b, tail.drop_last());
        assert((a + tail).drop_last() =~= a + tail.drop_last());
        assert((b + tail).drop_last() =~= b + tail.drop_last());
        let h = fnv(a + tail.drop_last());
        let g = fnv(b + tail.drop_last());
        if stepped(h, tail.last()) == stepped(g, tail.last()) {
            lemma_step(h, tail.last(), g, tail.last());
        }
    }
}

/// The hash of bytes with one more.
proof fn lemma_push(a: Seq<u8>, byte: u8)
    ensures
        fnv(a.push(byte)) == stepped(fnv(a), byte),
{
    assert(a.push(byte).drop_last() =~= a);
}

/// Up to three bytes behind the same ones give the same hash only where they are the same.
proof fn lemma_middle(head: Seq<u8>, x: Seq<u8>, y: Seq<u8>)
    requires
        x.len() == y.len() <= 3,
        fnv(head + x) == fnv(head + y),
    ensures
        x == y,
{
    if x.len() == 1 {
        assert(head + x =~= head.push(x[0]) && head + y =~= head.push(y[0]));
        lemma_push(head, x[0]);
        lemma_push(head, y[0]);
        lemma_step(fnv(head), x[0], fnv(head), y[0]);
    } else if x.len() == 2 {
        assert(head + x =~= head.push(x[0]).push(x[1]));
        assert(head + y =~= head.push(y[0]).push(y[1]));
        lemma_push(head, x[0]);
        lemma_push(head, y[0]);
        lemma_push(head.push(x[0]), x[1]);
        lemma_push(head.push(y[0]), y[1]);
        lemma_two(fnv(head), x[0], x[1], y[0], y[1]);
    } else if x.len() == 3 {
        assert(head + x =~= head.push(x[0]).push(x[1]).push(x[2]));
        assert(head + y =~= head.push(y[0]).push(y[1]).push(y[2]));
        lemma_push(head, x[0]);
        lemma_push(head, y[0]);
        lemma_push(head.push(x[0]), x[1]);
        lemma_push(head.push(y[0]), y[1]);
        lemma_push(head.push(x[0]).push(x[1]), x[2]);
        lemma_push(head.push(y[0]).push(y[1]), y[2]);
        lemma_three(fnv(head), x[0], x[1], x[2], y[0], y[1], y[2]);
    }
    assert(x =~= y);
}

/// The bytes of two texts, one behind the other.
proof fn lemma_encoded(a: Seq<char>, b: Seq<char>)
    ensures
        encode_utf8(a + b) == encode_utf8(a) + encode_utf8(b),
    decreases a.len(),
{
    if a.len() == 0 {
        assert(a + b =~= b);
        assert(encode_utf8(a) + encode_utf8(b) =~= encode_utf8(b));
    } else {
        lemma_encoded(a.drop_first(), b);
        assert((a + b).drop_first() =~= a.drop_first() + b);
        let first = vstd::utf8::encode_scalar(a[0] as u32);
        assert(first + (encode_utf8(a.drop_first()) + encode_utf8(b)) =~= (first + encode_utf8(
            a.drop_first(),
        )) + encode_utf8(b));
    }
}

/// Different numbers have different digits.
proof fn lemma_digits_differ(a: nat, b: nat, count: nat)
    requires
        hex_digits(a, count) == hex_digits(b, count),
        a < vstd::arithmetic::power::pow(16, count),
        b < vstd::arithmetic::power::pow(16, count),
    ensures
        a == b,
    decreases count,
{
    reveal(vstd::arithmetic::power::pow);
    if count > 0 {
        let less = (count - 1) as nat;
        let x = hex_digits(a / 16, less).push(hex_digit(a % 16));
        let y = hex_digits(b / 16, less).push(hex_digit(b % 16));
        assert(x.last() == y.last());
        assert(x.drop_last() =~= hex_digits(a / 16, less));
        assert(y.drop_last() =~= hex_digits(b / 16, less));
        lemma_digits_differ(a / 16, b / 16, less);
    }
}

/// Whether a character is a hexadecimal digit, in lower case.
pub open spec fn is_lower_hex(c: char) -> bool {
    '0' <= c <= '9' || 'a' <= c <= 'f'
}

proof fn lemma_digits_are_hex(n: nat, count: nat)
    ensures
        hex_digits(n, count).len() == count,
        forall|i: int| 0 <= i < count ==> is_lower_hex(#[trigger] hex_digits(n, count)[i]),
    decreases count,
{
    if count > 0 {
        lemma_digits_are_hex(n / 16, (count - 1) as nat);
    }
}

/// Every identifier is `v3-` and sixteen hexadecimal digits in lower case.
pub proof fn lemma_identifier_form(json: Seq<char>)
    ensures
        config_id(json).len() == 19,
        config_id(json).take(3) == "v3-"@,
        forall|i: int| 3 <= i < 19 ==> is_lower_hex(#[trigger] config_id(json)[i]),
{
    reveal_strlit("v3-");
    let n = fnv(encode_utf8(json)) as nat;
    lemma_digits_are_hex(n, 16);
    assert(config_id(json).take(3) =~= "v3-"@);
    assert forall|i: int| 3 <= i < 19 implies is_lower_hex(#[trigger] config_id(json)[i]) by {
        assert(config_id(json)[i] == hex_digits(n, 16)[i - 3]);
    }
}

/// A small change makes a new cohort: where the text of a configuration changes in up to three
/// adjacent characters, as that of a cost does from 10.0 to 11.0 or to 12.5, the identifier changes
/// too. Texts that differ more have different identifiers unless their hashes collide.
pub proof fn lemma_small_change_new_identifier(
    before: Seq<char>,
    old_value: Seq<char>,
    new_value: Seq<char>,
    after: Seq<char>,
)
    requires
        old_value.len() == new_value.len() <= 3,
        is_ascii_chars(old_value),
        is_ascii_chars(new_value),
        old_value != new_value,
    ensures
        config_id(before + old_value + after) != config_id(before + new_value + after),
{
    let head = encode_utf8(before);
    let x = encode_utf8(old_value);
    let y = encode_utf8(new_value);
    let tail = encode_utf8(after);
    lemma_encoded(before, old_value);
    lemma_encoded(before, new_value);
    lemma_encoded(before + old_value, after);
    lemma_encoded(before + new_value, after);
    is_ascii_chars_encode_utf8(old_value);
    is_ascii_chars_encode_utf8(new_value);
    if x == y {
        assert forall|i: int| 0 <= i < old_value.len() implies #[trigger] old_value[i]
            == new_value[i] by {
            assert(x[i] == y[i]);
        }
        assert(old_value =~= new_value);
    }
    if fnv(head + x) == fnv(head + y) {
        lemma_middle(head, x, y);
    }
    lemma_tail(head + x, head + y, tail);
    let a = fnv(head + x + tail);
    let b = fnv(head + y + tail);
    let one = config_id(before + old_value + after);
    let other = config_id(before + new_value + after);
    if one == other {
        reveal_strlit("v3-");
        assert(one.skip(3) =~= hex_digits(a as nat, 16));
        assert(other.skip(3) =~= hex_digits(b as nat, 16));
        assert(vstd::arithmetic::power::pow(16, 16) == 0x1_0000_0000_0000_0000) by {
            reveal_with_fuel(vstd::arithmetic::power::pow, 17);
        }
        lemma_digits_differ(a as nat, b as nat, 16);
    }
}

} // verus!
