//! Numbers in decimal notation.

use super::big::Big;
use super::powers::{lemma_pow2_le, lemma_wide_powers};
use super::round::{lemma_nearest_monotone, nearest, round_truncated, truncated, INF_MAGNITUDE};
use super::{Num, NAN_BITS};
use crate::text;
use crate::text::{all_digits, lowered, spelled, whole_number};
use vstd::arithmetic::div_mod::{
    lemma_fundamental_div_mod, lemma_fundamental_div_mod_converse, lemma_mod_bound,
};
use vstd::arithmetic::power::{lemma_pow_adds, lemma_pow_positive, pow};
use vstd::arithmetic::power2::{
    lemma2_to64, lemma_pow2_adds, lemma_pow2_pos, lemma_pow2_unfold, pow2,
};
use vstd::prelude::*;

verus! {

/// The position of the first of two characters, or the length.
pub open spec fn first_of(s: Seq<char>, a: char, b: char) -> nat
    decreases s.len(),
{
    if s.len() == 0 || s[0] == a || s[0] == b {
        0
    } else {
        1 + first_of(s.drop_first(), a, b)
    }
}

/// Ten to a power.
pub open spec fn ten(n: nat) -> nat {
    pow(10, n) as nat
}

/// The magnitude bits nearest to `digits * 10^exponent`.
pub open spec fn decimal_magnitude(digits: nat, exponent: int) -> nat {
    if exponent >= 0 {
        nearest(digits * ten(exponent as nat) * pow2(1074), 1)
    } else {
        nearest(digits * pow2(1074), ten((-exponent) as nat))
    }
}

/// The digits before the point.
pub open spec fn whole_part(mantissa: Seq<char>) -> Seq<char> {
    mantissa.take(first_of(mantissa, '.', '.') as int)
}

/// The digits behind the point.
pub open spec fn fraction_part(mantissa: Seq<char>) -> Seq<char> {
    let dot = first_of(mantissa, '.', '.');
    if dot < mantissa.len() {
        mantissa.skip((dot + 1) as int)
    } else {
        Seq::empty()
    }
}

/// The exponent behind a mantissa that ends at `cut`; zero where there is none.
pub open spec fn exponent_part(s: Seq<char>, cut: int) -> Option<int> {
    if cut < s.len() {
        whole_number(s.skip(cut + 1))
    } else {
        Some(0int)
    }
}

/// The magnitude bits of digits, with a point among them or not, and with an exponent or not.
pub open spec fn unsigned_magnitude(s: Seq<char>) -> Option<nat> {
    let cut = first_of(s, 'e', 'E');
    let mantissa = s.take(cut as int);
    let exponent = exponent_part(s, cut as int);
    let fraction = fraction_part(mantissa);
    let digits = whole_part(mantissa) + fraction;
    if exponent is None || digits.len() == 0 || !all_digits(digits) {
        None
    } else {
        Some(decimal_magnitude(spelled(digits), exponent->0 - fraction.len()))
    }
}

/// The number that a text spells: a decimal number rounded to the nearest, or the name of an
/// infinity or of no number in letters of either case, after at most one sign.
pub open spec fn spec_decimal(s: Seq<char>) -> Option<Num> {
    let signed = s.len() > 0 && (s[0] == '-' || s[0] == '+');
    let body = if signed {
        s.drop_first()
    } else {
        s
    };
    let negative = signed && s[0] == '-';
    let name = lowered(body);
    if name == "inf"@ || name == "infinity"@ {
        Some(Num::spec_signed(negative, INF_MAGNITUDE as nat))
    } else if name == "nan"@ {
        Some(Num::spec_signed(negative, NAN_BITS as nat))
    } else {
        match unsigned_magnitude(body) {
            Some(magnitude) => Some(Num::spec_signed(negative, magnitude)),
            None => None,
        }
    }
}

proof fn lemma_ten_pos(n: nat)
    ensures
        ten(n) > 0,
        ten(n) == pow(10, n),
{
    lemma_pow_positive(10, n);
}

proof fn lemma_ten_adds(a: nat, b: nat)
    ensures
        ten(a) * ten(b) == ten(a + b),
{
    lemma_ten_pos(a);
    lemma_ten_pos(b);
    lemma_ten_pos(a + b);
    lemma_pow_adds(10, a, b);
}

proof fn lemma_ten_step(n: nat)
    ensures
        ten(n + 1) == ten(n) * 10,
{
    lemma_ten_adds(n, 1);
    vstd::arithmetic::power::lemma_pow1(10);
}

proof fn lemma_ten_zero()
    ensures
        ten(0) == 1,
{
    vstd::arithmetic::power::lemma_pow0(10);
}

/// Powers of ten lie between powers of eight and of sixteen.
proof fn lemma_ten_between(n: nat)
    ensures
        pow2(3 * n) <= ten(n) <= pow2(4 * n),
    decreases n,
{
    lemma2_to64();
    if n == 0 {
        lemma_ten_zero();
    } else {
        let m = (n - 1) as nat;
        lemma_ten_between(m);
        lemma_ten_step(m);
        lemma_pow2_adds(3 * m, 3);
        lemma_pow2_adds(4 * m, 4);
        assert(3 * m + 3 == 3 * n);
        assert(4 * m + 4 == 4 * n);
        assert(pow2(3 * m) * 8 <= ten(m) * 10 <= pow2(4 * m) * 16) by (nonlinear_arith)
            requires
                pow2(3 * m) <= ten(m) <= pow2(4 * m),
        ;
    }
}

/// Digits of which the first is not zero spell a number of that many digits.
proof fn lemma_spelled_size(s: Seq<char>)
    requires
        s.len() > 0,
        all_digits(s),
        s[0] != '0',
    ensures
        ten((s.len() - 1) as nat) <= spelled(s) < ten(s.len()),
    decreases s.len(),
{
    let rest = s.drop_last();
    let n = (s.len() - 1) as nat;
    assert(all_digits(rest)) by {
        assert forall|i: int| 0 <= i < rest.len() implies '0' <= #[trigger] rest[i] <= '9' by {
            assert(rest[i] == s[i]);
        }
    }
    assert('0' <= s[s.len() - 1] <= '9');
    lemma_ten_step(n);
    if n == 0 {
        assert(rest =~= Seq::<char>::empty());
        lemma_ten_zero();
        assert(spelled(rest) == 0);
    } else {
        assert(rest[0] == s[0]);
        lemma_spelled_size(rest);
        lemma_ten_step((n - 1) as nat);
    }
}

/// Zeros before the digits do not change the number.
proof fn lemma_spelled_leading_zero(s: Seq<char>)
    requires
        s.len() > 0,
        s[0] == '0',
    ensures
        spelled(s) == spelled(s.drop_first()),
    decreases s.len(),
{
    if s.len() == 1 {
        assert(s.drop_last() =~= Seq::<char>::empty());
        assert(s.drop_first() =~= Seq::<char>::empty());
        assert(spelled(s.drop_last()) == 0);
    } else {
        lemma_spelled_leading_zero(s.drop_last());
        assert(s.drop_last().drop_first() =~= s.drop_first().drop_last());
    }
}

/// A number of at least 2^1024 is rounded to infinity.
proof fn lemma_beyond_range(num: nat, den: nat)
    requires
        den > 0,
        num >= den * pow2(2098),
    ensures
        nearest(num, den) == INF_MAGNITUDE,
{
    lemma_pow2_pos(2098);
    let top = pow2(2098);
    assert(top * den <= num * 1) by (nonlinear_arith)
        requires
            num >= den * top,
    ;
    lemma_nearest_monotone(top, 1, num, den);
    lemma_wide_powers();
    assert(top / 1 == top);
    lemma_pow2_unfold(2099);
    super::powers::lemma_bit_length_unique(top, 2099);
    let place = super::round::last_place(top / 1);
    assert(place == 2046);
    lemma_pow2_adds(52, 2046);
    lemma_pow2_pos(2046);
    let unit = 1 * pow2(2046);
    assert(unit == pow2(2046));
    lemma_fundamental_div_mod_converse(top as int, unit as int, pow2(52) as int, 0);
    assert(nearest(top, 1) == INF_MAGNITUDE);
    super::laws::lemma_nearest_bounded(num, den);
}

/// A number of less than half the smallest unit is rounded to zero.
proof fn lemma_below_range(num: nat, den: nat)
    requires
        2 * num < den,
    ensures
        nearest(num, den) == 0,
{
    vstd::arithmetic::div_mod::lemma_basic_div(num as int, den as int);
    vstd::arithmetic::div_mod::lemma_small_mod(num, den);
    lemma2_to64();
    super::powers::lemma_bit_length_at_most(0, 0);
    assert(den * pow2(0) == den);
}

/// Equal quotients are truncated alike.
proof fn lemma_truncated_cross(num: nat, den: nat, exp: int, x: nat, y: nat)
    requires
        y > 0,
        den > 0,
        exp >= 0 ==> num * y == x * (den * pow2(exp as nat)),
        exp < 0 ==> (num * pow2((-exp) as nat)) * y == x * den,
    ensures
        truncated(num, den, exp, x / y, x % y != 0),
{
    let (n, d) = if exp >= 0 {
        lemma_pow2_pos(exp as nat);
        (num, den * pow2(exp as nat))
    } else {
        (num * pow2((-exp) as nat), den)
    };
    assert(d > 0) by {
        if exp >= 0 {
            assert(den * pow2(exp as nat) > 0) by (nonlinear_arith)
                requires
                    den > 0,
                    pow2(exp as nat) > 0,
            ;
        }
    }
    let q = x / y;
    let r = x % y;
    lemma_fundamental_div_mod(x as int, y as int);
    lemma_mod_bound(x as int, y as int);
    // n == q * d + rest, where rest * y == r * d
    let rest = n - q * d;
    assert(rest * y == r * d) by (nonlinear_arith)
        requires
            n * y == x * d,
            x == y * q + r,
            rest == n - q * d,
    ;
    assert(0 <= rest < d) by (nonlinear_arith)
        requires
            rest * y == r * d,
            0 <= r < y,
            d > 0,
            y > 0,
    ;
    assert((rest != 0) == (r != 0)) by (nonlinear_arith)
        requires
            rest * y == r * d,
            d > 0,
            y > 0,
    ;
    lemma_fundamental_div_mod_converse(n as int, d as int, q as int, rest);
}

proof fn lemma_pow2_order(a: nat, b: nat)
    requires
        pow2(a) < pow2(b),
    ensures
        a < b,
{
    if b <= a {
        lemma_pow2_le(b, a);
    }
}

/// The magnitude nearest to a quotient of two numbers that are not too far apart.
fn quotient_magnitude(top: Big, bottom: Big) -> (r: u64)
    requires
        top.value() > 0,
        bottom.value() > 0,
        top.value() <= bottom.value() * pow2(1604),
        bottom.value() <= top.value() * pow2(1604),
    ensures
        r == nearest(top.value() * pow2(1074), bottom.value()),
        r <= INF_MAGNITUDE,
{
    let ghost a = top.value();
    let ghost b = bottom.value();
    let mut den = bottom;
    let mut s: u32 = 0;
    proof {
        lemma2_to64();
        lemma_wide_powers();
        assert(b * pow2(0) == b);
    }
    while top.at_least(&den)
        invariant
            a == top.value(),
            b > 0,
            s <= 1605,
            den.value() == b * pow2(s as nat),
            s > 0 ==> a >= b * pow2((s - 1) as nat),
            a <= b * pow2(1604),
        decreases 1606 - s,
    {
        proof {
            assert(s <= 1604) by {
                if s > 1604 {
                    lemma_pow2_unfold(1605);
                    lemma_pow2_pos(1604);
                    assert(b * pow2(1605) > b * pow2(1604)) by (nonlinear_arith)
                        requires
                            b > 0,
                            pow2(1605) == 2 * pow2(1604),
                            pow2(1604) > 0,
                    ;
                }
            }
            lemma_pow2_unfold((s + 1) as nat);
            assert(b * pow2(s as nat) * 2 == b * pow2((s + 1) as nat)) by (nonlinear_arith)
                requires
                    pow2((s + 1) as nat) == 2 * pow2(s as nat),
            ;
        }
        den.scale(2, 0);
        s += 1;
    }
    let ghost d = den.value();
    proof {
        lemma_pow2_pos(s as nat);
        assert(d > 0) by (nonlinear_arith)
            requires
                d == b * pow2(s as nat),
                b > 0,
                pow2(s as nat) > 0,
        ;
        assert(a * pow2(0) == a);
        assert(0 * d == 0);
    }
    let mut rem = top;
    let mut q: u128 = 0;
    let mut m: u32 = 0;
    let half: u128 = 0x8_0000_0000_0000_0000_0000_0000;
    proof {
        lemma_pow2_adds(63, 36);
        lemma_pow2_adds(32, 4);
        assert(pow2(63) * pow2(36) == 0x8_0000_0000_0000_0000_0000_0000) by (nonlinear_arith)
            requires
                pow2(36) == 0x10_0000_0000,
                pow2(63) == 0x8000_0000_0000_0000,
        ;
        assert(half == pow2(99));
    }
    while q < half
        invariant
            half == pow2(99),
            half == 0x8_0000_0000_0000_0000_0000_0000,
            a > 0,
            b > 0,
            d > 0,
            d == den.value(),
            d == b * pow2(s as nat),
            b <= a * pow2(1604),
            s <= 1605,
            m <= 1704 + s,
            q < 2 * half,
            rem.value() < d,
            a * pow2(m as nat) == q * d + rem.value(),
        decreases 1705 + s - m,
    {
        proof {
            // a * 2^m < 2^99 * d == 2^99 * b * 2^s <= a * 2^(99 + 1604 + s)
            let x = rem.value();
            assert(a * pow2(m as nat) < half * d) by (nonlinear_arith)
                requires
                    a * pow2(m as nat) == q * d + x,
                    x < d,
                    q + 1 <= half,
            ;
            lemma_pow2_adds(99, 1604);
            lemma_pow2_adds(1703, s as nat);
            lemma_pow2_pos(s as nat);
            assert(pow2(m as nat) < pow2((1703 + s) as nat)) by (nonlinear_arith)
                requires
                    a * pow2(m as nat) < half * d,
                    half == pow2(99),
                    d == b * pow2(s as nat),
                    b <= a * pow2(1604),
                    pow2(99) * pow2(1604) == pow2(1703),
                    pow2(1703) * pow2(s as nat) == pow2((1703 + s) as nat),
                    a > 0,
                    pow2(s as nat) > 0,
                    pow2(99) > 0,
            ;
            lemma_pow2_order(m as nat, (1703 + s) as nat);
            lemma_pow2_unfold((m + 1) as nat);
            assert(a * pow2((m + 1) as nat) == 2 * q * d + (x * 2 + 0)) by (nonlinear_arith)
                requires
                    a * pow2(m as nat) == q * d + x,
                    pow2((m + 1) as nat) == 2 * pow2(m as nat),
            ;
        }
        rem.scale(2, 0);
        let ghost x2 = rem.value();
        if rem.at_least(&den) {
            rem.subtract(&den);
            proof {
                assert(2 * q * d + x2 == (2 * q + 1) * d + (x2 - d)) by (nonlinear_arith);
            }
            q = 2 * q + 1;
        } else {
            q = 2 * q;
        }
        m += 1;
    }
    let rest = !rem.is_zero();
    let exp: i32 = 1074 + s as i32 - m as i32;
    let ghost num = a * pow2(1074);
    proof {
        let x = a * pow2(m as nat);
        lemma_fundamental_div_mod_converse(x as int, d as int, q as int, rem.value() as int);
        lemma_pow2_adds(1074, s as nat);
        if exp >= 0 {
            lemma_pow2_adds(m as nat, exp as nat);
            assert(m + exp == 1074 + s);
            assert(num * d == x * (b * pow2(exp as nat))) by (nonlinear_arith)
                requires
                    num == a * pow2(1074),
                    d == b * pow2(s as nat),
                    x == a * pow2(m as nat),
                    pow2(1074) * pow2(s as nat) == pow2(m as nat) * pow2(exp as nat),
            ;
        } else {
            let k = (-exp) as nat;
            lemma_pow2_adds((1074 + s) as nat, k);
            assert(1074 + s + k == m);
            assert((num * pow2(k)) * d == x * b) by (nonlinear_arith)
                requires
                    num == a * pow2(1074),
                    d == b * pow2(s as nat),
                    x == a * pow2(m as nat),
                    pow2(1074) * pow2(s as nat) * pow2(k) == pow2(m as nat),
            ;
        }
        lemma_truncated_cross(num, b, exp as int, x, d);
        lemma_pow2_le(54, 99);
        lemma_pow2_unfold(100);
        lemma_pow2_le(100, 127);
    }
    round_truncated(q, exp, rest, Ghost(num), Ghost(b))
}

/// The position of the first of two characters from `from` on, or `to`.
fn find(v: &Vec<char>, from: usize, to: usize, a: char, b: char) -> (r: usize)
    requires
        from <= to <= v.len(),
    ensures
        from <= r <= to,
        r - from == first_of(v@.subrange(from as int, to as int), a, b),
{
    let ghost s = v@.subrange(from as int, to as int);
    let mut i: usize = from;
    assert(s.skip(0) =~= s);
    while i < to && v[i] != a && v[i] != b
        invariant
            from <= i <= to <= v.len(),
            s == v@.subrange(from as int, to as int),
            first_of(s, a, b) == (i - from) + first_of(s.skip(i - from), a, b),
        decreases to - i,
    {
        assert(s.skip(i - from).drop_first() =~= s.skip(i - from + 1));
        assert(s.skip(i - from)[0] == v@[i as int]);
        i += 1;
    }
    if i < to {
        assert(s.skip(i - from)[0] == v@[i as int]);
    }
    i
}

/// A whole number as `text::whole_number` reads it, held to a range far beyond any length.
fn exponent_of(v: &Vec<char>, from: usize) -> (r: Option<i128>)
    requires
        from <= v.len(),
    ensures
        match whole_number(v@.skip(from as int)) {
            Some(n) => {
                let limit = 0x10_0000_0000_0000_0000_0000_0000int;
                &&& r is Some
                &&& -limit <= r->0 <= limit
                &&& r->0 == n || (r->0 == limit && n > limit) || (r->0 == -limit && n < -limit)
            },
            None => r is None,
        },
{
    let ghost s = v@.skip(from as int);
    if from == v.len() {
        return None;
    }
    assert(s[0] == v@[from as int]);
    let negative = v[from] == '-';
    let start: usize = if negative || v[from] == '+' {
        from + 1
    } else {
        from
    };
    let ghost body = v@.skip(start as int);
    assert(body =~= if start == from + 1 {
        s.drop_first()
    } else {
        s
    });
    if start == v.len() {
        return None;
    }
    let limit: i128 = 0x10_0000_0000_0000_0000_0000_0000;
    let mut i: usize = start;
    let mut total: i128 = 0;
    let mut beyond = false;
    assert(body.take(0) =~= Seq::<char>::empty());
    while i < v.len()
        invariant
            limit == 0x10_0000_0000_0000_0000_0000_0000int,
            from <= start <= i <= v.len(),
            from < v.len(),
            s == v@.skip(from as int),
            negative == (s[0] == '-'),
            start == if s[0] == '-' || s[0] == '+' { from + 1 } else { from as int },
            body == v@.skip(start as int),
            body == if start == from + 1 { s.drop_first() } else { s },
            all_digits(body.take(i - start)),
            0 <= total <= limit,
            !beyond ==> total == spelled(body.take(i - start)),
            beyond ==> spelled(body.take(i - start)) > limit,
        decreases v.len() - i,
    {
        let c = v[i];
        let ghost k = i - start;
        assert(body[k] == c);
        if c < '0' || c > '9' {
            assert(!all_digits(body));
            return None;
        }
        let digit: i128 = (c as u8 - 48) as i128;
        assert(body.take(k + 1).drop_last() =~= body.take(k));
        assert(all_digits(body.take(k + 1))) by {
            assert forall|j: int| 0 <= j < k + 1 implies '0' <= #[trigger] body.take(k + 1)[j]
                <= '9' by {
                if j < k {
                    assert(body.take(k)[j] == body.take(k + 1)[j]);
                }
            }
        }
        if !beyond {
            let next: i128 = total * 10 + digit;
            if next > limit {
                beyond = true;
            } else {
                total = next;
            }
        }
        i += 1;
    }
    assert(body.take(body.len() as int) =~= body);
    let size: i128 = if beyond {
        limit
    } else {
        total
    };
    if negative {
        Some(-size)
    } else {
        Some(size)
    }
}

/// The digits of a list from `from` to `to`, added to others; `None` where one is no digit.
fn gather_digits(digits: Vec<char>, v: &Vec<char>, from: usize, to: usize) -> (r: Option<
    Vec<char>,
>)
    requires
        from <= to <= v.len(),
        all_digits(digits@),
    ensures
        match r {
            Some(all) => {
                &&& all_digits(all@)
                &&& all@ == digits@ + v@.subrange(from as int, to as int)
            },
            None => !all_digits(v@.subrange(from as int, to as int)),
        },
{
    let ghost old_digits = digits@;
    let mut all = digits;
    let ghost part = v@.subrange(from as int, to as int);
    let mut i: usize = from;
    assert(all@ =~= old_digits + part.take(0));
    while i < to
        invariant
            from <= i <= to <= v.len(),
            part == v@.subrange(from as int, to as int),
            all_digits(all@),
            all@ == old_digits + part.take(i - from),
        decreases to - i,
    {
        let c = v[i];
        assert(part[i - from] == c);
        if c < '0' || c > '9' {
            return None;
        }
        let ghost before = all@;
        all.push(c);
        assert(all@ =~= old_digits + part.take(i - from + 1));
        assert(all_digits(all@)) by {
            assert forall|j: int| 0 <= j < all@.len() implies '0' <= #[trigger] all@[j]
                <= '9' by {
                if j < before.len() {
                    assert(all@[j] == before[j]);
                }
            }
        }
        i += 1;
    }
    assert(part.take(part.len() as int) =~= part);
    Some(all)
}

/// The number that digits from `from` on spell.
fn digits_value(digits: &Vec<char>, from: usize) -> (r: Big)
    requires
        from <= digits.len(),
        all_digits(digits@),
    ensures
        r.value() == spelled(digits@.skip(from as int)),
{
    let ghost s = digits@.skip(from as int);
    let mut total = Big::small(0);
    assert(s.take(0) =~= Seq::<char>::empty());
    let mut i: usize = from;
    while i < digits.len()
        invariant
            from <= i <= digits.len(),
            s == digits@.skip(from as int),
            all_digits(digits@),
            total.value() == spelled(s.take(i - from)),
        decreases digits.len() - i,
    {
        let c = digits[i];
        assert('0' <= digits@[i as int] <= '9');
        total.scale(10, (c as u8 - 48) as u32);
        proof {
            let k = i - from;
            assert(s.take(k + 1).drop_last() =~= s.take(k));
            assert(s.take(k + 1).last() == c);
        }
        i += 1;
    }
    assert(s.take(s.len() as int) =~= s);
    total
}

/// Multiplies a number by a power of ten.
fn raise(n: Big, k: u128) -> (r: Big)
    ensures
        r.value() == n.value() * ten(k as nat),
{
    let ghost v = n.value();
    let mut total = n;
    proof {
        lemma_ten_zero();
        assert(v * 1 == v);
    }
    let mut i: u128 = 0;
    while i < k
        invariant
            i <= k,
            total.value() == v * ten(i as nat),
        decreases k - i,
    {
        proof {
            lemma_ten_step(i as nat);
            assert(v * ten(i as nat) * 10 + 0 == v * (ten(i as nat) * 10)) by (nonlinear_arith);
        }
        total.scale(10, 0);
        i += 1;
    }
    total
}

/// The magnitude nearest to the digits from `lead` on, the first of them not zero, times a power
/// of ten.
fn scaled_magnitude(digits: &Vec<char>, lead: usize, exponent: i128) -> (r: u64)
    requires
        lead < digits.len(),
        all_digits(digits@),
        digits@[lead as int] != '0',
        -0x20_0000_0000_0000_0000_0000_0000int <= exponent
            <= 0x20_0000_0000_0000_0000_0000_0000int,
    ensures
        r == decimal_magnitude(spelled(digits@.skip(lead as int)), exponent as int),
        r <= INF_MAGNITUDE,
{
    let ghost s = digits@.skip(lead as int);
    let count: i128 = (digits.len() - lead) as i128;
    let ghost d = spelled(s);
    let ghost n = s.len();
    proof {
        assert(all_digits(s)) by {
            assert forall|i: int| 0 <= i < s.len() implies '0' <= #[trigger] s[i] <= '9' by {
                assert(s[i] == digits@[i + lead]);
            }
        }
        lemma_spelled_size(s);
        lemma_ten_pos((n - 1) as nat);
    }
    if count + exponent > 400 {
        proof {
            lemma_ten_between(400);
            lemma_pow2_pos(1074);
            lemma_pow2_adds(1024, 1074);
            lemma_pow2_le(1024, 1200);
            if exponent >= 0 {
                let e = exponent as nat;
                lemma_ten_adds((n - 1) as nat, e);
                let k = (n - 1 + e) as nat;
                lemma_ten_adds(400, (k - 400) as nat);
                lemma_ten_pos((k - 400) as nat);
                lemma_ten_pos(e);
                assert(d * ten(e) * pow2(1074) >= 1 * pow2(2098)) by (nonlinear_arith)
                    requires
                        d >= ten((n - 1) as nat),
                        ten((n - 1) as nat) * ten(e) == ten(k),
                        ten(400) * ten((k - 400) as nat) == ten(k),
                        ten((k - 400) as nat) >= 1,
                        ten(e) >= 1,
                        ten(400) >= pow2(1024),
                        pow2(1024) * pow2(1074) == pow2(2098),
                        pow2(1074) > 0,
                ;
                lemma_beyond_range(d * ten(e) * pow2(1074), 1);
            } else {
                let e = (-exponent) as nat;
                lemma_ten_pos(e);
                let k = (n - 1 - e) as nat;
                lemma_ten_adds(k, e);
                lemma_ten_adds(400, (k - 400) as nat);
                lemma_ten_pos((k - 400) as nat);
                assert(d * pow2(1074) >= ten(e) * pow2(2098)) by (nonlinear_arith)
                    requires
                        d >= ten((n - 1) as nat),
                        ten(k) * ten(e) == ten((n - 1) as nat),
                        ten(400) * ten((k - 400) as nat) == ten(k),
                        ten((k - 400) as nat) >= 1,
                        ten(e) >= 1,
                        ten(400) >= pow2(1024),
                        pow2(1024) * pow2(1074) == pow2(2098),
                        pow2(1074) > 0,
                ;
                lemma_beyond_range(d * pow2(1074), ten(e));
            }
        }
        return INF_MAGNITUDE;
    }
    if count + exponent < -400 {
        proof {
            let e = (-exponent) as nat;
            lemma_ten_between(400);
            lemma_pow2_le(1075, 1200);
            lemma_pow2_unfold(1075);
            lemma_pow2_pos(1074);
            lemma_ten_adds(n, (e - n) as nat);
            lemma_ten_adds(400, (e - n - 400) as nat);
            lemma_ten_pos((e - n - 400) as nat);
            assert(2 * (d * pow2(1074)) < ten(e)) by (nonlinear_arith)
                requires
                    d < ten(n),
                    ten(n) * ten((e - n) as nat) == ten(e),
                    ten(400) * ten((e - n - 400) as nat) == ten((e - n) as nat),
                    ten((e - n - 400) as nat) >= 1,
                    ten(400) >= pow2(1075),
                    pow2(1075) == 2 * pow2(1074),
                    pow2(1074) > 0,
            ;
            lemma_below_range(d * pow2(1074), ten(e));
        }
        return 0;
    }
    let top = digits_value(digits, lead);
    proof {
        lemma_pow2_pos(1604);
        lemma_ten_between(400);
        lemma_ten_between(401);
        lemma_pow2_le(1600, 1604);
        lemma_ten_pos(400);
        lemma_ten_pos(401);
    }
    if exponent >= 0 {
        let raised = raise(top, exponent as u128);
        let one = Big::small(1);
        proof {
            let e = exponent as nat;
            lemma_ten_adds(n, e);
            lemma_ten_adds(n + e, (400 - n - e) as nat);
            lemma_ten_pos(e);
            lemma_ten_pos((400 - n - e) as nat);
            lemma_ten_pos(n + e);
            let a = d * ten(e);
            assert(a < ten(n + e)) by (nonlinear_arith)
                requires
                    a == d * ten(e),
                    d < ten(n),
                    ten(n) * ten(e) == ten(n + e),
                    ten(e) > 0,
            ;
            assert(ten(n + e) <= ten(400)) by (nonlinear_arith)
                requires
                    ten(n + e) * ten((400 - n - e) as nat) == ten(400),
                    ten((400 - n - e) as nat) >= 1,
            ;
            assert(a > 0) by (nonlinear_arith)
                requires
                    a == d * ten(e),
                    d > 0,
                    ten(e) > 0,
            ;
            assert(a <= 1 * pow2(1604));
            assert(1 <= a * pow2(1604)) by (nonlinear_arith)
                requires
                    a >= 1,
                    pow2(1604) >= 1,
            ;
        }
        quotient_magnitude(raised, one)
    } else {
        let bottom = raise(Big::small(1), (-exponent) as u128);
        proof {
            let e = (-exponent) as nat;
            lemma_ten_pos(e);
            let b = 1 * ten(e);
            assert(b == ten(e));
            // d < 10^n <= 10^(400 + e)
            lemma_ten_adds(400, e);
            lemma_ten_adds(n, (400 + e - n) as nat);
            lemma_ten_pos((400 + e - n) as nat);
            lemma_ten_pos(n);
            assert(d <= b * pow2(1604)) by (nonlinear_arith)
                requires
                    d < ten(n),
                    ten(n) * ten((400 + e - n) as nat) == ten(400 + e),
                    ten((400 + e - n) as nat) >= 1,
                    ten(400) * ten(e) == ten(400 + e),
                    ten(400) <= pow2(1604),
                    b == ten(e),
                    ten(e) > 0,
            ;
            // 10^e <= 10^(n + 400) == 10^401 * 10^(n - 1)
            lemma_ten_adds(e, (n + 400 - e) as nat);
            lemma_ten_adds(401, (n - 1) as nat);
            lemma_ten_pos((n + 400 - e) as nat);
            assert(401 + (n - 1) == n + 400);
            assert(b <= d * pow2(1604)) by (nonlinear_arith)
                requires
                    b == ten(e),
                    ten(e) * ten((n + 400 - e) as nat) == ten(n + 400),
                    ten((n + 400 - e) as nat) >= 1,
                    ten(401) * ten((n - 1) as nat) == ten(n + 400),
                    ten(401) <= pow2(1604),
                    d >= ten((n - 1) as nat),
                    ten((n - 1) as nat) > 0,
                    ten(e) > 0,
            ;
        }
        quotient_magnitude(top, bottom)
    }
}

/// Zero digits spell zero.
proof fn lemma_zero_magnitude(exponent: int)
    ensures
        decimal_magnitude(0, exponent) == 0,
{
    let den = if exponent >= 0 {
        1nat
    } else {
        ten((-exponent) as nat)
    };
    if exponent < 0 {
        lemma_ten_pos((-exponent) as nat);
    } else {
        assert(0 * ten(exponent as nat) == 0);
    }
    assert(0 * pow2(1074) == 0);
    lemma_below_range(0, den);
}

/// The digits of a mantissa, and how many of them stand behind the point; `None` where it holds
/// anything else.
fn mantissa_digits(v: &Vec<char>, from: usize, to: usize) -> (r: Option<(Vec<char>, usize)>)
    requires
        from <= to <= v.len(),
    ensures
        ({
            let m = v@.subrange(from as int, to as int);
            match r {
                Some((digits, places)) => {
                    &&& all_digits(digits@)
                    &&& digits@ == whole_part(m) + fraction_part(m)
                    &&& places == fraction_part(m).len()
                },
                None => !all_digits(whole_part(m) + fraction_part(m)),
            }
        }),
{
    let ghost m = v@.subrange(from as int, to as int);
    let dot = find(v, from, to, '.', '.');
    let ghost whole = whole_part(m);
    let ghost fraction = fraction_part(m);
    assert(v@.subrange(from as int, dot as int) =~= whole);
    let start: Vec<char> = Vec::new();
    let whole_digits = match gather_digits(start, v, from, dot) {
        Some(d) => d,
        None => {
            assert(!all_digits(whole + fraction)) by {
                let k = choose|k: int|
                    0 <= k < whole.len() && !('0' <= #[trigger] whole[k] <= '9');
                assert((whole + fraction)[k] == whole[k]);
            }
            return None;
        },
    };
    assert(whole_digits@ =~= whole);
    if dot < to {
        assert(v@.subrange(dot + 1, to as int) =~= fraction);
        match gather_digits(whole_digits, v, dot + 1, to) {
            Some(d) => Some((d, to - dot - 1)),
            None => {
                assert(!all_digits(whole + fraction)) by {
                    let k = choose|k: int|
                        0 <= k < fraction.len() && !('0' <= #[trigger] fraction[k] <= '9');
                    assert((whole + fraction)[whole.len() + k] == fraction[k]);
                }
                None
            },
        }
    } else {
        assert(whole + fraction =~= whole);
        Some((whole_digits, 0))
    }
}

/// How many zeros digits begin with.
fn leading_zeros(digits: &Vec<char>) -> (r: usize)
    ensures
        r <= digits.len(),
        spelled(digits@.skip(r as int)) == spelled(digits@),
        r < digits.len() ==> digits@[r as int] != '0',
{
    let mut lead: usize = 0;
    assert(digits@.skip(0) =~= digits@);
    while lead < digits.len() && digits[lead] == '0'
        invariant
            lead <= digits.len(),
            spelled(digits@.skip(lead as int)) == spelled(digits@),
        decreases digits.len() - lead,
    {
        proof {
            let rest = digits@.skip(lead as int);
            assert(rest[0] == '0');
            lemma_spelled_leading_zero(rest);
            assert(rest.drop_first() =~= digits@.skip(lead + 1));
        }
        lead += 1;
    }
    lead
}

/// The magnitude that a text without sign spells.
fn unsigned(v: &Vec<char>, from: usize) -> (r: Option<u64>)
    requires
        from <= v.len(),
    ensures
        match unsigned_magnitude(v@.skip(from as int)) {
            Some(m) => r == Some(m as u64) && m <= INF_MAGNITUDE,
            None => r is None,
        },
{
    let ghost s = v@.skip(from as int);
    let len = v.len();
    assert(v@.subrange(from as int, len as int) =~= s);
    let cut = find(v, from, len, 'e', 'E');
    let ghost c = cut - from;
    let ghost mantissa = s.take(c);
    assert(v@.subrange(from as int, cut as int) =~= mantissa);
    let exponent: i128 = if cut < len {
        assert(s.skip(c + 1) =~= v@.skip(cut + 1));
        match exponent_of(v, cut + 1) {
            Some(e) => e,
            None => {
                return None;
            },
        }
    } else {
        0
    };
    let ghost e = exponent_part(s, c)->0;
    let (digits, places) = match mantissa_digits(v, from, cut) {
        Some(parts) => parts,
        None => {
            return None;
        },
    };
    if digits.len() == 0 {
        return None;
    }
    let lead = leading_zeros(&digits);
    if lead == digits.len() {
        proof {
            assert(digits@.skip(lead as int) =~= Seq::<char>::empty());
            assert(spelled(digits@) == 0);
            lemma_zero_magnitude(e - places);
        }
        return Some(0);
    }
    let total: i128 = exponent - places as i128;
    let m = scaled_magnitude(&digits, lead, total);
    proof {
        if exponent != e {
            let rest = digits@.skip(lead as int);
            assert(rest[0] == digits@[lead as int]);
            assert(all_digits(rest)) by {
                assert forall|i: int| 0 <= i < rest.len() implies '0' <= #[trigger] rest[i]
                    <= '9' by {
                    assert(rest[i] == digits@[i + lead]);
                }
            }
            lemma_far_exponents(rest, total as int, e - places);
        }
    }
    Some(m)
}

/// Exponents beyond any length of digits give the same magnitude.
proof fn lemma_far_exponents(s: Seq<char>, a: int, b: int)
    requires
        s.len() > 0,
        s.len() <= usize::MAX,
        all_digits(s),
        s[0] != '0',
        (a > 0x1_0000_0000_0000_0000 && b > 0x1_0000_0000_0000_0000) || (a
            < -0x2_0000_0000_0000_0000 && b < -0x2_0000_0000_0000_0000),
    ensures
        decimal_magnitude(spelled(s), a) == decimal_magnitude(spelled(s), b),
{
    lemma_far_exponent(s, a);
    lemma_far_exponent(s, b);
}

proof fn lemma_far_exponent(s: Seq<char>, a: int)
    requires
        s.len() > 0,
        s.len() <= usize::MAX,
        all_digits(s),
        s[0] != '0',
        a > 0x1_0000_0000_0000_0000 || a < -0x2_0000_0000_0000_0000,
    ensures
        decimal_magnitude(spelled(s), a) == if a > 0 {
            INF_MAGNITUDE as nat
        } else {
            0
        },
{
    let d = spelled(s);
    let n = s.len();
    lemma_spelled_size(s);
    lemma_ten_pos((n - 1) as nat);
    lemma_ten_between(400);
    lemma_pow2_pos(1074);
    if a > 0 {
        let e = a as nat;
        lemma_pow2_adds(1024, 1074);
        lemma_pow2_le(1024, 1200);
        lemma_ten_adds(400, (e - 400) as nat);
        lemma_ten_pos((e - 400) as nat);
        assert(d * ten(e) * pow2(1074) >= 1 * pow2(2098)) by (nonlinear_arith)
            requires
                d >= 1,
                ten(400) * ten((e - 400) as nat) == ten(e),
                ten((e - 400) as nat) >= 1,
                ten(400) >= pow2(1024),
                pow2(1024) * pow2(1074) == pow2(2098),
                pow2(1074) > 0,
        ;
        lemma_beyond_range(d * ten(e) * pow2(1074), 1);
    } else {
        let e = (-a) as nat;
        lemma_pow2_le(1075, 1200);
        lemma_pow2_unfold(1075);
        lemma_ten_adds(n, (e - n) as nat);
        lemma_ten_adds(400, (e - n - 400) as nat);
        lemma_ten_pos((e - n - 400) as nat);
        assert(2 * (d * pow2(1074)) < ten(e)) by (nonlinear_arith)
            requires
                d < ten(n),
                ten(n) * ten((e - n) as nat) == ten(e),
                ten(400) * ten((e - n - 400) as nat) == ten((e - n) as nat),
                ten((e - n - 400) as nat) >= 1,
                ten(400) >= pow2(1075),
                pow2(1075) == 2 * pow2(1074),
                pow2(1074) > 0,
        ;
        lemma_below_range(d * pow2(1074), ten(e));
    }
}

/// Reads a number in decimal notation: the nearest binary64 number, or the name of an infinity
/// or of no number, after at most one sign; `None` for any other text.
pub fn decimal(text: &str) -> (r: Option<Num>)
    ensures
        r == spec_decimal(text@),
{
    let v = text::letters(text);
    let negative = v.len() > 0 && v[0] == '-';
    let from: usize = if v.len() > 0 && (v[0] == '-' || v[0] == '+') {
        1
    } else {
        0
    };
    let ghost body = if from == 1 {
        text@.drop_first()
    } else {
        text@
    };
    assert(v@.skip(from as int) =~= body);
    assert(v@.subrange(from as int, v@.len() as int) =~= body);
    let name = text::lower(text::gathered(&v, from, v.len()).as_str());
    if text::same(name.as_str(), "inf") || text::same(name.as_str(), "infinity") {
        return Some(Num::signed(negative, INF_MAGNITUDE));
    }
    if text::same(name.as_str(), "nan") {
        return Some(Num::signed(negative, NAN_BITS));
    }
    match unsigned(&v, from) {
        Some(magnitude) => Some(Num::signed(negative, magnitude)),
        None => None,
    }
}

} // verus!
