//! Natural numbers of any size.

use vstd::arithmetic::power2::{lemma2_to64, lemma_pow2_adds, pow2};
use vstd::prelude::*;

verus! {

/// A natural number, by its digits to the base 2^32, lowest first.
pub(crate) struct Big {
    limbs: Vec<u32>,
}

/// The digit at a position; zero beyond the last.
pub(crate) open spec fn limb(s: Seq<u32>, i: nat) -> nat {
    if i < s.len() {
        s[i as int] as nat
    } else {
        0
    }
}

/// The value of the lowest `n` digits.
pub(crate) open spec fn low(s: Seq<u32>, n: nat) -> nat
    decreases n,
{
    if n == 0 {
        0
    } else {
        low(s, (n - 1) as nat) + limb(s, (n - 1) as nat) * pow2((32 * (n - 1)) as nat)
    }
}

proof fn lemma_low_extends(s: Seq<u32>, n: nat)
    requires
        n >= s.len(),
    ensures
        low(s, n) == low(s, s.len()),
    decreases n,
{
    if n > s.len() {
        lemma_low_extends(s, (n - 1) as nat);
        assert(0 * pow2((32 * (n - 1)) as nat) == 0);
    }
}

proof fn lemma_low_bounded(s: Seq<u32>, n: nat)
    ensures
        low(s, n) < pow2(32 * n),
    decreases n,
{
    lemma2_to64();
    if n > 0 {
        let m = (n - 1) as nat;
        lemma_low_bounded(s, m);
        lemma_pow2_adds(32 * m, 32);
        assert(32 * m + 32 == 32 * n);
        let p = pow2(32 * m);
        let d = limb(s, m);
        assert(low(s, m) + d * p < p * pow2(32)) by (nonlinear_arith)
            requires
                low(s, m) < p,
                d + 1 <= pow2(32),
        ;
    } else {
        assert(pow2(0) == 1);
    }
}

proof fn lemma_low_same(s: Seq<u32>, t: Seq<u32>, n: nat)
    requires
        forall|i: int| 0 <= i < n ==> #[trigger] limb(s, i as nat) == limb(t, i as nat),
    ensures
        low(s, n) == low(t, n),
    decreases n,
{
    if n > 0 {
        assert(limb(s, (n - 1) as nat) == limb(t, (n - 1) as nat)) by {
            assert(limb(s, (n - 1) as int as nat) == limb(t, (n - 1) as int as nat));
        }
        lemma_low_same(s, t, (n - 1) as nat);
    }
}

/// The order of two numbers is that of the highest digit in which they differ.
proof fn lemma_low_differs(s: Seq<u32>, t: Seq<u32>, i: nat, n: nat)
    requires
        i < n,
        limb(s, i) < limb(t, i),
        forall|j: int| i < j < n ==> #[trigger] limb(s, j as nat) == limb(t, j as nat),
    ensures
        low(s, n) < low(t, n),
    decreases n,
{
    let m = (n - 1) as nat;
    if m > i {
        assert(limb(s, m) == limb(t, m)) by {
            assert(limb(s, m as int as nat) == limb(t, m as int as nat));
        }
        lemma_low_differs(s, t, i, m);
    } else {
        lemma_low_bounded(s, m);
        let p = pow2(32 * m);
        let a = limb(s, m);
        let b = limb(t, m);
        assert(a * p + p <= b * p) by (nonlinear_arith)
            requires
                a + 1 <= b,
                p >= 0,
        ;
    }
}

impl Big {
    /// The number.
    pub closed spec fn value(&self) -> nat {
        low(self.limbs@, self.limbs@.len())
    }

    /// The number of one digit.
    pub fn small(n: u32) -> (r: Big)
        ensures
            r.value() == n,
    {
        let mut limbs: Vec<u32> = Vec::new();
        limbs.push(n);
        proof {
            lemma2_to64();
            reveal_with_fuel(low, 2);
            assert(limb(limbs@, 0) == n);
            assert(n * pow2(0) == n);
        }
        Big { limbs }
    }

    /// Multiplies by `k` and adds `plus`.
    pub fn scale(&mut self, k: u32, plus: u32)
        ensures
            final(self).value() == old(self).value() * k + plus,
    {
        let ghost before = self.limbs@;
        let n = self.limbs.len();
        let mut carry: u32 = plus;
        proof {
            lemma2_to64();
            assert(0 * (k as nat) == 0);
            assert(carry * pow2(0) == carry);
        }
        for i in 0..n
            invariant
                self.limbs@.len() == n,
                before.len() == n,
                forall|j: int| i <= j < n ==> self.limbs@[j] == before[j],
                low(self.limbs@, i as nat) + carry * pow2((32 * i) as nat) == low(before, i as nat)
                    * k + plus,
        {
            let d: u32 = self.limbs[i];
            proof {
                assert(d * k <= 0xFFFF_FFFFu32 * 0xFFFF_FFFFu32) by (nonlinear_arith)
                    requires
                        0 <= d <= 0xFFFF_FFFF,
                        0 <= k <= 0xFFFF_FFFF,
                ;
            }
            let t: u64 = d as u64 * k as u64 + carry as u64;
            let digit: u32 = (t % 0x1_0000_0000) as u32;
            let ghost old_limbs = self.limbs@;
            let ghost old_carry = carry;
            self.limbs.set(i, digit);
            carry = (t / 0x1_0000_0000) as u32;
            proof {
                let ii = i as nat;
                let p = pow2(32 * ii);
                lemma2_to64();
                lemma_pow2_adds(32 * ii, 32);
                assert(32 * ii + 32 == 32 * (ii + 1));
                assert forall|j: int| 0 <= j < ii implies #[trigger] limb(
                    self.limbs@,
                    j as nat,
                ) == limb(old_limbs, j as nat) by {}
                lemma_low_same(self.limbs@, old_limbs, ii);
                assert(limb(self.limbs@, ii) == digit);
                assert(limb(before, ii) == d);
                assert(t == digit + carry * 0x1_0000_0000);
                let l = low(old_limbs, ii);
                let b = low(before, ii);
                assert(l + digit * p + carry * (p * 0x1_0000_0000) == (b + d * p) * k + plus)
                    by (nonlinear_arith)
                    requires
                        l + old_carry * p == b * k + plus,
                        digit + carry * 0x1_0000_0000 == d * k + old_carry,
                ;
            }
        }
        if carry > 0 {
            let ghost old_limbs = self.limbs@;
            self.limbs.push(carry);
            proof {
                assert forall|j: int| 0 <= j < n implies #[trigger] limb(self.limbs@, j as nat)
                    == limb(old_limbs, j as nat) by {}
                lemma_low_same(self.limbs@, old_limbs, n as nat);
                assert(limb(self.limbs@, n as nat) == carry);
            }
        } else {
            proof {
                assert(0 * pow2((32 * n) as nat) == 0);
            }
        }
    }

    /// Whether this number is at least `other`.
    pub fn at_least(&self, other: &Big) -> (r: bool)
        ensures
            r == (self.value() >= other.value()),
    {
        let n = if self.limbs.len() > other.limbs.len() {
            self.limbs.len()
        } else {
            other.limbs.len()
        };
        let ghost a = self.limbs@;
        let ghost b = other.limbs@;
        proof {
            lemma_low_extends(a, n as nat);
            lemma_low_extends(b, n as nat);
        }
        let mut i: usize = n;
        while i > 0
            invariant
                i <= n,
                a == self.limbs@,
                b == other.limbs@,
                self.value() == low(a, n as nat),
                other.value() == low(b, n as nat),
                forall|j: int| i <= j < n ==> #[trigger] limb(a, j as nat) == limb(b, j as nat),
            decreases i,
        {
            i -= 1;
            let x: u32 = if i < self.limbs.len() {
                self.limbs[i]
            } else {
                0
            };
            let y: u32 = if i < other.limbs.len() {
                other.limbs[i]
            } else {
                0
            };
            assert(x == limb(a, i as nat));
            assert(y == limb(b, i as nat));
            if x > y {
                proof {
                    assert forall|j: int| i < j < n implies #[trigger] limb(b, j as nat) == limb(
                        a,
                        j as nat,
                    ) by {
                        assert(limb(a, j as nat) == limb(b, j as nat));
                    }
                    lemma_low_differs(b, a, i as nat, n as nat);
                }
                return true;
            }
            if x < y {
                proof {
                    lemma_low_differs(a, b, i as nat, n as nat);
                }
                return false;
            }
        }
        proof {
            lemma_low_same(a, b, n as nat);
        }
        true
    }

    /// Subtracts a number that is not greater.
    pub fn subtract(&mut self, other: &Big)
        requires
            old(self).value() >= other.value(),
        ensures
            final(self).value() == old(self).value() - other.value(),
    {
        let ghost start = self.limbs@;
        while self.limbs.len() < other.limbs.len()
            invariant
                start.len() <= self.limbs@.len(),
                forall|j: int| 0 <= j < start.len() ==> self.limbs@[j] == start[j],
                forall|j: int| start.len() <= j < self.limbs@.len() ==> self.limbs@[j] == 0,
            decreases other.limbs@.len() - self.limbs@.len(),
        {
            self.limbs.push(0);
        }
        let n = self.limbs.len();
        let ghost a = self.limbs@;
        let ghost b = other.limbs@;
        proof {
            lemma_low_extends(start, n as nat);
            lemma_low_extends(b, n as nat);
            assert forall|j: int| 0 <= j < n implies #[trigger] limb(a, j as nat) == limb(
                start,
                j as nat,
            ) by {}
            lemma_low_same(a, start, n as nat);
            assert(0 * pow2(0) == 0);
        }
        let mut borrow: u32 = 0;
        for i in 0..n
            invariant
                self.limbs@.len() == n,
                a.len() == n,
                b == other.limbs@,
                borrow <= 1,
                forall|j: int| i <= j < n ==> self.limbs@[j] == a[j],
                low(self.limbs@, i as nat) + low(b, i as nat) == low(a, i as nat) + borrow * pow2(
                    (32 * i) as nat,
                ),
        {
            let x: u32 = self.limbs[i];
            let y: u32 = if i < other.limbs.len() {
                other.limbs[i]
            } else {
                0
            };
            let taken: u64 = y as u64 + borrow as u64;
            let ghost old_limbs = self.limbs@;
            let ghost old_borrow = borrow;
            let digit: u32;
            if x as u64 >= taken {
                digit = (x as u64 - taken) as u32;
                borrow = 0;
            } else {
                digit = (x as u64 + 0x1_0000_0000 - taken) as u32;
                borrow = 1;
            }
            self.limbs.set(i, digit);
            proof {
                let ii = i as nat;
                let p = pow2(32 * ii);
                lemma2_to64();
                lemma_pow2_adds(32 * ii, 32);
                assert(32 * ii + 32 == 32 * (ii + 1));
                assert forall|j: int| 0 <= j < ii implies #[trigger] limb(
                    self.limbs@,
                    j as nat,
                ) == limb(old_limbs, j as nat) by {}
                lemma_low_same(self.limbs@, old_limbs, ii);
                assert(limb(self.limbs@, ii) == digit);
                assert(limb(a, ii) == x);
                assert(limb(b, ii) == y);
                let l = low(old_limbs, ii);
                let lb = low(b, ii);
                let la = low(a, ii);
                assert(l + digit * p + (lb + y * p) == la + x * p + borrow * (p * 0x1_0000_0000))
                    by (nonlinear_arith)
                    requires
                        l + lb == la + old_borrow * p,
                        digit + y + old_borrow == x + borrow * 0x1_0000_0000,
                ;
            }
        }
        proof {
            lemma_low_bounded(self.limbs@, n as nat);
            if borrow == 1 {
                assert(1 * pow2((32 * n) as nat) == pow2((32 * n) as nat));
                assert(low(self.limbs@, n as nat) >= pow2((32 * n) as nat));
            }
            assert(0 * pow2((32 * n) as nat) == 0);
        }
    }

    /// Whether the number is zero.
    pub fn is_zero(&self) -> (r: bool)
        ensures
            r == (self.value() == 0),
    {
        let zero = Big::small(0);
        zero.at_least(self)
    }
}

} // verus!
