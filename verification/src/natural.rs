//! Natural numbers of any size.
//!
//! Binary floating-point results are defined by exact rational numbers that do not fit in any
//! machine integer, so [`crate::float`] computes them here before rounding.

use vstd::arithmetic::div_mod::{lemma_fundamental_div_mod, lemma_fundamental_div_mod_converse};
use vstd::arithmetic::power2::{
    lemma2_to64, lemma_pow2_adds, lemma_pow2_pos, lemma_pow2_strictly_increases, pow2,
};
use vstd::prelude::*;

verus! {

/// The weight of the limb at index `i`.
pub open spec fn weight(i: nat) -> nat
    decreases i,
{
    if i == 0 {
        1
    } else {
        0x1_0000_0000 * weight((i - 1) as nat)
    }
}

/// The limb at index `i`, which is zero from the end of the limbs on.
pub open spec fn limb_at(limbs: Seq<u32>, i: int) -> nat {
    if 0 <= i < limbs.len() {
        limbs[i] as nat
    } else {
        0
    }
}

/// The number that the lowest `n` limbs stand for.
pub open spec fn low_value(limbs: Seq<u32>, n: nat) -> nat
    decreases n,
{
    if n == 0 {
        0
    } else {
        low_value(limbs, (n - 1) as nat) + limb_at(limbs, n - 1) * weight((n - 1) as nat)
    }
}

/// How many binary digits a number has. Zero has none.
pub open spec fn bits(n: nat) -> nat
    decreases n,
{
    if n == 0 {
        0
    } else {
        1 + bits(n / 2)
    }
}

/// The number of binary digits goes by the powers of two around a number.
pub proof fn lemma_bits(n: nat, length: nat)
    requires
        length > 0,
        pow2((length - 1) as nat) <= n < pow2(length),
    ensures
        bits(n) == length,
    decreases length,
{
    lemma2_to64();
    lemma_pow2_adds((length - 1) as nat, 1);
    lemma_pow2_pos((length - 1) as nat);
    if length == 1 {
        assert(n == 1 && bits(0) == 0);
    } else {
        lemma_pow2_adds((length - 2) as nat, 1);
        lemma_bits(n / 2, (length - 1) as nat);
    }
}

/// The most binary digits that are counted.
pub const MAX_BITS: u32 = 0x2000_0000;

/// A natural number, held as limbs of 32 bits with the lowest first.
pub struct Natural {
    limbs: Vec<u32>,
}

impl View for Natural {
    type V = nat;

    closed spec fn view(&self) -> nat {
        low_value(self.limbs@, self.limbs@.len())
    }
}

proof fn lemma_weight_step(i: nat)
    ensures
        weight(i + 1) == 0x1_0000_0000 * weight(i),
        weight(i) > 0,
    decreases i,
{
    if i > 0 {
        lemma_weight_step((i - 1) as nat);
    }
}

proof fn lemma_weight_sum(a: nat, b: nat)
    ensures
        weight(a + b) == weight(a) * weight(b),
    decreases a,
{
    if a == 0 {
        assert(1 * weight(b) == weight(b)) by (nonlinear_arith);
    } else {
        let c = (a - 1) as nat;
        lemma_weight_sum(c, b);
        let x = weight(c);
        let y = weight(b);
        assert(0x1_0000_0000 * (x * y) == (0x1_0000_0000 * x) * y) by (nonlinear_arith);
    }
}

proof fn lemma_weight_is_power(n: nat)
    ensures
        weight(n) == pow2(32 * n),
    decreases n,
{
    lemma2_to64();
    if n > 0 {
        let m = (n - 1) as nat;
        lemma_weight_is_power(m);
        lemma_pow2_adds(32, 32 * m);
    }
}

proof fn lemma_low_value_bound(limbs: Seq<u32>, n: nat)
    ensures
        low_value(limbs, n) < weight(n),
    decreases n,
{
    if n > 0 {
        let m = (n - 1) as nat;
        lemma_low_value_bound(limbs, m);
        lemma_weight_step(m);
        let d = limb_at(limbs, m as int);
        let w = weight(m);
        assert(d * w <= 0xffff_ffff * w) by (nonlinear_arith)
            requires
                d <= 0xffff_ffff,
        ;
    }
}

proof fn lemma_low_value_same(a: Seq<u32>, b: Seq<u32>, n: nat)
    requires
        forall|i: int| 0 <= i < n ==> limb_at(a, i) == limb_at(b, i),
    ensures
        low_value(a, n) == low_value(b, n),
    decreases n,
{
    if n > 0 {
        lemma_low_value_same(a, b, (n - 1) as nat);
    }
}

proof fn lemma_low_value_beyond(limbs: Seq<u32>, n: nat)
    requires
        n >= limbs.len(),
    ensures
        low_value(limbs, n) == low_value(limbs, limbs.len()),
    decreases n,
{
    if n > limbs.len() {
        lemma_low_value_beyond(limbs, (n - 1) as nat);
        assert(limb_at(limbs, n - 1) == 0);
    }
}

proof fn lemma_low_value_push(limbs: Seq<u32>, x: u32)
    ensures
        low_value(limbs.push(x), limbs.len() + 1) == low_value(limbs, limbs.len()) + x * weight(
            limbs.len(),
        ),
{
    lemma_low_value_same(limbs.push(x), limbs, limbs.len());
}

impl Natural {
    /// The number that some limbs stand for, without the zeros above them.
    fn from_limbs(limbs: Vec<u32>) -> (natural: Natural)
        ensures
            natural@ == low_value(limbs@, limbs@.len()),
    {
        let mut limbs = limbs;
        let ghost all = limbs@;
        while limbs.len() > 0 && limbs[limbs.len() - 1] == 0
            invariant
                low_value(limbs@, limbs@.len()) == low_value(all, all.len()),
            decreases limbs@.len(),
        {
            proof {
                let rest = limbs@.drop_last();
                lemma_low_value_push(rest, 0);
                assert(rest.push(0) =~= limbs@);
                assert(0 * weight(rest.len()) == 0) by (nonlinear_arith);
            }
            limbs.pop();
        }
        Natural { limbs }
    }

    fn limb(&self, i: usize) -> (limb: u32)
        ensures
            limb == limb_at(self.limbs@, i as int),
    {
        if i < self.limbs.len() {
            self.limbs[i]
        } else {
            0
        }
    }

    /// The natural number of a machine integer.
    pub fn from_u64(n: u64) -> (natural: Natural)
        ensures
            natural@ == n,
    {
        let low: u32 = (n % 0x1_0000_0000) as u32;
        let high: u32 = (n / 0x1_0000_0000) as u32;
        let mut limbs: Vec<u32> = Vec::new();
        limbs.push(low);
        limbs.push(high);
        proof {
            reveal_with_fuel(low_value, 3);
            reveal_with_fuel(weight, 2);
            assert(low_value(limbs@, 2) == low * weight(0) + high * weight(1));
            assert(low * weight(0) + high * weight(1) == low + high * 0x1_0000_0000)
                by (nonlinear_arith)
                requires
                    weight(0) == 1,
                    weight(1) == 0x1_0000_0000,
            ;
        }
        Natural::from_limbs(limbs)
    }

    /// `self * factor + addend`.
    pub fn mul_add(&self, factor: u32, addend: u32) -> (result: Natural)
        ensures
            result@ == self@ * factor + addend,
    {
        let mut limbs: Vec<u32> = Vec::new();
        let mut carry: u32 = addend;
        let mut i: usize = 0;
        assert(0 * factor == 0 && carry * 1 == carry) by (nonlinear_arith);
        while i < self.limbs.len()
            invariant
                i <= self.limbs@.len(),
                limbs@.len() == i,
                low_value(limbs@, i as nat) + carry * weight(i as nat) == low_value(
                    self.limbs@,
                    i as nat,
                ) * factor + addend,
            decreases self.limbs.len() - i,
        {
            let d: u32 = self.limbs[i];
            assert(d as u64 * factor as u64 + carry as u64 <= u64::MAX) by (nonlinear_arith)
                requires
                    d <= 0xffff_ffff,
                    factor <= 0xffff_ffff,
                    carry <= 0xffff_ffff,
            ;
            assert(0 <= d * factor <= 0xffff_ffff * 0xffff_ffff) by (nonlinear_arith)
                requires
                    0 <= d <= 0xffff_ffff,
                    0 <= factor <= 0xffff_ffff,
            ;
            let t: u64 = d as u64 * factor as u64 + carry as u64;
            let digit: u32 = (t % 0x1_0000_0000) as u32;
            let next: u32 = (t / 0x1_0000_0000) as u32;
            proof {
                let w = weight(i as nat);
                lemma_weight_step(i as nat);
                lemma_low_value_push(limbs@, digit);
                let l = low_value(self.limbs@, i as nat);
                assert((l + d * w) * factor + addend == l * factor + addend + (d * factor) * w)
                    by (nonlinear_arith);
                assert(digit * w + next * (0x1_0000_0000 * w) == (d * factor) * w + carry * w)
                    by (nonlinear_arith)
                    requires
                        digit + next * 0x1_0000_0000 == d * factor + carry,
                ;
            }
            limbs.push(digit);
            carry = next;
            i = i + 1;
        }
        proof {
            lemma_low_value_push(limbs@, carry);
        }
        limbs.push(carry);
        Natural::from_limbs(limbs)
    }

    /// `2 * self`.
    pub fn double(&self) -> (result: Natural)
        ensures
            result@ == 2 * self@,
    {
        self.mul_add(2, 0)
    }

    /// `self` with `n` limbs of zero below it.
    fn raised(&self, n: usize) -> (result: Natural)
        ensures
            result@ == self@ * weight(n as nat),
    {
        let mut limbs: Vec<u32> = Vec::new();
        let mut i: usize = 0;
        while i < n
            invariant
                i <= n,
                limbs@.len() == i,
                low_value(limbs@, i as nat) == 0,
            decreases n - i,
        {
            proof {
                lemma_low_value_push(limbs@, 0);
                assert(0 * weight(i as nat) == 0) by (nonlinear_arith);
            }
            limbs.push(0);
            i = i + 1;
        }
        let mut j: usize = 0;
        assert(0 * weight(n as nat) == 0) by (nonlinear_arith);
        while j < self.limbs.len()
            invariant
                j <= self.limbs@.len(),
                limbs@.len() == n + j,
                low_value(limbs@, (n + j) as nat) == low_value(self.limbs@, j as nat) * weight(
                    n as nat,
                ),
            decreases self.limbs.len() - j,
        {
            let limb: u32 = self.limbs[j];
            proof {
                lemma_low_value_push(limbs@, limb);
                lemma_weight_sum(j as nat, n as nat);
                let low = low_value(self.limbs@, j as nat);
                let a = weight(j as nat);
                let b = weight(n as nat);
                assert((low + limb * a) * b == low * b + limb * (a * b)) by (nonlinear_arith);
            }
            limbs.push(limb);
            j = j + 1;
        }
        Natural { limbs }
    }

    /// `self * 2^n`.
    pub fn shifted(&self, n: u32) -> (result: Natural)
        ensures
            result@ == self@ * pow2(n as nat),
    {
        let mut result = self.raised((n / 32) as usize);
        let mut left: u32 = n % 32;
        proof {
            lemma2_to64();
            lemma_weight_is_power((n / 32) as nat);
            lemma_pow2_adds((32 * (n / 32)) as nat, left as nat);
            let w = weight((n / 32) as nat);
            let p = pow2(left as nat);
            assert((self@ * w) * p == self@ * (w * p)) by (nonlinear_arith);
        }
        while left > 0
            invariant
                left <= n,
                result@ * pow2(left as nat) == self@ * pow2(n as nat),
            decreases left,
        {
            let ghost before = result@;
            result = result.double();
            proof {
                lemma2_to64();
                lemma_pow2_adds((left - 1) as nat, 1);
                let p = pow2((left - 1) as nat);
                assert((2 * before) * p == before * (p * 2)) by (nonlinear_arith);
            }
            left = left - 1;
        }
        proof {
            lemma2_to64();
            assert(result@ * pow2(left as nat) == result@) by (nonlinear_arith)
                requires
                    pow2(left as nat) == 1,
            ;
        }
        result
    }

    /// Whether `self` is less than `other`.
    pub fn less_than(&self, other: &Natural) -> (less: bool)
        ensures
            less == (self@ < other@),
    {
        let n: usize = if self.limbs.len() < other.limbs.len() {
            other.limbs.len()
        } else {
            self.limbs.len()
        };
        let mut less: bool = false;
        let mut i: usize = 0;
        while i < n
            invariant
                i <= n,
                less == (low_value(self.limbs@, i as nat) < low_value(other.limbs@, i as nat)),
            decreases n - i,
        {
            let a: u32 = self.limb(i);
            let b: u32 = other.limb(i);
            proof {
                lemma_low_value_bound(self.limbs@, i as nat);
                lemma_low_value_bound(other.limbs@, i as nat);
                let w = weight(i as nat);
                let x = low_value(self.limbs@, i as nat);
                let y = low_value(other.limbs@, i as nat);
                if a < b {
                    assert(x + a * w < y + b * w) by (nonlinear_arith)
                        requires
                            a + 1 <= b,
                            x < w,
                            y >= 0,
                    ;
                } else if a > b {
                    assert(x + a * w > y + b * w) by (nonlinear_arith)
                        requires
                            b + 1 <= a,
                            y < w,
                            x >= 0,
                    ;
                }
            }
            if a != b {
                less = a < b;
            }
            i = i + 1;
        }
        proof {
            lemma_low_value_beyond(self.limbs@, n as nat);
            lemma_low_value_beyond(other.limbs@, n as nat);
        }
        less
    }

    /// `self + other`.
    pub fn plus(&self, other: &Natural) -> (result: Natural)
        ensures
            result@ == self@ + other@,
    {
        let n: usize = if self.limbs.len() < other.limbs.len() {
            other.limbs.len()
        } else {
            self.limbs.len()
        };
        let mut limbs: Vec<u32> = Vec::new();
        let mut carry: u32 = 0;
        let mut i: usize = 0;
        while i < n
            invariant
                i <= n,
                carry <= 1,
                limbs@.len() == i,
                low_value(limbs@, i as nat) + carry * weight(i as nat) == low_value(
                    self.limbs@,
                    i as nat,
                ) + low_value(other.limbs@, i as nat),
            decreases n - i,
        {
            let a: u32 = self.limb(i);
            let b: u32 = other.limb(i);
            let t: u64 = a as u64 + b as u64 + carry as u64;
            let digit: u32 = (t % 0x1_0000_0000) as u32;
            let next: u32 = (t / 0x1_0000_0000) as u32;
            proof {
                let w = weight(i as nat);
                lemma_weight_step(i as nat);
                lemma_low_value_push(limbs@, digit);
                assert(digit * w + next * (0x1_0000_0000 * w) == a * w + b * w + carry * w)
                    by (nonlinear_arith)
                    requires
                        digit + next * 0x1_0000_0000 == a + b + carry,
                ;
            }
            limbs.push(digit);
            carry = next;
            i = i + 1;
        }
        proof {
            lemma_low_value_push(limbs@, carry);
            lemma_low_value_beyond(self.limbs@, n as nat);
            lemma_low_value_beyond(other.limbs@, n as nat);
        }
        limbs.push(carry);
        Natural::from_limbs(limbs)
    }

    /// `self - other`.
    pub fn minus(&self, other: &Natural) -> (result: Natural)
        requires
            self@ >= other@,
        ensures
            result@ == self@ - other@,
    {
        let n: usize = if self.limbs.len() < other.limbs.len() {
            other.limbs.len()
        } else {
            self.limbs.len()
        };
        let mut limbs: Vec<u32> = Vec::new();
        let mut borrow: u32 = 0;
        let mut i: usize = 0;
        while i < n
            invariant
                i <= n,
                borrow <= 1,
                limbs@.len() == i,
                low_value(limbs@, i as nat) + low_value(other.limbs@, i as nat) == low_value(
                    self.limbs@,
                    i as nat,
                ) + borrow * weight(i as nat),
            decreases n - i,
        {
            let a: u32 = self.limb(i);
            let b: u32 = other.limb(i);
            let t: u64 = 0x1_0000_0000 + a as u64 - b as u64 - borrow as u64;
            let digit: u32 = (t % 0x1_0000_0000) as u32;
            let next: u32 = if t < 0x1_0000_0000 {
                1
            } else {
                0
            };
            proof {
                let w = weight(i as nat);
                lemma_weight_step(i as nat);
                lemma_low_value_push(limbs@, digit);
                assert(digit * w + b * w + borrow * w == a * w + next * (0x1_0000_0000 * w))
                    by (nonlinear_arith)
                    requires
                        digit + b + borrow == a + next * 0x1_0000_0000,
                ;
            }
            limbs.push(digit);
            borrow = next;
            i = i + 1;
        }
        proof {
            lemma_low_value_beyond(self.limbs@, n as nat);
            lemma_low_value_beyond(other.limbs@, n as nat);
            lemma_low_value_bound(limbs@, n as nat);
            let w = weight(n as nat);
            assert(borrow == 0) by (nonlinear_arith)
                requires
                    low_value(limbs@, n as nat) < w,
                    borrow * w <= low_value(limbs@, n as nat),
                    borrow <= 1,
            ;
        }
        Natural::from_limbs(limbs)
    }

    /// The quotient and the remainder of a division.
    pub fn div_rem(&self, divisor: &Natural) -> (result: (Natural, Natural))
        requires
            divisor@ > 0,
        ensures
            result.0@ == self@ / divisor@,
            result.1@ == self@ % divisor@,
        decreases
            if self@ >= divisor@ {
                self@ - divisor@ + 1
            } else {
                0
            },
    {
        if self.less_than(divisor) {
            proof {
                lemma_fundamental_div_mod_converse(
                    self@ as int,
                    divisor@ as int,
                    0,
                    self@ as int,
                );
            }
            return (Natural::from_u64(0), self.mul_add(1, 0));
        }
        let twice = divisor.double();
        let (half, rest) = self.div_rem(&twice);
        let ghost q = half@;
        let ghost r = rest@;
        proof {
            lemma_fundamental_div_mod(self@ as int, twice@ as int);
            assert(twice@ * q == (2 * q) * divisor@) by (nonlinear_arith)
                requires
                    twice@ == 2 * divisor@,
            ;
        }
        if rest.less_than(divisor) {
            proof {
                lemma_fundamental_div_mod_converse(
                    self@ as int,
                    divisor@ as int,
                    (2 * q) as int,
                    r as int,
                );
            }
            (half.double(), rest)
        } else {
            proof {
                assert((2 * q + 1) * divisor@ == (2 * q) * divisor@ + divisor@)
                    by (nonlinear_arith);
                lemma_fundamental_div_mod_converse(
                    self@ as int,
                    divisor@ as int,
                    (2 * q + 1) as int,
                    r - divisor@,
                );
            }
            (half.mul_add(2, 1), rest.minus(divisor))
        }
    }

    /// How many binary digits the number has, where it is not zero and has no more than
    /// [`MAX_BITS`] of them.
    pub fn bit_length(&self) -> (length: Option<u32>)
        ensures
            length is Some <==> 0 < self@ < pow2(MAX_BITS as nat),
            length matches Some(length) ==> length > 0 && length == bits(self@) && pow2(
                (length - 1) as nat,
            ) <= self@ < pow2(length as nat),
    {
        let mut n: usize = self.limbs.len();
        while n > 0 && self.limbs[n - 1] == 0
            invariant
                n <= self.limbs@.len(),
                low_value(self.limbs@, n as nat) == self@,
            decreases n,
        {
            assert(0 * weight((n - 1) as nat) == 0) by (nonlinear_arith);
            n = n - 1;
        }
        if n == 0 {
            return None;
        }
        if n > 0x100_0000 {
            proof {
                let m = (n - 1) as nat;
                let limb = self.limbs@[m as int] as nat;
                let w = weight(m);
                lemma_weight_is_power(m);
                if m > 0x100_0000 {
                    lemma_pow2_strictly_increases(0x2000_0000, 32 * m);
                }
                assert(limb * w >= w) by (nonlinear_arith)
                    requires
                        limb >= 1,
                ;
            }
            return None;
        }
        let top: u32 = self.limbs[n - 1];
        let mut bits: u32 = 1;
        let mut power: u64 = 2;
        proof {
            lemma2_to64();
        }
        while top as u64 >= power
            invariant
                1 <= bits <= 32,
                power == pow2(bits as nat),
                top >= pow2((bits - 1) as nat),
            decreases 33 - bits,
        {
            proof {
                lemma2_to64();
                if bits == 32 {
                    assert(false);
                }
                lemma_pow2_adds(bits as nat, 1);
                if bits < 31 {
                    lemma_pow2_strictly_increases((bits + 1) as nat, 32);
                }
            }
            power = 2 * power;
            bits = bits + 1;
        }
        let length: u32 = 32 * (n as u32 - 1) + bits;
        proof {
            let m = (n - 1) as nat;
            let low = low_value(self.limbs@, m);
            let w = weight(m);
            lemma_low_value_bound(self.limbs@, m);
            lemma_weight_is_power(m);
            lemma_pow2_adds((bits - 1) as nat, 32 * m);
            lemma_pow2_adds(bits as nat, 32 * m);
            let a = pow2((bits - 1) as nat);
            assert(a * w <= top * w + low < power * w) by (nonlinear_arith)
                requires
                    a <= top < power,
                    0 <= low < w,
            ;
            lemma_bits(self@, length as nat);
            if length < MAX_BITS {
                lemma_pow2_strictly_increases(length as nat, MAX_BITS as nat);
            }
        }
        Some(length)
    }
}

} // verus!
