//! Natural numbers of any size, held as little-endian 32-bit limbs.
//!
//! Exact decimal and binary conversions of floating-point values need integers
//! of up to a few thousand bits; this module has the handful of operations that
//! those conversions use.

use vstd::arithmetic::power2::*;
use vstd::prelude::*;

verus! {

/// One more than the largest limb.
pub const BASE: u64 = 0x1_0000_0000;

/// Limb `i` of `s`, where the limbs above the stored ones are zero.
pub open spec fn limb(s: Seq<u32>, i: int) -> nat {
    if 0 <= i < s.len() {
        s[i] as nat
    } else {
        0
    }
}

/// The weight of limb `i`: 2 to the power of 32 times `i`.
pub open spec fn weight(i: nat) -> nat {
    pow2(32 * i)
}

/// The number that the lowest `i` limbs of `s` stand for.
pub open spec fn low_value(s: Seq<u32>, i: nat) -> nat
    decreases i,
{
    if i == 0 {
        0
    } else {
        low_value(s, (i - 1) as nat) + limb(s, i - 1) * weight((i - 1) as nat)
    }
}

/// The number that `s` stands for.
pub open spec fn limbs_value(s: Seq<u32>) -> nat {
    low_value(s, s.len())
}

/// How two numbers compare.
#[derive(Clone, Copy, PartialEq, Eq, Structural, Debug)]
pub enum Relation {
    /// The left number is the smaller one.
    Less,
    /// The two numbers are equal.
    Same,
    /// The left number is the larger one.
    More,
}

/// A natural number of any size.
pub struct Natural {
    limbs: Vec<u32>,
}

impl View for Natural {
    type V = nat;

    closed spec fn view(&self) -> nat {
        limbs_value(self.limbs@)
    }
}

proof fn lemma_weight_next(i: nat)
    ensures
        weight(i + 1) == BASE * weight(i),
        weight(i) > 0,
        weight(0) == 1,
{
    lemma_pow2_adds(32, 32 * i);
    lemma2_to64();
    lemma_pow2_pos(32 * i);
    assert(32 * (i + 1) == 32 + 32 * i);
}

proof fn lemma_low_value_bound(s: Seq<u32>, i: nat)
    ensures
        low_value(s, i) < weight(i),
    decreases i,
{
    lemma_weight_next(0);
    if i > 0 {
        let j = (i - 1) as nat;
        lemma_low_value_bound(s, j);
        lemma_weight_next(j);
        let x = limb(s, i - 1);
        assert(x * weight(j) + weight(j) <= BASE * weight(j)) by (nonlinear_arith)
            requires
                x + 1 <= BASE,
        ;
    }
}

proof fn lemma_low_value_padding(s: Seq<u32>, i: nat)
    requires
        i >= s.len(),
    ensures
        low_value(s, i) == limbs_value(s),
    decreases i,
{
    if i > s.len() {
        lemma_low_value_padding(s, (i - 1) as nat);
        assert(limb(s, i - 1) == 0);
    }
}

proof fn lemma_low_value_prefix(s: Seq<u32>, t: Seq<u32>, i: nat)
    requires
        forall|j: int| 0 <= j < i ==> limb(s, j) == limb(t, j),
    ensures
        low_value(s, i) == low_value(t, i),
    decreases i,
{
    if i > 0 {
        lemma_low_value_prefix(s, t, (i - 1) as nat);
    }
}

proof fn lemma_push(s: Seq<u32>, x: u32)
    ensures
        limbs_value(s.push(x)) == limbs_value(s) + x * weight(s.len()),
{
    lemma_low_value_prefix(s.push(x), s, s.len());
    assert(limb(s.push(x), s.len() as int) == x);
}

proof fn lemma_carry(t: nat, w: nat)
    ensures
        (t % (BASE as nat)) * w + (t / (BASE as nat)) * (BASE * w) == t * w,
{
    let b = BASE as nat;
    let q = t / b;
    let r = t % b;
    assert(t == q * b + r);
    assert(r * w + q * (b * w) == (q * b + r) * w) by (nonlinear_arith);
}

impl Natural {
    /// The number `x`.
    pub fn from_u64(x: u64) -> (r: Natural)
        ensures
            r@ == x,
    {
        let low: u32 = (x % BASE) as u32;
        let high: u32 = (x / BASE) as u32;
        let mut limbs: Vec<u32> = Vec::new();
        proof {
            lemma_push(limbs@, low);
            lemma_push(limbs@.push(low), high);
            lemma_weight_next(0);
            assert(low * weight(0) == low) by (nonlinear_arith)
                requires
                    weight(0) == 1,
            ;
            assert(high * weight(1) == high * BASE) by (nonlinear_arith)
                requires
                    weight(1) == BASE,
            ;
        }
        limbs.push(low);
        limbs.push(high);
        Natural { limbs }
    }

    fn limb_at(&self, i: usize) -> (x: u32)
        ensures
            x == limb(self.limbs@, i as int),
    {
        if i < self.limbs.len() {
            self.limbs[i]
        } else {
            0
        }
    }

    /// `self` times `factor`, plus `addend`.
    pub fn mul_add(&self, factor: u32, addend: u32) -> (r: Natural)
        ensures
            r@ == self@ * factor + addend,
    {
        let mut out: Vec<u32> = Vec::new();
        let mut carry: u64 = addend as u64;
        let mut i: usize = 0;
        proof {
            lemma_weight_next(0);
            assert(carry * weight(0) == carry) by (nonlinear_arith)
                requires
                    weight(0) == 1,
            ;
            assert(0 * factor == 0);
        }
        while i < self.limbs.len()
            invariant
                i <= self.limbs.len(),
                out.len() == i,
                carry < BASE,
                limbs_value(out@) + carry * weight(i as nat) == low_value(self.limbs@, i as nat)
                    * factor + addend,
            decreases self.limbs.len() - i,
        {
            let x: u32 = self.limbs[i];
            assert(x * factor <= 0xffff_ffff * 0xffff_ffff) by (nonlinear_arith)
                requires
                    x <= 0xffff_ffff,
                    factor <= 0xffff_ffff,
            ;
            let t: u64 = x as u64 * factor as u64 + carry;
            let digit: u32 = (t % BASE) as u32;
            proof {
                let w = weight(i as nat);
                lemma_push(out@, digit);
                lemma_weight_next(i as nat);
                lemma_carry(t as nat, w);
                let lv = low_value(self.limbs@, i as nat);
                assert((lv + x * w) * factor == lv * factor + (x * factor) * w)
                    by (nonlinear_arith);
                assert(t * w == (x * factor) * w + carry * w) by (nonlinear_arith)
                    requires
                        t == x * factor + carry,
                ;
            }
            out.push(digit);
            carry = t / BASE;
            i = i + 1;
        }
        proof {
            lemma_push(out@, carry as u32);
        }
        out.push(carry as u32);
        Natural { limbs: out }
    }

    /// The sum of `self` and `other`.
    pub fn plus(&self, other: &Natural) -> (r: Natural)
        ensures
            r@ == self@ + other@,
    {
        let n: usize = if self.limbs.len() < other.limbs.len() {
            other.limbs.len()
        } else {
            self.limbs.len()
        };
        let mut out: Vec<u32> = Vec::new();
        let mut carry: u64 = 0;
        let mut i: usize = 0;
        proof {
            lemma_weight_next(0);
        }
        while i < n
            invariant
                i <= n,
                out.len() == i,
                carry < BASE,
                limbs_value(out@) + carry * weight(i as nat) == low_value(self.limbs@, i as nat)
                    + low_value(other.limbs@, i as nat),
            decreases n - i,
        {
            let x: u32 = self.limb_at(i);
            let y: u32 = other.limb_at(i);
            let t: u64 = x as u64 + y as u64 + carry;
            let digit: u32 = (t % BASE) as u32;
            proof {
                let w = weight(i as nat);
                lemma_push(out@, digit);
                lemma_weight_next(i as nat);
                lemma_carry(t as nat, w);
                assert(t * w == x * w + y * w + carry * w) by (nonlinear_arith)
                    requires
                        t == x + y + carry,
                ;
            }
            out.push(digit);
            carry = t / BASE;
            i = i + 1;
        }
        proof {
            lemma_push(out@, carry as u32);
            lemma_low_value_padding(self.limbs@, n as nat);
            lemma_low_value_padding(other.limbs@, n as nat);
        }
        out.push(carry as u32);
        Natural { limbs: out }
    }

    /// `self` less `other`.
    pub fn minus(&self, other: &Natural) -> (r: Natural)
        requires
            other@ <= self@,
        ensures
            r@ == self@ - other@,
    {
        let n: usize = if self.limbs.len() < other.limbs.len() {
            other.limbs.len()
        } else {
            self.limbs.len()
        };
        let mut out: Vec<u32> = Vec::new();
        let mut borrow: u64 = 0;
        let mut i: usize = 0;
        proof {
            lemma_weight_next(0);
        }
        while i < n
            invariant
                i <= n,
                out.len() == i,
                borrow <= 1,
                limbs_value(out@) + low_value(other.limbs@, i as nat) == low_value(
                    self.limbs@,
                    i as nat,
                ) + borrow * weight(i as nat),
            decreases n - i,
        {
            let x: u32 = self.limb_at(i);
            let y: u32 = other.limb_at(i);
            let t: u64 = BASE + x as u64 - y as u64 - borrow;
            let digit: u32 = (t % BASE) as u32;
            let next: u64 = 1 - t / BASE;
            proof {
                let w = weight(i as nat);
                lemma_push(out@, digit);
                lemma_weight_next(i as nat);
                assert(digit + y + borrow == x + next * BASE);
                assert(digit * w + y * w + borrow * w == x * w + next * (BASE * w))
                    by (nonlinear_arith)
                    requires
                        digit + y + borrow == x + next * BASE,
                ;
            }
            out.push(digit);
            borrow = next;
            i = i + 1;
        }
        proof {
            lemma_low_value_padding(self.limbs@, n as nat);
            lemma_low_value_padding(other.limbs@, n as nat);
            lemma_low_value_bound(out@, n as nat);
            lemma_weight_next(n as nat);
            assert(borrow == 0) by (nonlinear_arith)
                requires
                    limbs_value(out@) + other@ == self@ + borrow * weight(n as nat),
                    limbs_value(out@) < weight(n as nat),
                    other@ <= self@,
                    borrow <= 1,
            ;
        }
        Natural { limbs: out }
    }

    /// How `self` compares with `other`.
    pub fn relation(&self, other: &Natural) -> (r: Relation)
        ensures
            r == (if self@ < other@ {
                Relation::Less
            } else if self@ == other@ {
                Relation::Same
            } else {
                Relation::More
            }),
    {
        let n: usize = if self.limbs.len() < other.limbs.len() {
            other.limbs.len()
        } else {
            self.limbs.len()
        };
        let mut i: usize = n;
        proof {
            lemma_low_value_padding(self.limbs@, n as nat);
            lemma_low_value_padding(other.limbs@, n as nat);
        }
        while i > 0
            invariant
                i <= n,
                self@ - low_value(self.limbs@, i as nat) == other@ - low_value(
                    other.limbs@,
                    i as nat,
                ),
            decreases i,
        {
            i = i - 1;
            let x: u32 = self.limb_at(i);
            let y: u32 = other.limb_at(i);
            proof {
                lemma_low_value_bound(self.limbs@, i as nat);
                lemma_low_value_bound(other.limbs@, i as nat);
            }
            let ghost w = weight(i as nat);
            if x < y {
                assert(x * w + w <= y * w) by (nonlinear_arith)
                    requires
                        x + 1 <= y,
                ;
                return Relation::Less;
            }
            if y < x {
                assert(y * w + w <= x * w) by (nonlinear_arith)
                    requires
                        y + 1 <= x,
                ;
                return Relation::More;
            }
        }
        Relation::Same
    }

    /// `self` times 2 to the power of `exponent`.
    pub fn times_pow2(&self, exponent: u64) -> (r: Natural)
        requires
            exponent <= 0xffff,
        ensures
            r@ == self@ * pow2(exponent as nat),
    {
        let rest: u64 = exponent % 32;
        let words: u64 = exponent / 32;
        let mut factor: u32 = 1;
        let mut i: u64 = 0;
        proof {
            lemma2_to64();
        }
        while i < rest
            invariant
                i <= rest,
                rest < 32,
                factor == pow2(i as nat),
            decreases rest - i,
        {
            proof {
                lemma2_to64();
                lemma_pow2_unfold((i + 1) as nat);
                if i < 31 {
                    lemma_pow2_strictly_increases(i as nat, 31);
                }
            }
            factor = factor * 2;
            i = i + 1;
        }
        let shifted: Natural = self.mul_add(factor, 0);
        let mut out: Vec<u32> = Vec::new();
        let mut j: u64 = 0;
        proof {
            lemma_weight_next(0);
        }
        while j < words
            invariant
                j <= words,
                out.len() == j,
                limbs_value(out@) == 0,
            decreases words - j,
        {
            proof {
                lemma_push(out@, 0);
            }
            out.push(0);
            j = j + 1;
        }
        let mut k: usize = 0;
        assert(0 * weight(words as nat) == 0);
        while k < shifted.limbs.len()
            invariant
                k <= shifted.limbs.len(),
                out.len() == words + k,
                limbs_value(out@) == low_value(shifted.limbs@, k as nat) * weight(words as nat),
            decreases shifted.limbs.len() - k,
        {
            let x: u32 = shifted.limbs[k];
            proof {
                lemma_push(out@, x);
                lemma_pow2_adds(32 * k as nat, 32 * words as nat);
                assert(32 * (words + k) == 32 * k + 32 * words);
                let w = weight(words as nat);
                let v = weight(k as nat);
                let lv = low_value(shifted.limbs@, k as nat);
                assert(lv * w + x * (v * w) == (lv + x * v) * w) by (nonlinear_arith);
            }
            out.push(x);
            k = k + 1;
        }
        proof {
            lemma_pow2_adds(rest as nat, 32 * words as nat);
            assert(rest + 32 * words == exponent);
            let a = pow2(rest as nat);
            let b = weight(words as nat);
            assert((self@ * a) * b == self@ * (a * b)) by (nonlinear_arith);
        }
        Natural { limbs: out }
    }

    /// `self` times the machine word `factor`.
    pub fn times(&self, factor: u64) -> (r: Natural)
        ensures
            r@ == self@ * factor,
    {
        let low: u32 = (factor % BASE) as u32;
        let high: u32 = (factor / BASE) as u32;
        let upper: Natural = self.mul_add(high, 0).times_pow2(32);
        proof {
            lemma2_to64();
            assert((self@ * high) * BASE + self@ * low == self@ * (high * BASE + low))
                by (nonlinear_arith);
        }
        upper.plus(&self.mul_add(low, 0))
    }

    /// Quotient and remainder of `self` by 2 to the power of 32 times `words`.
    pub fn split(&self, words: usize) -> (r: (Natural, Natural))
        ensures
            self@ == r.0@ * pow2(32 * words as nat) + r.1@,
            r.1@ < pow2(32 * words as nat),
    {
        let mut low: Vec<u32> = Vec::new();
        let mut high: Vec<u32> = Vec::new();
        let mut i: usize = 0;
        assert(0 * weight(words as nat) == 0);
        while i < self.limbs.len()
            invariant
                i <= self.limbs.len(),
                low.len() == (if i <= words { i } else { words }),
                high.len() == i - low.len(),
                low_value(self.limbs@, i as nat) == limbs_value(high@) * weight(words as nat)
                    + limbs_value(low@),
            decreases self.limbs.len() - i,
        {
            let x: u32 = self.limbs[i];
            if i < words {
                proof {
                    lemma_push(low@, x);
                    assert(high@.len() == 0);
                }
                low.push(x);
            } else {
                proof {
                    let h = high@.len();
                    lemma_push(high@, x);
                    lemma_pow2_adds(32 * h, 32 * words as nat);
                    assert(32 * i == 32 * h + 32 * words);
                    let w = weight(words as nat);
                    let v = weight(h);
                    let hv = limbs_value(high@);
                    assert((hv + x * v) * w == hv * w + x * (v * w)) by (nonlinear_arith);
                }
                high.push(x);
            }
            i = i + 1;
        }
        proof {
            lemma_low_value_bound(low@, low@.len());
            if low@.len() < words {
                lemma_pow2_strictly_increases(32 * low@.len(), 32 * words as nat);
            }
        }
        (Natural { limbs: high }, Natural { limbs: low })
    }

    /// Quotient and remainder of `self` by `divisor`.
    pub fn div_rem(&self, divisor: u32) -> (r: (Natural, u32))
        requires
            divisor > 0,
        ensures
            self@ == r.0@ * divisor + r.1,
            r.1 < divisor,
    {
        let n: usize = self.limbs.len();
        let mut out: Vec<u32> = Vec::new();
        let mut z: usize = 0;
        while z < n
            invariant
                z <= n,
                out.len() == z,
            decreases n - z,
        {
            out.push(0);
            z = z + 1;
        }
        let mut rem: u64 = 0;
        let mut i: usize = n;
        while i > 0
            invariant
                i <= n,
                n == self.limbs.len(),
                out.len() == n,
                rem < divisor,
                self@ - low_value(self.limbs@, i as nat) == (limbs_value(out@) - low_value(
                    out@,
                    i as nat,
                )) * divisor + rem * weight(i as nat),
            decreases i,
        {
            i = i - 1;
            let x: u32 = self.limbs[i];
            let t: u64 = rem * BASE + x as u64;
            let quotient: u64 = t / divisor as u64;
            let next: u64 = t % divisor as u64;
            assert(quotient < BASE) by (nonlinear_arith)
                requires
                    quotient == t / divisor as u64,
                    t == rem * BASE + x,
                    rem + 1 <= divisor,
                    x < BASE,
                    divisor > 0,
            ;
            let ghost before = out@;
            out.set(i, quotient as u32);
            proof {
                let w = weight(i as nat);
                lemma_weight_next(i as nat);
                lemma_low_value_prefix(before, out@, i as nat);
                lemma_difference(before, out@, (i + 1) as nat, n as nat);
                let d = divisor as int;
                let a = limbs_value(before) - low_value(before, (i + 1) as nat);
                assert(limbs_value(out@) - low_value(out@, i as nat) == a + quotient * w);
                assert(t == quotient * d + next) by (nonlinear_arith)
                    requires
                        quotient == t / divisor as u64,
                        next == t % divisor as u64,
                        d == divisor,
                        divisor > 0,
                ;
                assert((a + quotient * w) * d + next * w == a * d + rem * (BASE * w) + x * w)
                    by (nonlinear_arith)
                    requires
                        quotient * d + next == rem * BASE + x,
                ;
            }
            rem = next;
        }
        proof {
            lemma_weight_next(0);
            assert(rem * weight(0) == rem) by (nonlinear_arith)
                requires
                    weight(0) == 1,
            ;
        }
        (Natural { limbs: out }, rem as u32)
    }

    /// Whether the number is zero.
    pub fn is_zero(&self) -> (r: bool)
        ensures
            r == (self@ == 0),
    {
        let zero: Natural = Natural::from_u64(0);
        match self.relation(&zero) {
            Relation::Same => true,
            _ => false,
        }
    }

    /// The number as a machine word, where it fits in one.
    pub fn to_u64(&self) -> (r: Option<u64>)
        ensures
            r == (if self@ <= u64::MAX {
                Some(self@ as u64)
            } else {
                None
            }),
    {
        let (top, low) = self.div_rem(0x8000_0000);
        let (rest, middle) = top.div_rem(0x8000_0000);
        let (none, high) = rest.div_rem(4);
        if none.is_zero() {
            Some(high as u64 * 0x4000_0000_0000_0000 + middle as u64 * 0x8000_0000 + low as u64)
        } else {
            None
        }
    }
}

proof fn lemma_difference(s: Seq<u32>, t: Seq<u32>, from: nat, to: nat)
    requires
        from <= to,
        forall|j: int| from <= j < to ==> limb(s, j) == limb(t, j),
    ensures
        low_value(s, to) - low_value(s, from) == low_value(t, to) - low_value(t, from),
    decreases to - from,
{
    if from < to {
        lemma_difference(s, t, from, (to - 1) as nat);
    }
}

} // verus!
