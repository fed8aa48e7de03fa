//! Double-precision floating-point numbers, held by their bits.
//!
//! A [`Double`] is a number of the binary64 format of IEEE 754: a sign, and a
//! magnitude that counts through the representable numbers in order. Each finite
//! magnitude stands for a whole number of units, where a unit is the smallest
//! positive number of the format, 2 to the power of -1074. Arithmetic is exact
//! arithmetic on units, followed by rounding to the nearest representable number,
//! ties to the even one.

use crate::natural::{Natural, Relation};
use vstd::arithmetic::power2::*;
use vstd::prelude::*;

verus! {

/// The weight of the sign bit.
pub const SIGN: u64 = 0x8000_0000_0000_0000;

/// The number of magnitudes that share one exponent.
pub const STEP: u64 = 0x10_0000_0000_0000;

/// The magnitude of infinity; larger magnitudes are not numbers.
pub const INFINITE: u64 = 0x7ff0_0000_0000_0000;

/// A double-precision floating-point number.
#[derive(Clone, Copy, Debug)]
pub struct Double {
    /// The number in the binary64 interchange format.
    pub bits: u64,
}

/// The bits of the value that stands for no number at all.
pub const NAN_BITS: u64 = 0x7ff8_0000_0000_0000;

/// The result of an operation that has none.
pub open spec fn no_number() -> Double {
    Double { bits: NAN_BITS }
}

/// The number of units in one.
pub open spec fn unit() -> nat {
    pow2(1074)
}

/// The number of units that a magnitude stands for.
pub open spec fn units(magnitude: nat) -> nat {
    let exponent = magnitude / (STEP as nat);
    let fraction = magnitude % (STEP as nat);
    if exponent == 0 {
        fraction
    } else {
        ((STEP + fraction) * pow2((exponent - 1) as nat)) as nat
    }
}

/// The largest magnitude that stands for at most `n / d` units, infinity taken
/// as the end of the scale.
pub open spec fn below(n: nat, d: nat) -> nat {
    choose|m: nat| is_below(m, n, d)
}

/// Whether `m` is the largest magnitude of at most `n / d` units.
pub open spec fn is_below(m: nat, n: nat, d: nat) -> bool {
    &&& m <= INFINITE
    &&& units(m) * d <= n
    &&& m < INFINITE ==> n < units(m + 1) * d
}

/// The magnitude nearest to `n / d` units, ties to the even one.
pub open spec fn nearest(n: nat, d: nat) -> nat {
    let m = below(n, d);
    let ends = (units(m) + units(m + 1)) * d;
    if m == INFINITE || 2 * n < ends {
        m
    } else if 2 * n > ends {
        m + 1
    } else if m % 2 == 0 {
        m
    } else {
        m + 1
    }
}

impl Double {
    /// Whether the sign bit is set.
    pub open spec fn negative(self) -> bool {
        self.bits >= SIGN
    }

    /// The bits but for the sign.
    pub open spec fn magnitude(self) -> nat {
        (self.bits % SIGN) as nat
    }

    /// Whether this is no number at all.
    pub open spec fn nan(self) -> bool {
        self.magnitude() > INFINITE
    }

    /// Whether this is an infinity.
    pub open spec fn infinite(self) -> bool {
        self.magnitude() == INFINITE
    }

    /// Whether this is a zero of either sign.
    pub open spec fn zero(self) -> bool {
        self.magnitude() == 0
    }

    /// The number in units; an infinity is the end of the scale.
    pub open spec fn value(self) -> int {
        if self.negative() {
            -units(self.magnitude())
        } else {
            units(self.magnitude()) as int
        }
    }

    /// Whether this is less than `other`.
    pub open spec fn less(self, other: Double) -> bool {
        !self.nan() && !other.nan() && self.value() < other.value()
    }

    /// Whether this is at most `other`.
    pub open spec fn at_most(self, other: Double) -> bool {
        !self.nan() && !other.nan() && self.value() <= other.value()
    }

    /// Whether the two are equal as numbers.
    pub open spec fn equals(self, other: Double) -> bool {
        !self.nan() && !other.nan() && self.value() == other.value()
    }
}

/// The number with the given sign and magnitude.
pub open spec fn signed(negative: bool, magnitude: nat) -> Double {
    Double {
        bits: (if negative {
            SIGN + magnitude
        } else {
            magnitude as int
        }) as u64,
    }
}

/// The distance of `v` from zero.
pub open spec fn distance(v: int) -> nat {
    (if v < 0 {
        -v
    } else {
        v
    }) as nat
}

/// `a + b`.
pub open spec fn sum(a: Double, b: Double) -> Double {
    if a.nan() || b.nan() {
        no_number()
    } else if a.infinite() && b.infinite() {
        if a.negative() == b.negative() {
            a
        } else {
            no_number()
        }
    } else if a.infinite() {
        a
    } else if b.infinite() {
        b
    } else {
        let v = a.value() + b.value();
        if v == 0 {
            signed(a.negative() && b.negative(), 0)
        } else {
            signed(v < 0, nearest(distance(v), 1))
        }
    }
}

/// `-a`.
pub open spec fn negation(a: Double) -> Double {
    signed(!a.negative(), a.magnitude())
}

/// `a - b`.
pub open spec fn difference(a: Double, b: Double) -> Double {
    sum(a, negation(b))
}

/// `a * b`.
pub open spec fn product(a: Double, b: Double) -> Double {
    let negative = a.negative() != b.negative();
    if a.nan() || b.nan() {
        no_number()
    } else if a.infinite() || b.infinite() {
        if a.zero() || b.zero() {
            no_number()
        } else {
            signed(negative, INFINITE as nat)
        }
    } else {
        signed(negative, nearest(units(a.magnitude()) * units(b.magnitude()), unit()))
    }
}

/// `a / b`.
pub open spec fn quotient(a: Double, b: Double) -> Double {
    let negative = a.negative() != b.negative();
    if a.nan() || b.nan() || (a.infinite() && b.infinite()) || (a.zero() && b.zero()) {
        no_number()
    } else if a.infinite() || b.zero() {
        signed(negative, INFINITE as nat)
    } else if b.infinite() {
        signed(negative, 0)
    } else {
        signed(negative, nearest(units(a.magnitude()) * unit(), units(b.magnitude())))
    }
}

/// The number nearest to the whole number `n`.
pub open spec fn whole(n: nat) -> Double {
    signed(false, nearest(n * unit(), 1))
}

/// The number nearest to the whole number `n`, which may be negative.
pub open spec fn whole_signed(n: int) -> Double {
    signed(n < 0, nearest(distance(n) * unit(), 1))
}

/// The whole number nearest to `n / d`, ties to the even one.
pub open spec fn half_even(n: nat, d: nat) -> nat {
    let low = n / d;
    let twice = 2 * (n % d);
    if twice < d || (twice == d && low % 2 == 0) {
        low
    } else {
        low + 1
    }
}

/// The whole part of `x`, without its sign.
pub open spec fn whole_part(x: Double) -> nat {
    units(x.magnitude()) / unit()
}

/// `x` without the digits after the point.
pub open spec fn truncation(x: Double) -> Double {
    if x.magnitude() >= INFINITE {
        x
    } else {
        signed(x.negative(), nearest(whole_part(x) * unit(), 1))
    }
}

/// The digits of `x` after the point.
pub open spec fn fraction(x: Double) -> Double {
    difference(x, truncation(x))
}

/// The whole number nearest to `x`, ties away from zero.
pub open spec fn rounded(x: Double) -> Double {
    if x.magnitude() >= INFINITE {
        x
    } else {
        let up: nat = if 2 * (units(x.magnitude()) % unit()) >= unit() {
            1
        } else {
            0
        };
        signed(x.negative(), nearest((whole_part(x) + up) * unit(), 1))
    }
}

/// The whole part of `x` as a signed machine word: the nearest end of the range
/// where it does not fit, and zero where `x` is no number.
pub open spec fn as_signed(x: Double) -> i64 {
    if x.nan() {
        0
    } else if x.negative() {
        if whole_part(x) > 0x8000_0000_0000_0000 {
            i64::MIN
        } else {
            (-whole_part(x)) as i64
        }
    } else if whole_part(x) > i64::MAX {
        i64::MAX
    } else {
        whole_part(x) as i64
    }
}

/// The whole part of `x` as an index: the nearest end of the range where it
/// does not fit, and zero where `x` is no number.
pub open spec fn as_index(x: Double) -> usize {
    if x.nan() || x.negative() {
        0
    } else if whole_part(x) > usize::MAX {
        usize::MAX
    } else {
        whole_part(x) as usize
    }
}

/// One magnitude further, the units grow.
pub proof fn lemma_units_step(m: nat)
    ensures
        units(m) < units(m + 1),
{
    let e = m / (STEP as nat);
    let f = m % (STEP as nat);
    lemma2_to64();
    if f + 1 < STEP {
        assert((m + 1) / (STEP as nat) == e && (m + 1) % (STEP as nat) == f + 1);
        if e > 0 {
            let p = pow2((e - 1) as nat);
            lemma_pow2_pos((e - 1) as nat);
            assert((STEP + f) * p < (STEP + f + 1) * p) by (nonlinear_arith)
                requires
                    p > 0,
            ;
        }
    } else {
        assert((m + 1) / (STEP as nat) == e + 1 && (m + 1) % (STEP as nat) == 0);
        let q = pow2(e);
        if e > 0 {
            let p = pow2((e - 1) as nat);
            lemma_pow2_pos((e - 1) as nat);
            lemma_pow2_unfold(e);
            assert((STEP + f) * p < STEP * q) by (nonlinear_arith)
                requires
                    p > 0,
                    q == 2 * p,
                    f < STEP,
            ;
        }
    }
}

/// Magnitudes are ordered as the units that they stand for.
pub proof fn lemma_units_order(a: nat, b: nat)
    ensures
        a < b <==> units(a) < units(b),
        a == b <==> units(a) == units(b),
    decreases (if a < b { b - a } else { a - b }),
{
    if a + 1 < b {
        lemma_units_order(a, (b - 1) as nat);
        lemma_units_step((b - 1) as nat);
    } else if a + 1 == b {
        lemma_units_step(a);
    } else if b + 1 < a {
        lemma_units_order((a - 1) as nat, b);
        lemma_units_step((a - 1) as nat);
    } else if b + 1 == a {
        lemma_units_step(b);
    }
}

/// The magnitude just below `n / d` units is the only one with its property.
pub proof fn lemma_below_is(m: nat, n: nat, d: nat)
    requires
        is_below(m, n, d),
        d > 0,
    ensures
        below(n, d) == m,
{
    let k = below(n, d);
    assert(is_below(k, n, d));
    if k < m {
        lemma_units_order((k + 1) as nat, m);
        assert(units(k + 1) * d <= units(m) * d) by (nonlinear_arith)
            requires
                units(k + 1) <= units(m),
        ;
    }
    if m < k {
        lemma_units_order((m + 1) as nat, k);
        assert(units(m + 1) * d <= units(k) * d) by (nonlinear_arith)
            requires
                units(m + 1) <= units(k),
        ;
    }
}

/// Some magnitude lies just below `n / d` units.
proof fn lemma_below_exists(n: nat, d: nat, top: nat)
    requires
        d > 0,
        top <= INFINITE,
        top < INFINITE ==> n < units(top + 1) * d,
    ensures
        exists|m: nat| is_below(m, n, d),
    decreases top,
{
    if units(top) * d <= n {
        assert(is_below(top, n, d));
    } else {
        lemma2_to64();
        if top == 0 {
            assert(0 * d == 0);
        } else {
            lemma_below_exists(n, d, (top - 1) as nat);
        }
    }
}

/// The nearest magnitude is that of a number.
pub proof fn lemma_nearest_bound(n: nat, d: nat)
    requires
        d > 0,
    ensures
        nearest(n, d) <= INFINITE,
        is_below(below(n, d), n, d),
{
    lemma_below_exists(n, d, INFINITE as nat);
}

/// The nearest magnitude is at least as near as any other, infinity taken as the
/// end of the scale.
pub proof fn law_nearest_is_nearest(n: nat, d: nat, other: nat)
    requires
        d > 0,
        other <= INFINITE,
    ensures
        distance(units(nearest(n, d)) * d - n) <= distance(units(other) * d - n),
{
    lemma_nearest_bound(n, d);
    let m = below(n, d);
    let u = units(m);
    let v = units(m + 1);
    assert((u + v) * d == u * d + v * d) by (nonlinear_arith);
    let o = units(other);
    lemma_units_order(other, m);
    lemma_units_order(m + 1, other);
    if other <= m {
        assert(o * d <= u * d) by (nonlinear_arith)
            requires
                o <= u,
        ;
    } else {
        assert(v * d <= o * d) by (nonlinear_arith)
            requires
                v <= o,
        ;
    }
}

/// A whole number of units that a magnitude stands for is rounded to it.
pub proof fn law_nearest_is_exact(m: nat, d: nat)
    requires
        d > 0,
        m <= INFINITE,
    ensures
        nearest(units(m) * d, d) == m,
{
    lemma_units_order(m, m + 1);
    let u = units(m);
    let v = units(m + 1);
    assert(u * d < v * d) by (nonlinear_arith)
        requires
            u < v,
            d > 0,
    ;
    assert((u + v) * d == u * d + v * d) by (nonlinear_arith);
    lemma_below_is(m, units(m) * d, d);
}

/// What is at most a magnitude is rounded to at most that magnitude.
pub proof fn lemma_nearest_at_most(n: nat, d: nat, k: nat)
    requires
        d > 0,
        k <= INFINITE,
        n <= units(k) * d,
    ensures
        nearest(n, d) <= k,
{
    lemma_nearest_bound(n, d);
    let m = below(n, d);
    if m >= k {
        lemma_units_order(k, m);
        assert(units(k) * d <= units(m) * d) by (nonlinear_arith)
            requires
                units(k) <= units(m),
        ;
        if m > k {
            assert(units(k) * d < units(m) * d) by (nonlinear_arith)
                requires
                    units(k) < units(m),
                    d > 0,
            ;
        }
        law_nearest_is_exact(k, d);
    }
}

/// What is at least a magnitude is rounded to at least that magnitude.
pub proof fn lemma_nearest_at_least(n: nat, d: nat, k: nat)
    requires
        d > 0,
        k <= INFINITE,
        units(k) * d <= n,
    ensures
        nearest(n, d) >= k,
{
    lemma_nearest_bound(n, d);
    let m = below(n, d);
    if m < k {
        lemma_units_order(m + 1, k);
        assert(units(m + 1) * d <= units(k) * d) by (nonlinear_arith)
            requires
                units(m + 1) <= units(k),
        ;
    }
}

/// Rounding keeps order.
pub proof fn law_nearest_keeps_order(a: nat, b: nat, d: nat)
    requires
        d > 0,
        a <= b,
    ensures
        nearest(a, d) <= nearest(b, d),
{
    lemma_nearest_bound(a, d);
    lemma_nearest_bound(b, d);
    let m = below(b, d);
    let k = nearest(b, d);
    if k == m {
        // `b` lies nearer to `m`, and so does everything between `m` and `b`.
        if a >= units(m) * d {
            if m < INFINITE {
                lemma_below_is(m, a, d);
            }
        } else {
            lemma_nearest_at_most(a, d, m);
        }
    } else {
        lemma_nearest_at_most(a, d, m + 1);
    }
}

/// A machine word becomes a finite number that is not negative.
pub proof fn lemma_whole(n: nat)
    requires
        n <= u64::MAX,
    ensures
        whole(n).magnitude() == nearest(n * unit(), 1),
        whole(n).magnitude() < INFINITE,
        !whole(n).negative(),
        n > 0 ==> !whole(n).zero(),
        n == 0 ==> whole(n).zero(),
{
    let v = n * unit();
    let k = 1087 * (STEP as nat);
    lemma2_to64();
    lemma2_to64_rest();
    lemma_pow2_pos(1074);
    lemma_pow2_adds(52, 1086);
    lemma_pow2_adds(64, 1074);
    assert(k / (STEP as nat) == 1087 && k % (STEP as nat) == 0);
    assert(units(k) == pow2(1138));
    assert(v <= pow2(64) * unit()) by (nonlinear_arith)
        requires
            n <= pow2(64),
            v == n * unit(),
    ;
    lemma_nearest_at_most(v, 1, k);
    if n > 0 {
        assert(v >= 1) by (nonlinear_arith)
            requires
                v == n * unit(),
                n > 0,
                unit() > 0,
        ;
        assert(units(1) == 1);
        lemma_nearest_at_least(v, 1, 1);
    } else {
        assert(v == 0);
        assert(units(0) == 0);
        lemma_nearest_at_most(v, 1, 0);
    }
}

/// The power of two that a number lies at or above.
proof fn lemma_highest_bit(n: nat) -> (k: nat)
    requires
        n > 0,
    ensures
        pow2(k) <= n < pow2(k + 1),
    decreases n,
{
    lemma2_to64();
    if n == 1 {
        0
    } else {
        let k = lemma_highest_bit(n / 2);
        lemma_pow2_unfold(k + 1);
        lemma_pow2_unfold(k + 2);
        k + 1
    }
}

/// A whole number of at most 53 bits times a power of two is the number of units of
/// some magnitude, which is even where the number has fewer bits.
pub proof fn lemma_dyadic(n: nat, s: nat) -> (m: nat)
    requires
        0 < n < 2 * STEP,
        52 <= s <= 1074,
    ensures
        m < INFINITE,
        units(m) == n * pow2(s),
        n < STEP ==> m % 2 == 0,
{
    lemma2_to64();
    lemma2_to64_rest();
    let k = lemma_highest_bit(n);
    if k >= 53 {
        if k > 53 {
            lemma_pow2_strictly_increases(53, k);
        }
        assert(false);
    }
    let up = pow2((52 - k) as nat);
    lemma_pow2_adds(k, (52 - k) as nat);
    lemma_pow2_adds(k + 1, (52 - k) as nat);
    lemma_pow2_pos((52 - k) as nat);
    let f = n * up;
    assert(STEP <= f < 2 * STEP) by (nonlinear_arith)
        requires
            pow2(k) <= n < pow2(k + 1),
            f == n * up,
            up > 0,
            pow2(k) * up == STEP,
            pow2(k + 1) * up == 2 * STEP,
    ;
    let e = (s + k - 51) as nat;
    let m = (e * STEP + (f - STEP)) as nat;
    assert(m / (STEP as nat) == e && m % (STEP as nat) == f - STEP);
    let p = pow2((e - 1) as nat);
    lemma_pow2_adds((52 - k) as nat, (e - 1) as nat);
    assert(units(m) == f * p);
    assert((n * up) * p == n * (up * p)) by (nonlinear_arith);
    if n < STEP {
        if k == 52 {
            assert(pow2(52) == STEP);
        }
        lemma_pow2_unfold((52 - k) as nat);
        let half = pow2((51 - k) as nat);
        assert(f % 2 == 0) by {
            assert(f == 2 * (n * half)) by (nonlinear_arith)
                requires
                    f == n * up,
                    up == 2 * half,
            ;
        }
        assert((e * STEP) % 2 == 0);
    }
    m
}

/// From one magnitude to the next, the units grow by the power of two that belongs to
/// the exponent.
pub proof fn lemma_units_gap(m: nat)
    requires
        m >= STEP,
    ensures
        units(m + 1) - units(m) == pow2((m / (STEP as nat) - 1) as nat),
        STEP * (units(m + 1) - units(m)) <= units(m),
{
    let e = m / (STEP as nat);
    let f = m % (STEP as nat);
    let p = pow2((e - 1) as nat);
    lemma_pow2_pos((e - 1) as nat);
    lemma_pow2_unfold(e);
    let u = (STEP + f) * p;
    if f + 1 < STEP {
        assert((m + 1) / (STEP as nat) == e && (m + 1) % (STEP as nat) == f + 1);
        assert((STEP + f + 1) * p == u + p) by (nonlinear_arith)
            requires
                u == (STEP + f) * p,
        ;
    } else {
        assert((m + 1) / (STEP as nat) == e + 1 && (m + 1) % (STEP as nat) == 0);
        assert(STEP * pow2(e) == u + p) by (nonlinear_arith)
            requires
                u == (STEP + f) * p,
                f + 1 == STEP,
                pow2(e) == 2 * p,
        ;
    }
    assert(STEP * p <= u) by (nonlinear_arith)
        requires
            u == (STEP + f) * p,
            p > 0,
            f >= 0,
    ;
}

/// A quotient stays the same when both of its parts are multiplied.
pub proof fn lemma_nearest_of_multiples(n: nat, d: nat, c: nat)
    requires
        d > 0,
        c > 0,
    ensures
        nearest(n * c, d * c) == nearest(n, d),
{
    lemma_nearest_bound(n, d);
    let m = below(n, d);
    let u = units(m);
    let v = units(m + 1);
    assert(d * c > 0 && n * c >= 0) by (nonlinear_arith)
        requires
            d > 0,
            c > 0,
            n >= 0,
    ;
    assert(u * (d * c) <= n * c) by (nonlinear_arith)
        requires
            u * d <= n,
            c > 0,
    ;
    if m < INFINITE {
        assert(n * c < v * (d * c)) by (nonlinear_arith)
            requires
                n < v * d,
                c > 0,
        ;
    }
    lemma_below_is(m, n * c, d * c);
    let ends = (u + v) * d;
    assert((u + v) * (d * c) == ends * c) by (nonlinear_arith)
        requires
            ends == (u + v) * d,
    ;
    assert(2 * n < ends <==> 2 * (n * c) < ends * c) by (nonlinear_arith)
        requires
            c > 0,
    ;
    assert(2 * n > ends <==> 2 * (n * c) > ends * c) by (nonlinear_arith)
        requires
            c > 0,
    ;
}

/// A whole number of at most 53 bits is a number.
pub proof fn law_whole_numbers_are_exact(n: int)
    requires
        -2 * STEP < n < 2 * STEP,
    ensures
        whole_signed(n).value() == n * unit(),
        !whole_signed(n).nan(),
{
    lemma2_to64();
    lemma2_to64_rest();
    let size = distance(n);
    lemma_whole(size);
    if size == 0 {
        assert(units(0) == 0);
        assert(0 * unit() == 0);
    } else {
        let m = lemma_dyadic(size, 1074);
        law_nearest_is_exact(m, 1);
        assert(units(m) * 1 == units(m));
        assert(-size * unit() == -(size * unit())) by (nonlinear_arith);
    }
}

/// Whole numbers that fit into a machine word keep their order as numbers.
pub proof fn law_whole_numbers_keep_order(a: int, b: int)
    requires
        i64::MIN <= a <= b <= i64::MAX,
    ensures
        whole_signed(a).at_most(whole_signed(b)),
{
    let x = distance(a);
    let y = distance(b);
    lemma_whole(x);
    lemma_whole(y);
    if 0 <= a {
        lemma_scaled_order(x, y);
    } else if b < 0 {
        lemma_scaled_order(y, x);
    }
}

proof fn lemma_scaled_order(x: nat, y: nat)
    requires
        x <= y,
    ensures
        units(nearest(x * unit(), 1)) <= units(nearest(y * unit(), 1)),
{
    lemma_pow2_pos(1074);
    assert(x * unit() <= y * unit()) by (nonlinear_arith)
        requires
            x <= y,
            unit() > 0,
    ;
    law_nearest_keeps_order(x * unit(), y * unit(), 1);
    lemma_units_order(nearest(x * unit(), 1), nearest(y * unit(), 1));
}

/// A multiple of a whole number, divided by it, is the other factor.
pub proof fn law_multiples_divide(n: nat, d: nat)
    requires
        d > 0,
        n * d < 2 * STEP,
    ensures
        quotient(whole(n * d), whole(d)) == whole(n),
{
    let u = unit();
    lemma2_to64();
    lemma2_to64_rest();
    lemma_pow2_pos(1074);
    assert(n == 0 || d <= n * d) by (nonlinear_arith)
        requires
            d > 0,
            n >= 0,
    ;
    assert(n <= n * d) by (nonlinear_arith)
        requires
            d > 0,
            n >= 0,
    ;
    lemma_whole(n * d);
    lemma_whole(n);
    law_whole_numbers_are_exact((n * d) as int);
    law_whole_numbers_are_exact(n as int);
    assert(whole_signed((n * d) as int) == whole(n * d));
    assert(whole_signed(n as int) == whole(n));
    if n == 0 {
        assert(0 * d == 0);
        lemma_divisor_is_a_number(d);
        assert(units(0) == 0);
        assert(0 * u == 0);
        lemma_nearest_bound(0, units(whole(d).magnitude()));
        lemma_nearest_at_most(0, units(whole(d).magnitude()), 0);
    } else {
        lemma_whole(d);
        law_whole_numbers_are_exact(d as int);
        assert(whole_signed(d as int) == whole(d));
        let k = whole(n).magnitude();
        assert(units(k) == n * u);
        assert(d * u > 0) by (nonlinear_arith)
            requires
                d > 0,
                u > 0,
        ;
        assert(((n * d) * u) * u == units(k) * (d * u)) by (nonlinear_arith)
            requires
                units(k) == n * u,
        ;
        law_nearest_is_exact(k, d * u);
    }
}

/// Dividing by a whole number that is not zero is dividing by a number.
proof fn lemma_divisor_is_a_number(d: nat)
    requires
        d > 0,
    ensures
        !whole(d).nan(),
        !whole(d).zero(),
        !whole(d).negative(),
        units(whole(d).magnitude()) > 0,
{
    let v = d * unit();
    lemma_pow2_pos(1074);
    assert(v >= 1) by (nonlinear_arith)
        requires
            v == d * unit(),
            d > 0,
            unit() > 0,
    ;
    assert(units(1) == 1);
    lemma_nearest_bound(v, 1);
    lemma_nearest_at_least(v, 1, 1);
    lemma_units_order(0, nearest(v, 1));
    assert(units(0) == 0);
}

/// What a number that is not negative holds behind the point is a number.
pub proof fn law_fraction_is_exact(x: Double)
    requires
        !x.nan(),
        !x.negative(),
        whole_part(x) < 2 * STEP,
    ensures
        ({
            let rest = fraction(x);
            &&& !rest.nan()
            &&& !rest.negative()
            &&& !rest.infinite()
            &&& units(rest.magnitude()) == units(x.magnitude()) % unit()
        }),
{
    let u = unit();
    let m = x.magnitude();
    let v = units(m);
    let w = whole_part(x);
    lemma2_to64();
    lemma2_to64_rest();
    lemma_pow2_pos(1074);
    lemma_whole(w);
    law_whole_numbers_are_exact(w as int);
    assert(whole_signed(w as int) == whole(w));
    assert(v == w * u + v % u && w * u <= v) by (nonlinear_arith)
        requires
            w == v / u,
            u > 0,
    ;
    // An infinity has more in front of the point.
    assert(m < INFINITE) by {
        if m == INFINITE {
            assert(m / (STEP as nat) == 2047 && m % (STEP as nat) == 0);
            assert(v == STEP * pow2(2046));
            lemma_pow2_adds(52, 2046);
            lemma_pow2_adds(1024, 1074);
            lemma_pow2_strictly_increases(53, 1024);
            assert(v == pow2(1024) * u);
            assert(v / u == pow2(1024)) by (nonlinear_arith)
                requires
                    v == pow2(1024) * u,
                    u > 0,
            ;
        }
    }
    let t = truncation(x);
    assert(t == whole(w));
    assert(units(t.magnitude()) == w * u);
    let f = v % u;
    let k = lemma_rest_is_a_number(m);
    law_nearest_is_exact(k, 1);
    assert(units(k) * 1 == units(k));
    lemma_negation(t);
    assert(units(0) == 0);
    lemma_nearest_at_most(0, 1, 0);
}

/// The negation of a number has the other sign and the same size.
proof fn lemma_negation(x: Double)
    ensures
        negation(x).magnitude() == x.magnitude(),
        negation(x).negative() == !x.negative(),
{
}

/// The units of a magnitude without the whole ones are those of a magnitude.
proof fn lemma_rest_is_a_number(m: nat) -> (k: nat)
    requires
        m < INFINITE,
    ensures
        k < INFINITE,
        units(k) == units(m) % unit(),
{
    let u = unit();
    let v = units(m);
    lemma_pow2_pos(1074);
    lemma2_to64();
    lemma2_to64_rest();
    if v < u {
        assert(v % u == v) by (nonlinear_arith)
            requires
                0 <= v < u,
        ;
        m
    } else {
        let one = 1023 * (STEP as nat);
        lemma_pow2_adds(52, 1022);
        assert(one / (STEP as nat) == 1023 && one % (STEP as nat) == 0);
        assert(units(one) == u);
        lemma_units_order(one, m);
        let e = m / (STEP as nat);
        let f = m % (STEP as nat);
        assert(e >= 1023);
        let s = (e - 1) as nat;
        let p = pow2(s);
        lemma_pow2_pos(s);
        let c = STEP + f;
        assert(v == c * p);
        if s >= 1074 {
            lemma_pow2_adds((s - 1074) as nat, 1074);
            let q = pow2((s - 1074) as nat);
            assert(v % u == 0) by {
                assert(v == (c * q) * u) by (nonlinear_arith)
                    requires
                        v == c * p,
                        p == q * u,
                ;
                vstd::arithmetic::div_mod::lemma_mod_multiples_basic((c * q) as int, u as int);
            }
            assert(units(0) == 0);
            0
        } else {
            lemma_pow2_adds((1074 - s) as nat, s);
            let q = pow2((1074 - s) as nat);
            lemma_pow2_pos((1074 - s) as nat);
            let r = c % (q as int);
            // `c * p` and `q * p` leave the remainder of `c` and `q`, times `p`.
            assert(v % u == r * p) by {
                vstd::arithmetic::div_mod::lemma_truncate_middle(c as int, p as int, q as int);
                assert(c * p == p * c) by (nonlinear_arith);
                assert(q * p == p * q) by (nonlinear_arith);
                assert(r * p == p * r) by (nonlinear_arith);
                assert(u == q * p);
            }
            assert(0 * p == 0);
            if r == 0 {
                assert(units(0) == 0);
                0
            } else {
                assert(r <= c) by (nonlinear_arith)
                    requires
                        r == c % (q as int),
                        c >= 0,
                        q > 0,
                ;
                let k = lemma_dyadic(r as nat, s);
                assert(units(k) == r * p);
                k
            }
        }
    }
}

/// A number times one is that number.
pub proof fn lemma_product_with_one(x: Double)
    requires
        !x.nan(),
    ensures
        product(x, whole(1)) == x,
{
    let one = whole(1);
    let k = 1023 * (STEP as nat);
    lemma2_to64();
    lemma2_to64_rest();
    lemma_pow2_pos(1074);
    lemma_pow2_adds(52, 1022);
    lemma_whole(1);
    assert(k / (STEP as nat) == 1023 && k % (STEP as nat) == 0);
    assert(units(k) == unit());
    law_nearest_is_exact(k, 1);
    assert(1 * unit() == units(k) * 1);
    assert(one.magnitude() == k);
    law_nearest_is_exact(x.magnitude(), unit());
}

/// A number divided by one that is neither zero nor infinite is a number.
pub proof fn lemma_quotient(a: Double, b: Double)
    requires
        !a.nan(),
        !b.nan(),
        !b.zero(),
        !b.infinite(),
    ensures
        !quotient(a, b).nan(),
        quotient(a, b).negative() == (a.negative() != b.negative()),
{
    lemma2_to64();
    lemma_units_order(0, b.magnitude());
    lemma_nearest_bound(units(a.magnitude()) * unit(), units(b.magnitude()));
}

/// The units of a magnitude, times `d`.
fn units_times(magnitude: u64, d: &Natural) -> (r: Natural)
    requires
        magnitude <= INFINITE,
    ensures
        r@ == units(magnitude as nat) * d@,
{
    let exponent: u64 = magnitude / STEP;
    let fraction: u64 = magnitude % STEP;
    if exponent == 0 {
        proof {
            assert(d@ * fraction == fraction * d@) by (nonlinear_arith);
        }
        d.times(fraction)
    } else {
        proof {
            let p = pow2((exponent - 1) as nat);
            let c = STEP + fraction;
            assert((d@ * c) * p == (c * p) * d@) by (nonlinear_arith);
        }
        d.times(STEP + fraction).times_pow2(exponent - 1)
    }
}

/// The magnitude nearest to `n / d` units.
pub(crate) fn round_ratio(n: &Natural, d: &Natural) -> (r: u64)
    requires
        d@ > 0,
    ensures
        r == nearest(n@, d@),
        r <= INFINITE,
{
    let end: Natural = units_times(INFINITE, d);
    let at_end: bool = match end.relation(n) {
        Relation::More => false,
        _ => true,
    };
    if at_end {
        proof {
            lemma_below_is(INFINITE as nat, n@, d@);
        }
        return INFINITE;
    }
    let mut low: u64 = 0;
    let mut high: u64 = INFINITE;
    proof {
        lemma2_to64();
        assert(0 * d@ == 0);
    }
    while high - low > 1
        invariant
            low < high <= INFINITE,
            units(low as nat) * d@ <= n@ < units(high as nat) * d@,
        decreases high - low,
    {
        let middle: u64 = low + (high - low) / 2;
        match units_times(middle, d).relation(n) {
            Relation::More => {
                high = middle;
            },
            _ => {
                low = middle;
            },
        }
    }
    proof {
        lemma_below_is(low as nat, n@, d@);
        let a = units(low as nat);
        let b = units(high as nat);
        assert((a + b) * d@ == a * d@ + b * d@) by (nonlinear_arith);
    }
    let ends: Natural = units_times(low, d).plus(&units_times(high, d));
    match n.mul_add(2, 0).relation(&ends) {
        Relation::Less => low,
        Relation::More => high,
        Relation::Same => if low % 2 == 0 {
            low
        } else {
            high
        },
    }
}

/// Whole part of `n` over a unit, and how twice the rest compares with a unit.
pub(crate) fn divide_by_unit(n: &Natural) -> (r: (Natural, Relation))
    ensures
        r.0@ == n@ / unit(),
        r.1 == (if 2 * (n@ % unit()) < unit() {
            Relation::Less
        } else if 2 * (n@ % unit()) == unit() {
            Relation::Same
        } else {
            Relation::More
        }),
{
    let (high, low) = n.times_pow2(14).split(34);
    let full: Natural = Natural::from_u64(1).times_pow2(1088);
    proof {
        let u = unit() as int;
        let p = pow2(14) as int;
        lemma_pow2_adds(1074, 14);
        lemma_pow2_pos(1074);
        lemma_pow2_pos(14);
        let q = high@ as int;
        let t = low@ as int;
        let m = n@ as int;
        assert(m * p == q * (u * p) + t);
        let r = m - q * u;
        assert(r * p == t) by (nonlinear_arith)
            requires
                m * p == q * (u * p) + t,
                r == m - q * u,
        ;
        assert(0 <= r < u) by (nonlinear_arith)
            requires
                r * p == t,
                0 <= t < u * p,
                p > 0,
        ;
        vstd::arithmetic::div_mod::lemma_fundamental_div_mod_converse(m, u, q, r);
        assert(2 * t < u * p <==> 2 * r < u) by (nonlinear_arith)
            requires
                r * p == t,
                p > 0,
        ;
        assert(2 * t == u * p <==> 2 * r == u) by (nonlinear_arith)
            requires
                r * p == t,
                p > 0,
        ;
    }
    (high, low.mul_add(2, 0).relation(&full))
}

/// The number with the given sign and magnitude.
pub(crate) fn make(negative: bool, magnitude: u64) -> (r: Double)
    requires
        magnitude < SIGN,
    ensures
        r == signed(negative, magnitude as nat),
{
    if negative {
        Double { bits: SIGN + magnitude }
    } else {
        Double { bits: magnitude }
    }
}

fn one() -> (r: Natural)
    ensures
        r@ == 1,
{
    Natural::from_u64(1)
}

fn one_unit() -> (r: Natural)
    ensures
        r@ == unit(),
        r@ > 0,
{
    proof {
        lemma_pow2_pos(1074);
    }
    Natural::from_u64(1).times_pow2(1074)
}

impl Double {
    /// The number with the given bits.
    pub fn from_bits(bits: u64) -> (r: Double)
        ensures
            r.bits == bits,
    {
        Double { bits }
    }

    /// The bits of the number.
    pub fn to_bits(self) -> (r: u64)
        ensures
            r == self.bits,
    {
        self.bits
    }

    /// Whether the sign bit is set.
    pub fn is_negative(self) -> (r: bool)
        ensures
            r == self.negative(),
    {
        self.bits >= SIGN
    }

    fn size(self) -> (r: u64)
        ensures
            r == self.magnitude(),
            r < SIGN,
    {
        self.bits % SIGN
    }

    /// Whether this is no number at all.
    pub fn is_nan(self) -> (r: bool)
        ensures
            r == self.nan(),
    {
        self.size() > INFINITE
    }

    /// Whether this is an infinity.
    pub fn is_infinite(self) -> (r: bool)
        ensures
            r == self.infinite(),
    {
        self.size() == INFINITE
    }

    fn is_zero(self) -> (r: bool)
        ensures
            r == self.zero(),
    {
        self.size() == 0
    }

    /// Whether this is less than `other`.
    pub fn lt(self, other: Double) -> (r: bool)
        ensures
            r == self.less(other),
    {
        let a: u64 = self.size();
        let b: u64 = other.size();
        proof {
            lemma_units_order(a as nat, b as nat);
            lemma_units_order(0, a as nat);
            lemma_units_order(0, b as nat);
            lemma2_to64();
        }
        if a > INFINITE || b > INFINITE {
            false
        } else if self.is_negative() {
            if other.is_negative() {
                b < a
            } else {
                a > 0 || b > 0
            }
        } else {
            !other.is_negative() && a < b
        }
    }

    /// Whether this is at most `other`.
    pub fn le(self, other: Double) -> (r: bool)
        ensures
            r == self.at_most(other),
    {
        !self.is_nan() && !other.is_nan() && !other.lt(self)
    }

    /// The sum of the two.
    pub fn plus(self, other: Double) -> (r: Double)
        ensures
            r == sum(self, other),
    {
        if self.is_nan() || other.is_nan() {
            Double { bits: NAN_BITS }
        } else if self.is_infinite() && other.is_infinite() {
            if self.is_negative() == other.is_negative() {
                self
            } else {
                Double { bits: NAN_BITS }
            }
        } else if self.is_infinite() {
            self
        } else if other.is_infinite() {
            other
        } else {
            let d: Natural = one();
            let a: Natural = units_times(self.size(), &d);
            let b: Natural = units_times(other.size(), &d);
            if self.is_negative() == other.is_negative() {
                let n: Natural = a.plus(&b);
                if n.is_zero() {
                    make(self.is_negative(), 0)
                } else {
                    make(self.is_negative(), round_ratio(&n, &d))
                }
            } else {
                match a.relation(&b) {
                    Relation::Same => make(false, 0),
                    Relation::More => make(
                        self.is_negative(),
                        round_ratio(&a.minus(&b), &d),
                    ),
                    Relation::Less => make(
                        other.is_negative(),
                        round_ratio(&b.minus(&a), &d),
                    ),
                }
            }
        }
    }

    /// The number with the other sign.
    pub fn negated(self) -> (r: Double)
        ensures
            r == negation(self),
    {
        make(!self.is_negative(), self.size())
    }

    /// `self` less `other`.
    pub fn minus(self, other: Double) -> (r: Double)
        ensures
            r == difference(self, other),
    {
        self.plus(other.negated())
    }

    /// The product of the two.
    pub fn times(self, other: Double) -> (r: Double)
        ensures
            r == product(self, other),
    {
        let negative: bool = self.is_negative() != other.is_negative();
        if self.is_nan() || other.is_nan() {
            Double { bits: NAN_BITS }
        } else if self.is_infinite() || other.is_infinite() {
            if self.is_zero() || other.is_zero() {
                Double { bits: NAN_BITS }
            } else {
                make(negative, INFINITE)
            }
        } else {
            let b: Natural = units_times(other.size(), &one());
            let n: Natural = units_times(self.size(), &b);
            make(negative, round_ratio(&n, &one_unit()))
        }
    }

    /// `self` divided by `other`.
    pub fn over(self, other: Double) -> (r: Double)
        ensures
            r == quotient(self, other),
    {
        let negative: bool = self.is_negative() != other.is_negative();
        if self.is_nan() || other.is_nan() || (self.is_infinite() && other.is_infinite()) || (
        self.is_zero() && other.is_zero()) {
            Double { bits: NAN_BITS }
        } else if self.is_infinite() || other.is_zero() {
            make(negative, INFINITE)
        } else if other.is_infinite() {
            make(negative, 0)
        } else {
            let n: Natural = units_times(self.size(), &one_unit());
            let d: Natural = units_times(other.size(), &one());
            proof {
                lemma_units_order(0, other.magnitude());
                lemma2_to64();
            }
            make(negative, round_ratio(&n, &d))
        }
    }

    /// Units of this number.
    pub(crate) fn natural(self) -> (r: Natural)
        requires
            !self.nan(),
        ensures
            r@ == units(self.magnitude()),
    {
        units_times(self.size(), &one())
    }

    /// The number without the digits after the point.
    pub fn trunc(self) -> (r: Double)
        ensures
            r == truncation(self),
    {
        if self.size() >= INFINITE {
            self
        } else {
            let (low, _rest) = divide_by_unit(&self.natural());
            make(self.is_negative(), round_ratio(&low.times_pow2(1074), &one()))
        }
    }

    /// The digits after the point.
    pub fn fract(self) -> (r: Double)
        ensures
            r == fraction(self),
    {
        self.minus(self.trunc())
    }

    /// The nearest whole number, ties away from zero.
    pub fn round(self) -> (r: Double)
        ensures
            r == rounded(self),
    {
        if self.size() >= INFINITE {
            self
        } else {
            let (low, rest) = divide_by_unit(&self.natural());
            let up: u32 = match rest {
                Relation::Less => 0,
                _ => 1,
            };
            let n: Natural = low.mul_add(1, up);
            make(self.is_negative(), round_ratio(&n.times_pow2(1074), &one()))
        }
    }

    /// The whole part as a signed machine word.
    pub fn to_i64(self) -> (r: i64)
        ensures
            r == as_signed(self),
    {
        if self.is_nan() {
            return 0;
        }
        let (low, _rest) = divide_by_unit(&self.natural());
        match low.to_u64() {
            Some(n) => {
                if self.is_negative() {
                    if n > 0x7fff_ffff_ffff_ffff {
                        i64::MIN
                    } else {
                        -(n as i64)
                    }
                } else if n > 0x7fff_ffff_ffff_ffff {
                    i64::MAX
                } else {
                    n as i64
                }
            },
            None => if self.is_negative() {
                i64::MIN
            } else {
                i64::MAX
            },
        }
    }

    /// The whole part as an index.
    pub fn to_usize(self) -> (r: usize)
        ensures
            r == as_index(self),
    {
        if self.is_nan() || self.is_negative() {
            return 0;
        }
        let (low, _rest) = divide_by_unit(&self.natural());
        match low.to_u64() {
            Some(n) => if n > usize::MAX as u64 {
                usize::MAX
            } else {
                n as usize
            },
            None => usize::MAX,
        }
    }

    /// The number nearest to `n`.
    pub fn from_u64(n: u64) -> (r: Double)
        ensures
            r == whole(n as nat),
    {
        let scaled: Natural = Natural::from_u64(n).times_pow2(1074);
        make(false, round_ratio(&scaled, &one()))
    }

    /// The number nearest to `n`.
    pub fn from_i64(n: i64) -> (r: Double)
        ensures
            r == whole_signed(n as int),
    {
        let size: u64 = if n == i64::MIN {
            0x8000_0000_0000_0000
        } else if n < 0 {
            (-n) as u64
        } else {
            n as u64
        };
        let scaled: Natural = Natural::from_u64(size).times_pow2(1074);
        make(n < 0, round_ratio(&scaled, &one()))
    }
}

impl PartialEq for Double {
    fn eq(&self, other: &Double) -> (r: bool) {
        self.le(*other) && other.le(*self)
    }
}

impl vstd::std_specs::cmp::PartialEqSpecImpl for Double {
    open spec fn obeys_eq_spec() -> bool {
        true
    }

    open spec fn eq_spec(&self, other: &Double) -> bool {
        self.equals(*other)
    }
}

/// Whether this is a number that is not infinite.
pub open spec fn finite(x: Double) -> bool {
    x.magnitude() < INFINITE
}

proof fn lemma_signed(negative: bool, magnitude: nat)
    requires
        magnitude <= INFINITE,
    ensures
        signed(negative, magnitude).magnitude() == magnitude,
        signed(negative, magnitude).negative() == negative,
{
}

/// A sum that is a number is exact.
pub proof fn law_sums_are_exact(a: Double, b: Double, c: Double)
    requires
        finite(a),
        finite(b),
        finite(c),
        a.value() + b.value() == c.value(),
    ensures
        sum(a, b).equals(c),
        difference(c, b).equals(a),
{
    law_nearest_is_exact(c.magnitude(), 1);
    law_nearest_is_exact(a.magnitude(), 1);
    assert(units(c.magnitude()) * 1 == units(c.magnitude()));
    assert(units(a.magnitude()) * 1 == units(a.magnitude()));
    lemma_negation(b);
    lemma_signed(true, c.magnitude());
    lemma_signed(false, c.magnitude());
    lemma_signed(true, a.magnitude());
    lemma_signed(false, a.magnitude());
    assert(units(0) == 0);
    lemma_units_order(0, c.magnitude());
    lemma_units_order(0, a.magnitude());
    lemma_units_order(a.magnitude(), b.magnitude());
    lemma_units_order(c.magnitude(), b.magnitude());
}

/// A product that is a number is exact.
pub proof fn law_products_are_exact(a: Double, b: Double, c: Double)
    requires
        finite(a),
        finite(b),
        finite(c),
        a.value() * b.value() == c.value() * unit(),
    ensures
        product(a, b).equals(c),
{
    let x = units(a.magnitude());
    let y = units(b.magnitude());
    let z = units(c.magnitude());
    lemma_pow2_pos(1074);
    assert(units(0) == 0);
    lemma_units_order(0, a.magnitude());
    lemma_units_order(0, b.magnitude());
    lemma_units_order(0, c.magnitude());
    lemma_sizes_multiply(a.value(), b.value(), c.value(), unit() as int, x as int, y as int, z as int);
    law_nearest_is_exact(c.magnitude(), unit());
    lemma_signed(true, c.magnitude());
    lemma_signed(false, c.magnitude());
}

/// Where the values multiply, so do their sizes, and a product that is not zero has the
/// sign that its factors give it.
proof fn lemma_sizes_multiply(a: int, b: int, c: int, u: int, x: int, y: int, z: int)
    requires
        a * b == c * u,
        u > 0,
        x >= 0 && (a == x || a == -x),
        y >= 0 && (b == y || b == -y),
        z >= 0 && (c == z || c == -z),
    ensures
        x * y == z * u,
        c > 0 ==> (a > 0 && b > 0) || (a < 0 && b < 0),
        c < 0 ==> (a > 0 && b < 0) || (a < 0 && b > 0),
        c == 0 ==> a == 0 || b == 0,
{
    assert(x * y == a * b || x * y == -(a * b)) by (nonlinear_arith)
        requires
            a == x || a == -x,
            b == y || b == -y,
    ;
    assert(z * u == c * u || z * u == -(c * u)) by (nonlinear_arith)
        requires
            c == z || c == -z,
    ;
    assert(x * y >= 0 && z * u >= 0) by (nonlinear_arith)
        requires
            x >= 0,
            y >= 0,
            z >= 0,
            u > 0,
    ;
    assert(c > 0 ==> c * u > 0) by (nonlinear_arith)
        requires
            u > 0,
    ;
    assert(c < 0 ==> c * u < 0) by (nonlinear_arith)
        requires
            u > 0,
    ;
    assert(a * b > 0 ==> (a > 0 && b > 0) || (a < 0 && b < 0)) by (nonlinear_arith);
    assert(a * b < 0 ==> (a > 0 && b < 0) || (a < 0 && b > 0)) by (nonlinear_arith);
    assert(a * b == 0 ==> a == 0 || b == 0) by (nonlinear_arith);
    assert(c == 0 ==> c * u == 0) by (nonlinear_arith);
}

/// A quotient that is a number is exact.
pub proof fn law_quotients_are_exact(a: Double, b: Double, c: Double)
    requires
        finite(a),
        finite(b),
        finite(c),
        b.value() != 0,
        c.value() * b.value() == a.value() * unit(),
    ensures
        quotient(a, b).equals(c),
{
    let x = units(a.magnitude());
    let y = units(b.magnitude());
    let z = units(c.magnitude());
    lemma_pow2_pos(1074);
    assert(units(0) == 0);
    lemma_units_order(0, a.magnitude());
    lemma_units_order(0, b.magnitude());
    lemma_units_order(0, c.magnitude());
    lemma_sizes_multiply(c.value(), b.value(), a.value(), unit() as int, z as int, y as int, x as int);
    assert(y > 0);
    law_nearest_is_exact(c.magnitude(), y);
    lemma_signed(true, c.magnitude());
    lemma_signed(false, c.magnitude());
}

} // verus!
