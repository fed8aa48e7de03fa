//! Whole numbers in steps of equal size, in binary floating point: where the steps fall,
//! and how many there are.

use crate::double;
use crate::double::Double;
use vstd::arithmetic::power2::*;
use vstd::prelude::*;

verus! {

/// The size of one of `parts` equal steps up to `n`.
pub open spec fn step(n: nat, parts: nat) -> Double {
    double::quotient(double::whole(n), double::whole(parts))
}

/// Where the step `i` begins, as a whole number: the whole part of `i` times the step.
pub open spec fn step_start(n: nat, parts: nat, i: nat) -> usize {
    double::as_index(double::product(double::whole(i), step(n, parts)))
}

/// The magnitude of one.
spec fn one() -> nat {
    1023 * (double::STEP as nat)
}

proof fn lemma_one()
    ensures
        double::units(one()) == double::unit(),
        double::unit() > 0,
        one() < double::INFINITE,
{
    lemma2_to64();
    lemma2_to64_rest();
    lemma_pow2_pos(1074);
    lemma_pow2_adds(52, 1022);
    assert(one() / (double::STEP as nat) == 1023 && one() % (double::STEP as nat) == 0);
}

proof fn lemma_whole_units(n: nat)
    requires
        n < 2 * double::STEP,
    ensures
        double::units(double::whole(n).magnitude()) == n * double::unit(),
        double::whole(n).magnitude() < double::INFINITE,
        !double::whole(n).negative(),
{
    double::lemma_whole(n);
    double::law_whole_numbers_are_exact(n as int);
    assert(double::whole_signed(n as int) == double::whole(n));
}

/// The units of a step.
spec fn step_units(n: nat, parts: nat) -> nat {
    double::units(double::nearest(n * double::unit(), parts))
}

/// A step is a number, and not less than one; a multiple of it is rounded once.
proof fn lemma_step(n: nat, parts: nat, i: nat)
    requires
        0 < parts < n,
        n <= double::STEP / 2,
        i < double::STEP,
    ensures
        ({
            let t = step_units(n, parts);
            let b = double::below(n * double::unit(), parts);
            let r = double::product(double::whole(i), step(n, parts));
            &&& t >= double::unit()
            &&& b >= double::STEP
            &&& t <= double::units(b + 1)
            &&& double::units(b) * parts <= n * double::unit()
            &&& r.magnitude() == double::nearest(i * t, 1)
            &&& double::nearest(i * t, 1) <= double::INFINITE
            &&& !r.negative()
            &&& !r.nan()
        }),
{
    let u = double::unit();
    lemma_one();
    lemma_whole_units(n);
    lemma_whole_units(parts);
    lemma_whole_units(i);
    double::lemma_whole(parts);
    let b = double::below(n * u, parts);
    double::lemma_nearest_bound(n * u, parts);
    assert(parts * u > 0) by (nonlinear_arith)
        requires
            parts > 0,
            u > 0,
    ;
    double::lemma_nearest_of_multiples(n * u, parts, u);
    let s = double::nearest(n * u, parts);
    assert(double::nearest((n * u) * u, parts * u) == s);
    assert(u * parts <= n * u) by (nonlinear_arith)
        requires
            parts < n,
            u > 0,
    ;
    double::lemma_nearest_at_least(n * u, parts, one());
    double::lemma_units_order(one(), s);
    if b < one() {
        double::lemma_units_order(b + 1, one());
        assert(double::units(b + 1) * parts <= u * parts) by (nonlinear_arith)
            requires
                double::units(b + 1) <= u,
                parts > 0,
        ;
    }
    let top = double::whole(n).magnitude();
    assert(n * u <= double::units(top) * parts) by (nonlinear_arith)
        requires
            double::units(top) == n * u,
            parts >= 1,
            n * u >= 0,
    ;
    double::lemma_nearest_at_most(n * u, parts, top);
    let size = step(n, parts);
    assert(size.magnitude() == s);
    assert(!size.negative() && !size.nan() && !size.infinite());
    let t = double::units(s);
    assert((i * u) * t == (i * t) * u) by (nonlinear_arith);
    assert(1 * u == u);
    double::lemma_nearest_of_multiples(i * t, 1, u);
    double::lemma_nearest_bound(i * t, 1);
    double::lemma_units_order(s, b + 1);
    assert(s <= b + 1);
}

/// With `n` things in fewer parts, each part starts before the end.
proof fn lemma_step_inside(n: nat, parts: nat, i: nat)
    requires
        i < parts < n,
        n <= double::STEP / 2,
    ensures
        double::units(double::nearest(i * step_units(n, parts), 1)) < n * double::unit(),
{
    let u = double::unit();
    let t = step_units(n, parts);
    lemma_one();
    lemma_step(n, parts, i);
    lemma2_to64();
    lemma2_to64_rest();
    // A number half below `n` bounds it.
    let half = double::lemma_dyadic((2 * n - 1) as nat, 1073);
    let h = pow2(1073);
    lemma_pow2_unfold(1074);
    lemma_pow2_pos(1073);
    let b = double::below(n * u, parts);
    double::lemma_units_gap(b);
    let ub = double::units(b);
    let un = double::units(b + 1);
    assert(i * t <= double::units(half) * 1) by {
        assert(double::STEP * t <= (double::STEP + 1) * ub) by (nonlinear_arith)
            requires
                t <= un,
                double::STEP * (un - ub) <= ub,
        ;
        lemma_parts_arithmetic(n as int, parts as int, i as int, h as int, ub as int, t as int);
    }
    double::lemma_nearest_at_most(i * t, 1, half);
    double::lemma_units_order(double::nearest(i * t, 1), half);
    assert(double::units(half) < n * u) by (nonlinear_arith)
        requires
            double::units(half) == (2 * n - 1) * h,
            u == 2 * h,
            h > 0,
    ;
}

proof fn lemma_parts_arithmetic(n: int, parts: int, i: int, h: int, ub: int, t: int)
    requires
        0 <= i < parts < n,
        n <= double::STEP / 2,
        h > 0,
        ub >= 0,
        t >= 0,
        ub * parts <= n * (2 * h),
        double::STEP * t <= (double::STEP + 1) * ub,
    ensures
        i * t <= (2 * n - 1) * h,
{
    let k = double::STEP as int;
    // `k * t * parts <= (k + 1) * n * 2 * h`
    assert((k * t) * parts <= ((k + 1) * ub) * parts) by (nonlinear_arith)
        requires
            k * t <= (k + 1) * ub,
            parts > 0,
    ;
    assert(((k + 1) * ub) * parts <= (k + 1) * (n * (2 * h))) by (nonlinear_arith)
        requires
            ub * parts <= n * (2 * h),
            k > 0,
    ;
    let q = k * parts;
    // times `i`, which is at most `parts - 1`
    assert((i * t) * q <= (parts - 1) * ((k + 1) * (n * (2 * h)))) by (nonlinear_arith)
        requires
            (k * t) * parts <= (k + 1) * (n * (2 * h)),
            0 <= i <= parts - 1,
            q == k * parts,
            t >= 0,
            k > 0,
            parts > 0,
    ;
    // and that is at most `(2 * n - 1) * h * q`
    assert((parts - 1) * ((k + 1) * (n * 2)) <= (2 * n - 1) * q) by (nonlinear_arith)
        requires
            q == k * parts,
            0 < parts < n,
            2 * n <= k,
    ;
    assert((parts - 1) * ((k + 1) * (n * (2 * h))) == ((parts - 1) * ((k + 1) * (n * 2))) * h)
        by (nonlinear_arith);
    assert(((parts - 1) * ((k + 1) * (n * 2))) * h <= ((2 * n - 1) * q) * h) by (nonlinear_arith)
        requires
            (parts - 1) * ((k + 1) * (n * 2)) <= (2 * n - 1) * q,
            h > 0,
    ;
    assert(((2 * n - 1) * q) * h == ((2 * n - 1) * h) * q) by (nonlinear_arith);
    assert(q > 0) by (nonlinear_arith)
        requires
            q == k * parts,
            k > 0,
            parts > 0,
    ;
    assert(i * t <= (2 * n - 1) * h) by (nonlinear_arith)
        requires
            (i * t) * q <= ((2 * n - 1) * h) * q,
            q > 0,
    ;
}

/// What is rounded up to a whole number is, one further, rounded up to at least the
/// next.
proof fn lemma_rounding_one_further(y: nat, z: nat, m: nat)
    requires
        m + 1 < double::STEP,
        z >= y + double::unit(),
        double::units(double::nearest(y, 1)) >= m * double::unit(),
    ensures
        double::units(double::nearest(z, 1)) >= (m + 1) * double::unit(),
{
    let u = double::unit();
    lemma_one();
    let next = double::lemma_dyadic(m + 1, 1074);
    let un = double::units(next);
    let r = double::nearest(z, 1);
    double::lemma_nearest_bound(z, 1);
    double::lemma_nearest_bound(y, 1);
    assert((m + 1) * u == m * u + u) by (nonlinear_arith);
    assert(un * 1 == un);
    if z >= un {
        double::lemma_nearest_at_least(z, 1, next);
        double::lemma_units_order(next, r);
    } else {
        // Then `y` lies below `m` and is rounded up to it.
        assert(m > 0) by {
            if m == 0 {
                assert(0 * u == 0);
            }
        }
        let here = double::lemma_dyadic(m, 1074);
        let uh = double::units(here);
        assert(uh * 1 == uh);
        double::lemma_nearest_at_most(y, 1, here);
        double::lemma_units_order(double::nearest(y, 1), here);
        assert(double::nearest(y, 1) == here);
        let b = double::below(y, 1);
        assert(double::units(b) * 1 == double::units(b));
        double::lemma_units_order(b, here);
        assert(b + 1 == here);
        assert((double::units(b) + uh) * 1 == double::units(b) + uh);
        assert(2 * y >= double::units(b) + uh);
        // The distance between magnitudes does not fall from there on.
        assert(u <= uh) by (nonlinear_arith)
            requires
                uh == m * u,
                m > 0,
        ;
        double::lemma_units_order(one(), here);
        double::lemma_units_order(here, next);
        let c = (next - 1) as nat;
        assert(b >= double::STEP && c >= b);
        double::lemma_units_gap(b);
        double::lemma_units_gap(c);
        let eb = (b / (double::STEP as nat) - 1) as nat;
        let ec = (c / (double::STEP as nat) - 1) as nat;
        assert(eb <= ec) by (nonlinear_arith)
            requires
                b <= c,
                eb == b / (double::STEP as nat) - 1,
                ec == c / (double::STEP as nat) - 1,
        ;
        if eb < ec {
            lemma_pow2_strictly_increases(eb, ec);
        }
        let uc = double::units(c);
        assert(un - uc >= uh - double::units(b));
        assert(2 * z >= uc + un);
        assert(uc * 1 == uc && double::units(c + 1) * 1 == un);
        double::lemma_units_step(c);
        double::lemma_below_is(c, z, 1);
        assert((uc + un) * 1 == uc + un);
        assert(next % 2 == 0);
        assert(c % 2 == 1);
        assert(r == next);
    }
}

/// With `n` things in fewer parts, the first part starts with the first thing, each
/// part starts behind the one before it, and all start before the end. (With more than
/// 2^51 things, more than any memory holds, this is not claimed.)
pub proof fn law_steps_begin_apart(n: nat, parts: nat, i: nat)
    requires
        i < parts < n,
        n <= double::STEP / 2,
        n <= usize::MAX,
    ensures
        step_start(n, parts, 0) == 0,
        step_start(n, parts, i) < n,
        i + 1 < parts ==> step_start(n, parts, i) < step_start(n, parts, i + 1),
{
    let u = double::unit();
    let t = step_units(n, parts);
    lemma_one();
    lemma_step(n, parts, 0);
    lemma_step(n, parts, i);
    lemma_step(n, parts, i + 1);
    assert(0 * t == 0);
    assert(double::units(0) == 0);
    double::lemma_nearest_at_most(0, 1, 0);
    lemma_step_inside(n, parts, i);
    let x = double::units(double::nearest(i * t, 1));
    let m = x / u;
    lemma_whole_part(x, u, n);
    assert(double::whole_part(double::product(double::whole(i), step(n, parts))) == m);
    assert(0nat / u == 0) by (nonlinear_arith)
        requires
            u > 0,
    ;
    if i + 1 < parts {
        lemma_step_inside(n, parts, i + 1);
        assert((i + 1) * t == i * t + t) by (nonlinear_arith);
        lemma_rounding_one_further(i * t, (i + 1) * t, m);
        let z = double::units(double::nearest((i + 1) * t, 1));
        lemma_whole_part(z, u, n);
        assert(z / u >= m + 1) by (nonlinear_arith)
            requires
                z >= (m + 1) * u,
                u > 0,
        ;
        assert(double::whole_part(double::product(double::whole(i + 1), step(n, parts))) == z / u);
    }
}

proof fn lemma_whole_part(x: nat, u: nat, n: nat)
    requires
        u > 0,
        x < n * u,
    ensures
        x / u < n,
        (x / u) * u <= x,
{
    assert(x / u < n) by (nonlinear_arith)
        requires
            u > 0,
            x < n * u,
    ;
    assert((x / u) * u <= x) by (nonlinear_arith)
        requires
            u > 0,
    ;
}

/// `x`, but at least one; one where `x` is no number.
pub open spec fn at_least_one(x: Double) -> Double {
    if x.nan() || x.less(double::whole(1)) {
        double::whole(1)
    } else {
        x
    }
}

/// The number of the span of that width into which `t` falls, from zero.
pub open spec fn span_number(t: nat, width: Double) -> nat {
    double::whole_part(double::quotient(double::whole(t), width))
}

/// With spans of the width of one of `parts` equal steps up to `n`, and no less than
/// one, everything up to `n` falls into a span with one of the first `parts` numbers or
/// the two behind them. (With 2^52 parts or more this is not claimed: rounding can then
/// make up for more than a span.)
pub proof fn law_spans_are_few(n: nat, parts: nat, t: nat)
    requires
        n <= i64::MAX,
        0 < parts < double::STEP,
        t <= n,
    ensures
        span_number(t, at_least_one(step(n, parts))) <= parts + 1,
{
    let u = double::unit();
    lemma_one();
    double::lemma_whole(n);
    double::lemma_whole(t);
    double::lemma_whole(parts);
    double::lemma_whole(1);
    lemma_whole_units(parts);
    lemma_whole_units(1);
    let s = double::units(double::whole(n).magnitude());
    let x = double::units(double::whole(t).magnitude());
    double::law_whole_numbers_keep_order(t as int, n as int);
    assert(double::whole_signed(n as int) == double::whole(n));
    assert(double::whole_signed(t as int) == double::whole(t));
    assert(x <= s);
    assert(1 * u == u);
    // The step.
    let top = double::whole(n).magnitude();
    double::lemma_nearest_of_multiples(s, parts, u);
    double::lemma_nearest_bound(s, parts);
    assert(s <= double::units(top) * parts) by (nonlinear_arith)
        requires
            double::units(top) == s,
            parts >= 1,
            s >= 0,
    ;
    double::lemma_nearest_at_most(s, parts, top);
    let q = double::nearest(s, parts);
    let size = step(n, parts);
    if n > 0 {
        assert(size.magnitude() == q);
    } else {
        double::lemma_nearest_at_most(0, parts, 0);
    }
    assert(size.magnitude() == q && !size.negative() && !size.nan());
    let width = at_least_one(size);
    let r = double::quotient(double::whole(t), width);
    if size.less(double::whole(1)) {
        // Every second has a span of its own.
        assert(double::units(q) < u);
        assert(s < u * parts) by {
            if s >= u * parts {
                double::lemma_nearest_at_least(s, parts, one());
                double::lemma_units_order(one(), q);
            }
        }
        double::law_nearest_is_exact(double::whole(t).magnitude(), u);
        assert(r.magnitude() == double::whole(t).magnitude());
        assert(x / u <= parts + 1) by (nonlinear_arith)
            requires
                x < u * parts,
                u > 0,
        ;
    } else {
        let w = double::units(q);
        let b = double::below(s, parts);
        double::lemma_units_order(one(), q);
        assert(b + 1 >= q && b < double::INFINITE);
        double::lemma_units_gap(b);
        double::lemma_units_order(b, q);
        let ub = double::units(b);
        let un = double::units(b + 1);
        let k = double::STEP as nat;
        assert(s <= (parts + 1) * ub) by (nonlinear_arith)
            requires
                s < un * parts,
                k * (un - ub) <= ub,
                0 < parts < k,
                un >= ub,
        ;
        assert((parts + 1) * ub <= (parts + 1) * w) by (nonlinear_arith)
            requires
                ub <= w,
        ;
        let end = double::lemma_dyadic(parts + 1, 1074);
        assert(x * u <= double::units(end) * w) by (nonlinear_arith)
            requires
                x <= s,
                s <= (parts + 1) * w,
                double::units(end) == (parts + 1) * u,
                u > 0,
        ;
        double::lemma_nearest_bound(x * u, w);
        double::lemma_nearest_at_most(x * u, w, end);
        double::lemma_units_order(double::nearest(x * u, w), end);
        let y = double::units(double::nearest(x * u, w));
        assert(r.magnitude() == double::nearest(x * u, w));
        assert(y / u <= parts + 1) by (nonlinear_arith)
            requires
                y <= (parts + 1) * u,
                u > 0,
        ;
    }
}

} // verus!
