//! Decimal text of numbers.

use crate::double;
use crate::double::Double;
use crate::natural::{Natural, Relation};
use crate::text;
use vstd::arithmetic::power::*;
use vstd::arithmetic::power2::*;
use vstd::prelude::*;

verus! {

/// The character of the digit `d`.
pub open spec fn digit(d: nat) -> char {
    (48 + d) as char
}

/// `n` in decimal, without leading zeros.
pub open spec fn decimal(n: nat) -> Seq<char>
    decreases n,
{
    if n < 10 {
        seq![digit(n)]
    } else {
        decimal(n / 10).push(digit(n % 10))
    }
}

/// The last `width` decimal digits of `n`.
pub open spec fn last_digits(n: nat, width: nat) -> Seq<char>
    decreases width,
{
    if width == 0 {
        seq![]
    } else {
        last_digits(n / 10, (width - 1) as nat).push(digit(n % 10))
    }
}

/// `n` in decimal, with a sign where it is negative.
pub open spec fn integer(n: int) -> Seq<char> {
    if n < 0 {
        seq!['-'] + decimal((-n) as nat)
    } else {
        decimal(n as nat)
    }
}

/// `x` in decimal with `places` digits after the point, ties to the even digit.
pub open spec fn fixed(x: Double, places: nat) -> Seq<char> {
    let sign = if x.negative() {
        seq!['-']
    } else {
        seq![]
    };
    if x.nan() {
        "NaN"@
    } else if x.infinite() {
        sign + "inf"@
    } else {
        let scale = pow(10, places) as nat;
        let n = double::half_even(double::units(x.magnitude()) * scale, double::unit());
        let point = if places == 0 {
            seq![]
        } else {
            seq!['.']
        };
        sign + decimal(n / scale) + point + last_digits(n, places)
    }
}

fn digit_of(d: u32) -> (c: char)
    requires
        d < 10,
    ensures
        c == digit(d as nat),
{
    (48u8 + d as u8) as char
}

fn digits_of(n: &Natural) -> (r: Vec<char>)
    ensures
        r@ == decimal(n@),
{
    let mut out: Vec<char> = Vec::new();
    let (mut rest, mut low) = n.div_rem(10);
    while !rest.is_zero()
        invariant
            low < 10,
            decimal(n@) == decimal((rest@ * 10 + low) as nat) + out@,
        decreases rest@,
    {
        out.insert(0, digit_of(low));
        let (next, next_low) = rest.div_rem(10);
        rest = next;
        low = next_low;
    }
    out.insert(0, digit_of(low));
    out
}

/// The decimal digits of `n`.
pub fn natural_text(n: u64) -> (r: Vec<char>)
    ensures
        r@ == decimal(n as nat),
{
    digits_of(&Natural::from_u64(n))
}

proof fn lemma_shed(n: nat, places: nat)
    ensures
        places > 0 ==> n / pow(10, places) as nat == (n / 10) / pow(10, (places - 1) as nat) as nat,
        pow(10, places) > 0,
{
    lemma_pow_positive(10, places);
    if places > 0 {
        let p = pow(10, (places - 1) as nat);
        lemma_pow_positive(10, (places - 1) as nat);
        reveal(pow);
        vstd::arithmetic::div_mod::lemma_div_denominator(n as int, 10, p);
    }
}

/// `x` in decimal with `places` digits after the point, as `{:.places}` writes it.
pub fn fixed_text(x: Double, places: u32) -> (r: Vec<char>)
    ensures
        r@ == fixed(x, places as nat),
{
    if x.is_nan() {
        return text::characters("NaN");
    }
    let mut out: Vec<char> = Vec::new();
    if x.is_negative() {
        out.push('-');
    }
    let ghost sign = out@;
    if x.is_infinite() {
        let mut word: Vec<char> = text::characters("inf");
        out.append(&mut word);
        return out;
    }
    let mut n: Natural = x.natural();
    let mut i: u32 = 0;
    proof {
        lemma_pow0(10);
    }
    let ghost u = double::units(x.magnitude());
    assert(u * 1 == u);
    while i < places
        invariant
            i <= places,
            n@ == u * pow(10, i as nat),
        decreases places - i,
    {
        n = n.mul_add(10, 0);
        i = i + 1;
        proof {
            reveal(pow);
            let p = pow(10, (i - 1) as nat);
            assert((u * p) * 10 == u * (10 * p)) by (nonlinear_arith);
        }
    }
    let (low, rest) = double::divide_by_unit(&n);
    let (_half, odd) = low.div_rem(2);
    let up: u32 = match rest {
        Relation::Less => 0,
        Relation::Same => odd,
        Relation::More => 1,
    };
    let scaled: Natural = low.mul_add(1, up);
    let ghost whole = scaled@;
    proof {
        lemma_pow_positive(10, places as nat);
        vstd::arithmetic::power2::lemma_pow2_pos(1074);
        assert(whole == double::half_even(n@, double::unit()));
    }
    let mut tail: Vec<char> = Vec::new();
    let mut left: Natural = scaled;
    let mut j: u32 = 0;
    while j < places
        invariant
            j <= places,
            whole / pow(10, places as nat) as nat == left@ / pow(10, (places - j) as nat) as nat,
            last_digits(whole, places as nat) == last_digits(left@, (places - j) as nat) + tail@,
        decreases places - j,
    {
        let (next, d) = left.div_rem(10);
        proof {
            lemma_shed(left@, (places - j) as nat);
            assert(left@ / 10 == next@ && left@ % 10 == d);
        }
        tail.insert(0, digit_of(d));
        left = next;
        j = j + 1;
    }
    proof {
        lemma_pow0(10);
    }
    let mut head: Vec<char> = digits_of(&left);
    let ghost front = head@;
    let ghost back = tail@;
    out.append(&mut head);
    if places > 0 {
        out.push('.');
    }
    out.append(&mut tail);
    proof {
        let scale = pow(10, places as nat) as nat;
        assert(left@ / 1 == left@);
        assert(front == decimal(whole / scale));
        assert(back == last_digits(whole, places as nat));
        assert(n@ == u * scale);
        assert(sign == if x.negative() {
            seq!['-']
        } else {
            seq![]
        });
        if places == 0 {
            assert(out@ =~= sign + front + seq![] + back);
        } else {
            assert(out@ =~= sign + front + seq!['.'] + back);
        }
    }
    out
}

/// `n` in decimal, with a sign where it is negative.
pub fn integer_text(n: i64) -> (r: Vec<char>)
    ensures
        r@ == integer(n as int),
{
    if n < 0 {
        let mut out: Vec<char> = Vec::new();
        out.push('-');
        let mut head: Vec<char> = if n == i64::MIN {
            natural_text(0x8000_0000_0000_0000)
        } else {
            natural_text((-n) as u64)
        };
        out.append(&mut head);
        out
    } else {
        natural_text(n as u64)
    }
}

/// The character of the hexadecimal digit `d`.
pub open spec fn hex_digit(d: nat) -> char {
    if d < 10 {
        (48 + d) as char
    } else {
        (87 + d) as char
    }
}

/// `n` in hexadecimal, in small letters and without leading zeros.
pub open spec fn hexadecimal(n: nat) -> Seq<char>
    decreases n,
{
    if n < 16 {
        seq![hex_digit(n)]
    } else {
        hexadecimal(n / 16).push(hex_digit(n % 16))
    }
}

/// `n` in hexadecimal, in small letters and without leading zeros.
pub fn hexadecimal_text(n: u128) -> (r: Vec<char>)
    ensures
        r@ == hexadecimal(n as nat),
{
    let mut out: Vec<char> = Vec::new();
    let mut rest: u128 = n;
    while rest >= 16
        invariant
            hexadecimal(n as nat) == hexadecimal(rest as nat) + out@,
        decreases rest,
    {
        let d: u8 = (rest % 16) as u8;
        out.insert(
            0,
            if d < 10 {
                (48 + d) as char
            } else {
                (87 + d) as char
            },
        );
        rest = rest / 16;
    }
    let d: u8 = rest as u8;
    out.insert(
        0,
        if d < 10 {
            (48 + d) as char
        } else {
            (87 + d) as char
        },
    );
    out
}

/// `n` in decimal, with zeros before it up to `width` characters.
pub open spec fn padded(n: int, width: nat) -> Seq<char> {
    let digits = decimal(double::distance(n));
    let sign = if n < 0 {
        seq!['-']
    } else {
        seq![]
    };
    if sign.len() + digits.len() < width {
        sign + Seq::new((width - sign.len() - digits.len()) as nat, |i: int| '0') + digits
    } else {
        sign + digits
    }
}

/// `n` in decimal, with zeros before it up to `width` characters.
pub fn padded_text(n: i64, width: usize) -> (r: Vec<char>)
    ensures
        r@ == padded(n as int, width as nat),
{
    let mut out: Vec<char> = Vec::new();
    let mut digits: Vec<char>;
    if n < 0 {
        out.push('-');
        digits =
        if n == i64::MIN {
            natural_text(0x8000_0000_0000_0000)
        } else {
            natural_text((-n) as u64)
        };
    } else {
        digits = natural_text(n as u64);
    }
    let ghost sign = out@;
    let ghost front = digits@;
    while out.len() < width && digits.len() < width - out.len()
        invariant
            digits@ == front,
            sign.len() <= out@.len(),
            out@ =~= sign + Seq::new((out@.len() - sign.len()) as nat, |i: int| '0'),
            out@.len() == sign.len() || out@.len() + front.len() <= width,
        decreases width - out.len(),
    {
        out.push('0');
    }
    out.append(&mut digits);
    proof {
        assert(sign =~= if n < 0 {
            seq!['-']
        } else {
            seq![]
        });
        assert(out@ =~= padded(n as int, width as nat));
    }
    out
}

/// The number of a row of digits behind an optional plus sign, where it fits in a
/// machine word.
pub open spec fn parsed_natural(s: Seq<char>) -> Option<u64> {
    let digits = if s.len() > 0 && s[0] == '+' {
        s.drop_first()
    } else {
        s
    };
    if digits.len() > 0 && all_digits(digits) && digits_value(digits) <= u64::MAX {
        Some(digits_value(digits) as u64)
    } else {
        None
    }
}

/// The number of a row of digits behind an optional plus sign, where it fits in a
/// machine word.
pub fn parse_natural(s: &[char]) -> (r: Option<u64>)
    ensures
        r == parsed_natural(s@),
{
    let digits: Vec<char> = if s.len() > 0 && s[0] == '+' {
        text::part(s, 1, s.len())
    } else {
        text::part(s, 0, s.len())
    };
    assert(digits@ =~= if s@.len() > 0 && s@[0] == '+' {
        s@.drop_first()
    } else {
        s@
    });
    if digits.len() == 0 || !check_digits(digits.as_slice()) {
        None
    } else {
        digits_natural(digits.as_slice()).to_u64()
    }
}

/// The number nearest to `digits` with `places` of them behind the point.
pub open spec fn decimal_number(digits: nat, places: nat) -> Double {
    double::signed(false, double::nearest(digits * double::unit(), pow(10, places) as nat))
}

/// The number nearest to `digits` with `places` of them behind the point.
pub fn number(digits: u64, places: usize) -> (r: Double)
    ensures
        r == decimal_number(digits as nat, places as nat),
{
    proof {
        lemma_pow_positive(10, places as nat);
    }
    let n: Natural = Natural::from_u64(digits).times_pow2(1074);
    double::make(false, double::round_ratio(&n, &power_of_ten(places as u128)))
}

/// Whether `c` is a decimal digit.
pub open spec fn is_digit(c: char) -> bool {
    '0' <= c && c <= '9'
}

/// Whether `s` holds decimal digits only.
pub open spec fn all_digits(s: Seq<char>) -> bool {
    forall|i: int| 0 <= i < s.len() ==> is_digit(#[trigger] s[i])
}

/// The number that a row of decimal digits stands for.
pub open spec fn digits_value(s: Seq<char>) -> nat
    decreases s.len(),
{
    if s.len() == 0 {
        0
    } else {
        (digits_value(s.drop_last()) * 10 + (s.last() as int - 48)) as nat
    }
}

/// Where the exponent mark of a number stands: the first `e` of either case, or
/// the length of `s`.
pub open spec fn mark(s: Seq<char>) -> nat {
    text::find(text::ascii_lowercase(s), 'e')
}

/// The digits before the exponent mark, with the point left out.
pub open spec fn significand(s: Seq<char>) -> Seq<char> {
    let front = s.take(mark(s) as int);
    let point = text::find(front, '.') as int;
    if point < front.len() {
        front.take(point) + front.skip(point + 1)
    } else {
        front
    }
}

/// The number of digits between the point and the exponent mark.
pub open spec fn places(s: Seq<char>) -> nat {
    let front = s.take(mark(s) as int);
    let point = text::find(front, '.');
    if point < front.len() {
        (front.len() - point - 1) as nat
    } else {
        0
    }
}

/// Whether `s` starts with a sign.
pub open spec fn has_sign(s: Seq<char>) -> bool {
    s.len() > 0 && (s[0] == '-' || s[0] == '+')
}

/// Whether `s` starts with a minus sign.
pub open spec fn has_minus(s: Seq<char>) -> bool {
    s.len() > 0 && s[0] == '-'
}

/// `s` without the sign at its start.
pub open spec fn without_sign(s: Seq<char>) -> Seq<char> {
    if has_sign(s) {
        s.drop_first()
    } else {
        s
    }
}

/// Whether `s` is a number without a sign: digits, which may hold one point, and
/// an exponent, which may be missing.
pub open spec fn is_number(s: Seq<char>) -> bool {
    let exponent = without_sign(s.skip(mark(s) as int + 1));
    &&& significand(s).len() > 0
    &&& all_digits(significand(s))
    &&& mark(s) < s.len() ==> exponent.len() > 0 && all_digits(exponent)
}

/// The power of ten by which the significand of a number is multiplied.
pub open spec fn scale(s: Seq<char>) -> int {
    let tail = s.skip(mark(s) as int + 1);
    let exponent: int = if mark(s) == s.len() {
        0
    } else if has_minus(tail) {
        -(digits_value(without_sign(tail)) as int)
    } else {
        digits_value(without_sign(tail)) as int
    };
    exponent - places(s)
}

/// The magnitude nearest to `digits` times ten to the power of `exponent`.
pub open spec fn nearest_decimal(digits: nat, exponent: int) -> nat {
    if exponent >= 0 {
        double::nearest(digits * (pow(10, exponent as nat) as nat) * double::unit(), 1)
    } else {
        double::nearest(digits * double::unit(), pow(10, (-exponent) as nat) as nat)
    }
}

/// The number that `s` writes, where it writes one: the nearest there is to a
/// decimal number, an infinity or the value that is no number.
pub open spec fn parsed(s: Seq<char>) -> Option<Double> {
    let body = without_sign(s);
    let word = text::ascii_lowercase(body);
    if word == "inf"@ || word == "infinity"@ {
        Some(double::signed(has_minus(s), double::INFINITE as nat))
    } else if word == "nan"@ {
        Some(double::no_number())
    } else if is_number(body) {
        Some(
            double::signed(
                has_minus(s),
                nearest_decimal(digits_value(significand(body)), scale(body)),
            ),
        )
    } else {
        None
    }
}

/// The magnitude nearest to a decimal number is that of a number.
pub proof fn lemma_nearest_decimal(digits: nat, exponent: int)
    ensures
        nearest_decimal(digits, exponent) <= double::INFINITE,
{
    if exponent >= 0 {
        double::lemma_nearest_bound(
            digits * (pow(10, exponent as nat) as nat) * double::unit(),
            1,
        );
    } else {
        lemma_pow_positive(10, (-exponent) as nat);
        double::lemma_nearest_bound(
            digits * double::unit(),
            pow(10, (-exponent) as nat) as nat,
        );
    }
}

proof fn lemma_ten_power(k: nat)
    ensures
        pow(10, k) >= pow2(3 * k),
    decreases k,
{
    lemma_pow0(10);
    lemma2_to64();
    if k > 0 {
        lemma_ten_power((k - 1) as nat);
        reveal(pow);
        lemma_pow2_adds(3, (3 * (k - 1)) as nat);
        assert(3 * k == 3 + 3 * (k - 1));
    }
}

proof fn lemma_digits_bound(s: Seq<char>)
    requires
        all_digits(s),
    ensures
        digits_value(s) < pow(10, s.len()),
    decreases s.len(),
{
    lemma_pow0(10);
    if s.len() > 0 {
        assert(is_digit(s.last()));
        assert(all_digits(s.drop_last()));
        lemma_digits_bound(s.drop_last());
        reveal(pow);
    }
}

proof fn lemma_digits_at_least(s: Seq<char>)
    requires
        all_digits(s),
        s.len() > 0,
        s[0] != '0',
    ensures
        digits_value(s) >= pow(10, (s.len() - 1) as nat),
    decreases s.len(),
{
    lemma_pow0(10);
    assert(is_digit(s.last()));
    if s.len() > 1 {
        assert(all_digits(s.drop_last()));
        lemma_digits_at_least(s.drop_last());
        reveal(pow);
    }
}

proof fn lemma_leading_zeros(s: Seq<char>, k: nat)
    requires
        k <= s.len(),
        forall|i: int| 0 <= i < k ==> s[i] == '0',
    ensures
        digits_value(s) == digits_value(s.skip(k as int)),
    decreases s.len(),
{
    if s.len() > 0 {
        if k < s.len() {
            lemma_leading_zeros(s.drop_last(), k);
            assert(s.drop_last().skip(k as int) =~= s.skip(k as int).drop_last());
        } else {
            lemma_leading_zeros(s.drop_last(), (k - 1) as nat);
            assert(s.drop_last().skip((k - 1) as int) =~= seq![]);
            assert(s.skip(k as int) =~= seq![]);
        }
    } else {
        assert(s.skip(0) =~= s);
    }
}

/// A decimal number past the end of the scale is infinite.
proof fn lemma_overflow(digits: nat, count: nat, exponent: int)
    requires
        digits >= pow(10, count),
        count + exponent >= 342,
    ensures
        nearest_decimal(digits, exponent) == double::INFINITE,
{
    let u = double::unit();
    let end = double::units(double::INFINITE as nat);
    lemma_ten_power(342);
    lemma_pow2_adds(1026, 1074);
    lemma_pow2_strictly_increases(2098, 2100);
    lemma_pow2_pos(1074);
    lemma2_to64();
    lemma_pow2_adds(52, 2046);
    assert(double::INFINITE as nat / (double::STEP as nat) == 2047);
    assert(double::INFINITE as nat % (double::STEP as nat) == 0);
    assert(pow2(52) == double::STEP) by {
        lemma2_to64_rest();
    }
    assert(end == pow2(2098));
    lemma_pow_increases(10, 342, (count + exponent) as nat);
    lemma_pow_positive(10, 342);
    let t = pow(10, (count + exponent) as nat);
    assert(t * u >= end) by (nonlinear_arith)
        requires
            t >= pow2(1026),
            pow2(1026) * u == pow2(2100),
            pow2(2100) > end,
            u > 0,
    ;
    if exponent >= 0 {
        let e = pow(10, exponent as nat);
        lemma_pow_positive(10, exponent as nat);
        lemma_pow_adds(10, count, exponent as nat);
        assert(digits * e * u >= t * u) by (nonlinear_arith)
            requires
                digits >= pow(10, count),
                t == pow(10, count) * e,
                e > 0,
                u > 0,
        ;
        double::lemma_below_is(double::INFINITE as nat, digits * (e as nat) * u, 1);
    } else {
        let d = pow(10, (-exponent) as nat);
        lemma_pow_positive(10, (-exponent) as nat);
        lemma_pow_adds(10, (count + exponent) as nat, (-exponent) as nat);
        assert(count == (count + exponent) + (-exponent));
        assert(end * d <= digits * u) by (nonlinear_arith)
            requires
                digits >= t * d,
                t * u >= end,
                d > 0,
                u > 0,
        ;
        double::lemma_below_is(double::INFINITE as nat, digits * u, d as nat);
    }
}

/// A decimal number far below one unit is zero.
proof fn lemma_underflow(digits: nat, count: nat, exponent: int)
    requires
        digits < pow(10, count),
        count + exponent <= -359,
    ensures
        nearest_decimal(digits, exponent) == 0,
{
    let u = double::unit();
    let d = pow(10, (-exponent) as nat);
    let c = pow(10, count);
    lemma_ten_power(359);
    lemma_pow2_adds(3, 1074);
    lemma2_to64();
    lemma_pow2_pos(1074);
    lemma_pow_positive(10, count);
    lemma_pow_adds(10, count, 359);
    lemma_pow_increases(10, count + 359, (-exponent) as nat);
    let t = pow(10, 359);
    assert(2 * (digits * u) < d) by (nonlinear_arith)
        requires
            digits < c,
            d >= c * t,
            t >= 8 * u,
            u > 0,
            c > 0,
            digits >= 0,
    ;
    assert(double::units(0) == 0 && double::units(1) == 1);
    assert(0 * d == 0);
    assert(1 * d == d);
    double::lemma_below_is(0, digits * u, d as nat);
}

/// No digits at all make zero.
proof fn lemma_zero(exponent: int)
    ensures
        nearest_decimal(0, exponent) == 0,
{
    let d: nat = if exponent >= 0 {
        1
    } else {
        pow(10, (-exponent) as nat) as nat
    };
    if exponent < 0 {
        lemma_pow_positive(10, (-exponent) as nat);
    } else {
        let e = pow(10, exponent as nat) as nat;
        assert(0 * e * double::unit() == 0) by (nonlinear_arith);
    }
    assert(double::units(0) == 0 && double::units(1) == 1);
    assert(0 * d == 0);
    assert(1 * d == d);
    assert(0 * double::unit() == 0);
    double::lemma_below_is(0, 0, d);
}

/// The number of a row of digits.
fn digits_natural(s: &[char]) -> (r: Natural)
    requires
        all_digits(s@),
    ensures
        r@ == digits_value(s@),
{
    let mut out: Natural = Natural::from_u64(0);
    let mut i: usize = 0;
    while i < s.len()
        invariant
            i <= s.len(),
            all_digits(s@),
            out@ == digits_value(s@.take(i as int)),
        decreases s.len() - i,
    {
        assert(is_digit(s@[i as int]));
        out = out.mul_add(10, s[i] as u32 - 48);
        i = i + 1;
        assert(s@.take(i as int).drop_last() =~= s@.take(i - 1));
    }
    assert(s@.take(i as int) =~= s@);
    out
}

/// The number of a row of digits, or the cap where it is larger.
fn capped_value(s: &[char]) -> (r: u128)
    requires
        all_digits(s@),
    ensures
        r == (if digits_value(s@) < CAP {
            digits_value(s@)
        } else {
            CAP as nat
        }),
{
    let mut out: u128 = 0;
    let mut i: usize = 0;
    while i < s.len()
        invariant
            i <= s.len(),
            all_digits(s@),
            out == (if digits_value(s@.take(i as int)) < CAP {
                digits_value(s@.take(i as int))
            } else {
                CAP as nat
            }),
        decreases s.len() - i,
    {
        assert(is_digit(s@[i as int]));
        let next: u128 = out * 10 + (s[i] as u128 - 48);
        out = if next < CAP {
            next
        } else {
            CAP
        };
        i = i + 1;
        assert(s@.take(i as int).drop_last() =~= s@.take(i - 1));
    }
    assert(s@.take(i as int) =~= s@);
    out
}

/// More than the length of any text, by far.
const CAP: u128 = 1_000_000_000_000_000_000_000_000_000_000;

/// Ten to the power of `exponent`.
fn power_of_ten(exponent: u128) -> (r: Natural)
    ensures
        r@ == pow(10, exponent as nat),
{
    let mut out: Natural = Natural::from_u64(1);
    let mut i: u128 = 0;
    proof {
        lemma_pow0(10);
    }
    while i < exponent
        invariant
            i <= exponent,
            out@ == pow(10, i as nat),
        decreases exponent - i,
    {
        out = out.mul_add(10, 0);
        i = i + 1;
        proof {
            reveal(pow);
        }
    }
    out
}

fn check_digits(s: &[char]) -> (r: bool)
    ensures
        r == all_digits(s@),
{
    let mut i: usize = 0;
    while i < s.len()
        invariant
            i <= s.len(),
            forall|j: int| 0 <= j < i ==> is_digit(#[trigger] s@[j]),
        decreases s.len() - i,
    {
        let c: char = s[i];
        if !('0' <= c && c <= '9') {
            assert(!is_digit(s@[i as int]));
            return false;
        }
        i = i + 1;
    }
    true
}

/// The magnitude nearest to a decimal number whose exponent may be capped.
fn round_decimal(digits: &[char], exponent: i128, Ghost(exact): Ghost<int>) -> (r: u64)
    requires
        all_digits(digits@),
        exponent == exact || (exponent >= CAP - usize::MAX && exact >= exponent) || (exponent <= -CAP
            && exact <= exponent),
        -2 * CAP <= exponent <= CAP,
    ensures
        r == nearest_decimal(digits_value(digits@), exact),
        r <= double::INFINITE,
{
    let mut zeros: usize = 0;
    while zeros < digits.len() && digits[zeros] == '0'
        invariant
            zeros <= digits.len(),
            forall|i: int| 0 <= i < zeros ==> digits@[i] == '0',
        decreases digits.len() - zeros,
    {
        zeros = zeros + 1;
    }
    let count: usize = digits.len() - zeros;
    let ghost kept = digits@.skip(zeros as int);
    proof {
        lemma_leading_zeros(digits@, zeros as nat);
        lemma_digits_bound(kept);
        if count > 0 {
            lemma_digits_at_least(kept);
        }
    }
    if count == 0 {
        proof {
            lemma_zero(exact);
        }
        return 0;
    }
    if exponent + count as i128 > 342 {
        proof {
            lemma_overflow(digits_value(kept), (count - 1) as nat, exact);
        }
        return double::INFINITE;
    }
    if exponent + (count as i128) < -358 {
        proof {
            lemma_underflow(digits_value(kept), count as nat, exact);
        }
        return 0;
    }
    let n: Natural = digits_natural(digits);
    assert(exponent == exact);
    if exponent >= 0 {
        proof {
            lemma_pow_positive(10, exponent as nat);
        }
        let scaled: Natural = multiply(&n, exponent as usize);
        double::round_ratio(&scaled.times_pow2(1074), &Natural::from_u64(1))
    } else {
        let d: Natural = power_of_ten((-exponent) as u128);
        proof {
            lemma_pow_positive(10, (-exponent) as nat);
        }
        double::round_ratio(&n.times_pow2(1074), &d)
    }
}

/// `n` times ten to the power of `exponent`.
fn multiply(n: &Natural, exponent: usize) -> (r: Natural)
    ensures
        r@ == n@ * pow(10, exponent as nat),
{
    let mut out: Natural = n.mul_add(1, 0);
    let mut i: usize = 0;
    proof {
        lemma_pow0(10);
    }
    assert(n@ * 1 == n@);
    while i < exponent
        invariant
            i <= exponent,
            out@ == n@ * pow(10, i as nat),
        decreases exponent - i,
    {
        out = out.mul_add(10, 0);
        i = i + 1;
        proof {
            reveal(pow);
            let p = pow(10, (i - 1) as nat);
            let m = n@;
            assert((m * p) * 10 == m * (10 * p)) by (nonlinear_arith);
        }
    }
    out
}

/// `s` without the sign at its start.
fn strip_sign(s: &[char]) -> (r: Vec<char>)
    ensures
        r@ == without_sign(s@),
{
    if s.len() > 0 && (s[0] == '-' || s[0] == '+') {
        let out: Vec<char> = text::part(s, 1, s.len());
        assert(out@ =~= s@.drop_first());
        out
    } else {
        let out: Vec<char> = text::part(s, 0, s.len());
        assert(out@ =~= s@);
        out
    }
}

/// The number that `s` writes, where it writes one.
pub fn parse(s: &[char]) -> (r: Option<Double>)
    ensures
        r == parsed(s@),
{
    let minus: bool = s.len() > 0 && s[0] == '-';
    let body: Vec<char> = strip_sign(s);
    let word: Vec<char> = text::lowercase(body.as_slice());
    if text::is(word.as_slice(), "inf") || text::is(word.as_slice(), "infinity") {
        return Some(double::make(minus, double::INFINITE));
    }
    if text::is(word.as_slice(), "nan") {
        return Some(Double::from_bits(double::NAN_BITS));
    }
    let at: usize = text::find_from(word.as_slice(), 'e', 0);
    assert(word@.skip(0) =~= word@);
    let front: Vec<char> = text::part(body.as_slice(), 0, at);
    assert(front@ =~= body@.take(mark(body@) as int));
    let point: usize = text::find_from(front.as_slice(), '.', 0);
    assert(front@.skip(0) =~= front@);
    let digits: Vec<char>;
    let after: usize;
    if point < front.len() {
        let mut head: Vec<char> = text::part(front.as_slice(), 0, point);
        let mut tail: Vec<char> = text::part(front.as_slice(), point + 1, front.len());
        after = tail.len();
        head.append(&mut tail);
        digits = head;
        assert(digits@ =~= significand(body@));
    } else {
        after = 0;
        digits = front;
    }
    assert(digits@ == significand(body@));
    if digits.len() == 0 || !check_digits(digits.as_slice()) {
        return None;
    }
    let mut exponent: i128 = 0;
    if at < body.len() {
        let tail: Vec<char> = text::part(body.as_slice(), at + 1, body.len());
        assert(tail@ =~= body@.skip(mark(body@) as int + 1));
        let number: Vec<char> = strip_sign(tail.as_slice());
        if number.len() == 0 || !check_digits(number.as_slice()) {
            return None;
        }
        let size: u128 = capped_value(number.as_slice());
        if tail.len() > 0 && tail[0] == '-' {
            exponent = -(size as i128);
        } else {
            exponent = size as i128;
        }
    }
    exponent = exponent - after as i128;
    let magnitude: u64 = round_decimal(digits.as_slice(), exponent, Ghost(scale(body@)));
    Some(double::make(minus, magnitude))
}

/// The number of a magnitude times ten to the power of 1074, which is whole.
pub open spec fn scaled(magnitude: nat) -> nat {
    double::units(magnitude) * (pow(5, 1074) as nat)
}

/// Whether `digits` behind which `dropped` digits were dropped read back as the
/// magnitude.
pub open spec fn reads_back(digits: nat, dropped: nat, magnitude: nat) -> bool {
    nearest_decimal(digits, dropped - 1074) == magnitude
}

/// How many digits can be dropped, at most `most`: so many that those that are left,
/// or the next number of as many digits, still read back as the magnitude.
pub open spec fn droppable(magnitude: nat, most: nat) -> nat
    decreases most,
{
    let digits = scaled(magnitude) / (pow(10, most) as nat);
    if most == 0 || reads_back(digits, most, magnitude) || reads_back(digits + 1, most, magnitude) {
        most
    } else {
        droppable(magnitude, (most - 1) as nat)
    }
}

/// The number that stands for a magnitude when `dropped` digits are dropped: the
/// nearer of the two next to it that read back, the larger one of a tie.
pub open spec fn left_over(magnitude: nat, dropped: nat) -> nat {
    let power = pow(10, dropped) as nat;
    let low = scaled(magnitude) / power;
    let rest = scaled(magnitude) % power;
    if !reads_back(low + 1, dropped, magnitude) {
        low
    } else if reads_back(low, dropped, magnitude) && 2 * rest < power {
        low
    } else {
        low + 1
    }
}

/// `n` zeros.
pub open spec fn zeros(n: nat) -> Seq<char> {
    Seq::new(n, |i: int| '0')
}

/// The decimal number whose digits are `digits` and whose last digit counts ten to
/// the power of `exponent`.
pub open spec fn positional(digits: Seq<char>, exponent: int) -> Seq<char> {
    let point = digits.len() + exponent;
    if point <= 0 {
        "0."@ + zeros((-point) as nat) + digits
    } else if exponent < 0 {
        digits.take(point) + "."@ + digits.skip(point)
    } else {
        digits + zeros(exponent as nat)
    }
}

/// `n` times ten to the power of `exponent` in decimal, without zeros at the end
/// behind the point.
pub open spec fn plain(n: nat, exponent: int) -> Seq<char>
    decreases n,
{
    if n > 0 && n % 10 == 0 {
        plain(n / 10, exponent + 1)
    } else {
        positional(decimal(n), exponent)
    }
}

/// `x` in decimal, with as few digits as tell it from every other number.
pub open spec fn shortest(x: Double) -> Seq<char> {
    let sign = if x.negative() {
        seq!['-']
    } else {
        seq![]
    };
    if x.nan() {
        "NaN"@
    } else if x.infinite() {
        sign + "inf"@
    } else if x.zero() {
        sign + "0"@
    } else {
        let m = x.magnitude();
        let k = droppable(m, (decimal(scaled(m)).len() - 1) as nat);
        sign + plain(left_over(m, k), k - 1074)
    }
}

proof fn lemma_decimal(n: nat)
    ensures
        all_digits(decimal(n)),
        digits_value(decimal(n)) == n,
        decimal(n).len() > 0,
    decreases n,
{
    let s = decimal(n);
    if n < 10 {
        assert(s.drop_last() =~= seq![]);
        assert(digits_value(s.drop_last()) == 0);
        assert(s.last() as int == 48 + n);
    } else {
        lemma_decimal(n / 10);
        assert(s.drop_last() =~= decimal(n / 10));
        assert(s.last() as int == 48 + n % 10);
        assert forall|i: int| 0 <= i < s.len() implies is_digit(#[trigger] s[i]) by {
            if i < s.len() - 1 {
                assert(s[i] == decimal(n / 10)[i]);
            }
        }
    }
}

/// The first digits of a number are the number without the others.
proof fn lemma_front_digits(n: nat, k: nat)
    requires
        k < decimal(n).len(),
    ensures
        digits_value(decimal(n).take(decimal(n).len() - k)) == n / (pow(10, k) as nat),
        pow(10, k) > 0,
    decreases k,
{
    lemma_shed(n, k);
    lemma_decimal(n);
    if k == 0 {
        lemma_pow0(10);
        assert(decimal(n).take(decimal(n).len() as int) =~= decimal(n));
        assert(n / 1nat == n);
    } else {
        lemma_front_digits(n / 10, (k - 1) as nat);
        assert(decimal(n).take(decimal(n).len() - k) =~= decimal(n / 10).take(
            decimal(n / 10).len() - (k - 1),
        ));
    }
}

/// The number of `x` times ten to the power of 1074.
fn scaled_number(x: Double) -> (r: Natural)
    requires
        !x.nan(),
    ensures
        r@ == scaled(x.magnitude()),
{
    let mut out: Natural = x.natural();
    let ghost start = out@;
    let mut i: usize = 0;
    proof {
        lemma_pow0(5);
        assert(start * 1 == start);
    }
    while i < 179
        invariant
            i <= 179,
            out@ == start * pow(5, (6 * i) as nat),
        decreases 179 - i,
    {
        proof {
            lemma_pow_adds(5, (6 * i) as nat, 6);
            assert(pow(5, 6) == 15625) by {
                reveal(pow);
                reveal_with_fuel(pow, 7);
            }
            let p = pow(5, (6 * i) as nat);
            assert((start * p) * 15625 == start * (p * 15625)) by (nonlinear_arith);
        }
        out = out.mul_add(15625, 0);
        i = i + 1;
    }
    assert((6 * i) as nat == 1074nat);
    proof {
        lemma_pow_positive(5, 1074);
    }
    out
}

/// `n` zeros behind `s`.
fn add_zeros(s: &mut Vec<char>, n: u128)
    ensures
        final(s)@ == old(s)@ + zeros(n as nat),
{
    let mut i: u128 = 0;
    let ghost start = s@;
    assert(start + zeros(0) =~= start);
    while i < n
        invariant
            i <= n,
            s@ =~= start + zeros(i as nat),
        decreases n - i,
    {
        s.push('0');
        i = i + 1;
    }
}

fn positional_text(digits: &Vec<char>, exponent: i128) -> (r: Vec<char>)
    requires
        -CAP <= exponent <= CAP,
    ensures
        r@ == positional(digits@, exponent as int),
{
    let point: i128 = digits.len() as i128 + exponent;
    if point <= 0 {
        let mut out: Vec<char> = text::characters("0.");
        add_zeros(&mut out, (-point) as u128);
        text::add_all(&mut out, text::part(digits.as_slice(), 0, digits.len()));
        assert(digits@.subrange(0, digits@.len() as int) =~= digits@);
        out
    } else if exponent < 0 {
        let mut out: Vec<char> = text::part(digits.as_slice(), 0, point as usize);
        text::add(&mut out, ".");
        text::add_all(&mut out, text::part(digits.as_slice(), point as usize, digits.len()));
        assert(digits@.subrange(0, point as int) =~= digits@.take(point as int));
        assert(digits@.subrange(point as int, digits@.len() as int) =~= digits@.skip(point as int));
        out
    } else {
        let mut out: Vec<char> = text::part(digits.as_slice(), 0, digits.len());
        assert(digits@.subrange(0, digits@.len() as int) =~= digits@);
        add_zeros(&mut out, exponent as u128);
        out
    }
}

/// `n` times ten to the power of `exponent` in decimal.
fn plain_text(n: &Natural, exponent: i128) -> (r: Vec<char>)
    requires
        -2000 <= exponent <= usize::MAX,
    ensures
        r@ == plain(n@, exponent as int),
{
    let mut digits: Vec<char> = digits_of(n);
    let mut e: i128 = exponent;
    let ghost mut m = n@;
    let total: usize = digits.len();
    proof {
        lemma_decimal(n@);
    }
    assert(digits@.len() == total);
    while digits.len() > 1 && digits[digits.len() - 1] == '0'
        invariant
            digits@ == decimal(m),
            plain(n@, exponent as int) == plain(m, e as int),
            -2000 <= e,
            e + digits@.len() <= 2 * usize::MAX,
        decreases digits@.len(),
    {
        assert(m >= 10);
        assert(digits@.last() == digit(m % 10));
        digits.pop();
        assert(digits@ =~= decimal(m / 10));
        e = e + 1;
        proof {
            m = m / 10;
        }
    }
    assert(m > 0 && m % 10 == 0 ==> false) by {
        if m >= 10 {
            assert(digits@.last() == digit(m % 10));
            assert(digits@.len() > 1) by {
                lemma_decimal(m / 10);
            }
        }
    }
    positional_text(&digits, e)
}

/// `x` in decimal, with as few digits as tell it from every other number, as `{}`
/// writes it.
pub fn shortest_text(x: Double) -> (r: Vec<char>)
    ensures
        r@ == shortest(x),
{
    if x.is_nan() {
        return text::characters("NaN");
    }
    let mut out: Vec<char> = Vec::new();
    if x.is_negative() {
        out.push('-');
    }
    let ghost sign = out@;
    let size: u64 = if x.is_negative() {
        x.to_bits() - double::SIGN
    } else {
        x.to_bits()
    };
    let ghost m = x.magnitude();
    assert(size == m);
    if x.is_infinite() {
        text::add(&mut out, "inf");
        return out;
    }
    if size == 0 {
        text::add(&mut out, "0");
        return out;
    }
    let number: Natural = scaled_number(x);
    let digits: Vec<char> = digits_of(&number);
    proof {
        lemma_decimal(number@);
    }
    let mut k: usize = digits.len() - 1;
    loop
        invariant
            k < digits@.len(),
            digits@ == decimal(scaled(m)),
            all_digits(digits@),
            size == m,
            m < double::INFINITE,
            m == x.magnitude(),
            out@ == sign,
            !x.nan() && !x.infinite() && !x.zero(),
            sign == (if x.negative() {
                seq!['-']
            } else {
                seq![]
            }),
            droppable(m, (decimal(scaled(m)).len() - 1) as nat) == droppable(m, k as nat),
        decreases k,
    {
        let ghost power = pow(10, k as nat) as nat;
        let ghost low = scaled(m) / power;
        let ghost rest = scaled(m) % power;
        let front: Vec<char> = text::part(digits.as_slice(), 0, digits.len() - k);
        proof {
            assert(front@ =~= digits@.take(digits@.len() - k));
            lemma_front_digits(scaled(m), k as nat);
            assert(all_digits(front@)) by {
                assert forall|i: int| 0 <= i < front@.len() implies is_digit(#[trigger] front@[i]) by {
                    assert(is_digit(digits@[i]));
                }
            }
        }
        let lower: Natural = digits_natural(front.as_slice());
        let upper: Natural = lower.mul_add(1, 1);
        assert(lower@ * 1 == lower@);
        let exponent: i128 = k as i128 - 1074;
        let low_fits: bool = round_decimal(front.as_slice(), exponent, Ghost(exponent as int))
            == size;
        let high: Vec<char> = digits_of(&upper);
        proof {
            lemma_decimal(upper@);
        }
        let high_fits: bool = round_decimal(high.as_slice(), exponent, Ghost(exponent as int))
            == size;
        assert(low_fits == reads_back(low, k as nat, m));
        assert(high_fits == reads_back(low + 1, k as nat, m));
        if k == 0 || low_fits || high_fits {
            let below_half: bool = rest_below_half(&digits, k);
            proof {
                lemma_decimal(scaled(m));
            }
            assert(below_half == (2 * rest < power));
            if !high_fits || (low_fits && below_half) {
                text::add_all(&mut out, plain_text(&lower, exponent));
            } else {
                text::add_all(&mut out, plain_text(&upper, exponent));
            }
            return out;
        }
        k = k - 1;
    }
}

/// Whether the last `k` digits are less than half of what they could hold.
fn rest_below_half(digits: &Vec<char>, k: usize) -> (r: bool)
    requires
        k <= digits@.len(),
        all_digits(digits@),
    ensures
        r == (2 * (digits_value(digits@) % (pow(10, k as nat) as nat)) < pow(10, k as nat)),
{
    proof {
        lemma_back_digits(digits@, k as nat);
        lemma_pow_positive(10, k as nat);
    }
    let back: Vec<char> = text::part(digits.as_slice(), digits.len() - k, digits.len());
    assert(back@ =~= digits@.skip(digits@.len() - k));
    assert(all_digits(back@)) by {
        assert forall|i: int| 0 <= i < back@.len() implies is_digit(#[trigger] back@[i]) by {
            assert(is_digit(digits@[digits@.len() - k + i]));
        }
    }
    let rest: Natural = digits_natural(back.as_slice()).mul_add(2, 0);
    match rest.relation(&power_of_ten(k as u128)) {
        Relation::Less => true,
        _ => false,
    }
}

/// The last digits of a number are what is left of it beside the others.
proof fn lemma_back_digits(s: Seq<char>, k: nat)
    requires
        k <= s.len(),
        all_digits(s),
    ensures
        digits_value(s.skip(s.len() - k)) == digits_value(s) % (pow(10, k) as nat),
    decreases s.len(),
{
    lemma_pow_positive(10, k);
    lemma_pow0(10);
    if k == 0 {
        assert(s.skip(s.len() as int) =~= seq![]);
        assert(digits_value(s) % 1 == 0);
    } else {
        let front = s.drop_last();
        let last = s.last() as int - 48;
        assert(is_digit(s[s.len() - 1]));
        assert(all_digits(front)) by {
            assert forall|i: int| 0 <= i < front.len() implies is_digit(#[trigger] front[i]) by {
                assert(is_digit(s[i]));
            }
        }
        lemma_back_digits(front, (k - 1) as nat);
        assert(s.skip(s.len() - k).drop_last() =~= front.skip(front.len() - (k - 1)));
        assert(s.skip(s.len() - k).last() == s.last());
        let p = pow(10, (k - 1) as nat);
        lemma_pow_positive(10, (k - 1) as nat);
        assert(pow(10, k) == 10 * p) by {
            reveal(pow);
        }
        let v = digits_value(front) as int;
        let q = v / p;
        let r = v % p;
        vstd::arithmetic::div_mod::lemma_fundamental_div_mod(v, p);
        assert(0 <= r < p);
        assert(v * 10 + last == (10 * p) * q + (10 * r + last)) by (nonlinear_arith)
            requires
                v == p * q + r,
        ;
        vstd::arithmetic::div_mod::lemma_fundamental_div_mod_converse(
            v * 10 + last,
            10 * p,
            q,
            10 * r + last,
        );
    }
}

/// With all digits kept, a magnitude reads back.
proof fn lemma_all_digits_read_back(m: nat)
    requires
        m <= double::INFINITE,
    ensures
        reads_back(scaled(m), 0, m),
{
    let u = double::units(m);
    let five = pow(5, 1074);
    let two = double::unit();
    let ten = pow(10, 1074);
    lemma_pow_positive(5, 1074);
    lemma_pow_positive(10, 1074);
    lemma_pow2(1074);
    lemma_pow_distributes(5, 2, 1074);
    assert(five * two == ten);
    assert((u * five) * two == u * ten) by (nonlinear_arith)
        requires
            five * two == ten,
    ;
    double::law_nearest_is_exact(m, ten as nat);
}

/// The digits that are left over read back.
proof fn lemma_left_over_reads_back(m: nat, most: nat)
    requires
        m <= double::INFINITE,
    ensures
        reads_back(left_over(m, droppable(m, most)), droppable(m, most), m),
    decreases most,
{
    let power = pow(10, most) as nat;
    let low = scaled(m) / power;
    if most == 0 {
        lemma_pow0(10);
        lemma_all_digits_read_back(m);
        assert(scaled(m) / 1nat == scaled(m));
        assert(scaled(m) % 1nat == 0);
    } else if !reads_back(low, most, m) && !reads_back(low + 1, most, m) {
        lemma_left_over_reads_back(m, (most - 1) as nat);
    }
}

/// A zero at the end of the digits is worth one in the exponent.
proof fn lemma_zero_at_end(n: nat, exponent: int)
    requires
        n % 10 == 0,
    ensures
        nearest_decimal(n, exponent) == nearest_decimal(n / 10, exponent + 1),
{
    let h = n / 10;
    let u = double::unit();
    assert(n == 10 * h);
    if exponent >= 0 {
        let p = pow(10, exponent as nat);
        lemma_pow_positive(10, exponent as nat);
        assert(pow(10, (exponent + 1) as nat) == 10 * p) by {
            reveal(pow);
        }
        assert(n * p == h * (10 * p)) by (nonlinear_arith)
            requires
                n == 10 * h,
        ;
    } else {
        let p = pow(10, (-exponent) as nat);
        let q = pow(10, (-exponent - 1) as nat);
        lemma_pow_positive(10, (-exponent - 1) as nat);
        assert(p == 10 * q) by {
            reveal(pow);
        }
        assert(n * u == (h * u) * 10) by (nonlinear_arith)
            requires
                n == 10 * h,
        ;
        double::lemma_nearest_of_multiples(h * u, q as nat, 10);
        if exponent == -1 {
            lemma_pow0(10);
            assert(h * 1 == h);
        }
    }
}

/// Whether `s` is a number without a sign that reads as the magnitude.
spec fn reads_as(s: Seq<char>, magnitude: nat) -> bool {
    &&& s.len() > 0
    &&& is_digit(s[0])
    &&& is_number(s)
    &&& nearest_decimal(digits_value(significand(s)), scale(s)) == magnitude
}

proof fn lemma_zeros_behind(s: Seq<char>, n: nat)
    ensures
        digits_value(s + zeros(n)) == digits_value(s) * pow(10, n),
    decreases n,
{
    lemma_pow0(10);
    if n == 0 {
        assert(s + zeros(0) =~= s);
        assert(digits_value(s) * 1 == digits_value(s));
    } else {
        let t = s + zeros(n);
        lemma_zeros_behind(s, (n - 1) as nat);
        assert(t.drop_last() =~= s + zeros((n - 1) as nat));
        assert(t.last() == '0');
        let v = digits_value(s);
        let p = pow(10, (n - 1) as nat);
        assert(pow(10, n) == 10 * p) by {
            reveal(pow);
        }
        assert((v * p) * 10 == v * (10 * p)) by (nonlinear_arith);
    }
}

/// Digits and at most one point hold no exponent mark.
proof fn lemma_no_mark(s: Seq<char>)
    requires
        forall|i: int| 0 <= i < s.len() ==> is_digit(#[trigger] s[i]) || s[i] == '.',
    ensures
        mark(s) == s.len(),
        s.take(mark(s) as int) == s,
{
    let t = text::ascii_lowercase(s);
    assert forall|i: int| 0 <= i < t.len() implies t[i] != 'e' by {
        assert(is_digit(s[i]) || s[i] == '.');
    }
    text::lemma_find_is(t, 'e', t.len());
    assert(s.take(s.len() as int) =~= s);
}

/// Digits with a point between them read as the digits, with a smaller exponent.
proof fn lemma_pointed(front: Seq<char>, back: Seq<char>)
    requires
        all_digits(front),
        all_digits(back),
        front.len() > 0,
    ensures
        is_number(front + "."@ + back),
        significand(front + "."@ + back) == front + back,
        scale(front + "."@ + back) == -(back.len() as int),
{
    reveal_strlit(".");
    let s = front + "."@ + back;
    let n = front.len() as int;
    assert("."@.len() == 1 && "."@[0] == '.');
    assert forall|i: int| 0 <= i < s.len() implies is_digit(#[trigger] s[i]) || s[i] == '.' by {
        if i < n {
            assert(s[i] == front[i]);
        } else if i > n {
            assert(s[i] == back[i - n - 1]);
        }
    }
    lemma_no_mark(s);
    assert forall|i: int| 0 <= i < n implies s[i] != '.' by {
        assert(s[i] == front[i] && is_digit(front[i]));
    }
    assert(s[n] == '.');
    text::lemma_find_is(s, '.', n as nat);
    assert(s.take(n) =~= front);
    assert(s.skip(n + 1) =~= back);
    let all = front + back;
    assert forall|i: int| 0 <= i < all.len() implies is_digit(#[trigger] all[i]) by {
        if i < n {
            assert(all[i] == front[i]);
        } else {
            assert(all[i] == back[i - n]);
        }
    }
}

/// Digits read as the number that they stand for.
proof fn lemma_whole_digits(s: Seq<char>)
    requires
        all_digits(s),
        s.len() > 0,
    ensures
        is_number(s),
        significand(s) == s,
        scale(s) == 0,
{
    lemma_no_mark(s);
    assert forall|i: int| 0 <= i < s.len() implies s[i] != '.' by {
        assert(is_digit(s[i]));
    }
    text::lemma_find_is(s, '.', s.len());
}

proof fn lemma_positional(n: nat, exponent: int)
    ensures
        reads_as(positional(decimal(n), exponent), nearest_decimal(n, exponent)),
{
    let t = decimal(n);
    let point = t.len() + exponent;
    lemma_decimal(n);
    reveal_strlit(".");
    reveal_strlit("0.");
    assert("."@ =~= seq!['.']);
    assert("0."@ =~= seq!['0', '.']);
    if point <= 0 {
        let k = (-point) as nat;
        let front = seq!['0'];
        let back = zeros(k) + t;
        assert(positional(t, exponent) =~= front + "."@ + back);
        assert forall|i: int| 0 <= i < back.len() implies is_digit(#[trigger] back[i]) by {
            if i >= k {
                assert(back[i] == t[i - k]);
            }
        }
        lemma_pointed(front, back);
        lemma_leading_zeros(front + back, k + 1);
        assert((front + back).skip(k as int + 1) =~= t);
    } else if exponent < 0 {
        let front = t.take(point);
        let back = t.skip(point);
        assert forall|i: int| 0 <= i < front.len() implies is_digit(#[trigger] front[i]) by {
            assert(front[i] == t[i]);
        }
        assert forall|i: int| 0 <= i < back.len() implies is_digit(#[trigger] back[i]) by {
            assert(back[i] == t[point + i]);
        }
        lemma_pointed(front, back);
        assert(front + back =~= t);
        assert(is_digit(front[0]));
    } else {
        let k = exponent as nat;
        let s = t + zeros(k);
        assert forall|i: int| 0 <= i < s.len() implies is_digit(#[trigger] s[i]) by {
            if i < t.len() {
                assert(s[i] == t[i]);
            }
        }
        lemma_whole_digits(s);
        lemma_zeros_behind(t, k);
        let p = pow(10, k);
        lemma_pow_positive(10, k);
        lemma_pow0(10);
        assert((n * p) * 1 == n * p);
        assert(is_digit(s[0]));
    }
}

proof fn lemma_plain(n: nat, exponent: int)
    ensures
        reads_as(plain(n, exponent), nearest_decimal(n, exponent)),
    decreases n,
{
    if n > 0 && n % 10 == 0 {
        lemma_zero_at_end(n, exponent);
        lemma_plain(n / 10, exponent + 1);
    } else {
        lemma_positional(n, exponent);
    }
}

/// A number is its sign and its magnitude.
proof fn lemma_signed(x: Double)
    ensures
        double::signed(x.negative(), x.magnitude()) == x,
{
}

/// A number without a sign, and the same with a minus sign before it.
proof fn lemma_sign_before(s: Seq<char>, magnitude: nat)
    requires
        reads_as(s, magnitude),
    ensures
        parsed(s) == Some(double::signed(false, magnitude)),
        parsed(seq!['-'] + s) == Some(double::signed(true, magnitude)),
{
    let t = seq!['-'] + s;
    assert(t.drop_first() =~= s);
    reveal_strlit("inf");
    reveal_strlit("infinity");
    reveal_strlit("nan");
    let word = text::ascii_lowercase(s);
    assert(is_digit(s[0]));
    assert(word[0] == s[0]);
    assert("inf"@[0] == 'i' && "infinity"@[0] == 'i' && "nan"@[0] == 'n');
}

/// What is written for a number reads back as that number.
pub proof fn law_shortest_reads_back(x: Double)
    requires
        !x.nan(),
    ensures
        parsed(shortest(x)) == Some(x),
{
    let m = x.magnitude();
    lemma_signed(x);
    if x.infinite() {
        reveal_strlit("inf");
        let t = seq!['-'] + "inf"@;
        assert(t.drop_first() =~= "inf"@);
        assert(text::ascii_lowercase("inf"@) =~= "inf"@);
        assert(Seq::<char>::empty() + "inf"@ =~= "inf"@);
    } else if x.zero() {
        reveal_strlit("0");
        assert("0"@ =~= seq!['0']);
        lemma_whole_digits("0"@);
        assert(digits_value("0"@.drop_last()) == 0) by {
            assert("0"@.drop_last() =~= seq![]);
        }
        assert(digits_value("0"@) == 0);
        lemma_zero(0);
        assert(reads_as("0"@, 0));
        lemma_sign_before("0"@, 0);
        assert(Seq::<char>::empty() + "0"@ =~= "0"@);
    } else {
        let most = (decimal(scaled(m)).len() - 1) as nat;
        let k = droppable(m, most);
        lemma_decimal(scaled(m));
        lemma_left_over_reads_back(m, most);
        let body = plain(left_over(m, k), k - 1074);
        lemma_plain(left_over(m, k), k - 1074);
        lemma_sign_before(body, m);
        assert(Seq::<char>::empty() + body =~= body);
    }
}

} // verus!
