use battery_core::decimal::{
    fixed_text, hexadecimal_text, integer_text, number, padded_text, parse, parse_natural,
    shortest_text,
};
use battery_core::natural::{Natural, Relation};
use battery_core::text::{
    characters, decode, is_space, lower_case, lowercase, replace, split_lines, split_words,
    string_of, trim,
};
use battery_core::Double;

fn d(x: f64) -> Double {
    Double::from_bits(x.to_bits())
}

/// Numbers of all sizes, from a simple generator, after a few odd ones.
fn samples(count: usize) -> Vec<f64> {
    let mut out = vec![
        0.0,
        -0.0,
        1.0,
        -1.0,
        0.1,
        0.5,
        1.5,
        2.5,
        1e23,
        5e-324,
        -5e-324,
        1e-323,
        2.2250738585072014e-308,
        2.225073858507201e-308,
        f64::MAX,
        f64::MIN,
        f64::MIN_POSITIVE,
        f64::INFINITY,
        f64::NEG_INFINITY,
        f64::NAN,
        9007199254740992.0,
        9007199254740993.0,
        1125899906842624.25,
        1125899906842624.75,
        4503599627370497.5,
        0.3,
        123456.789,
        1e21,
        1e-7,
        1e15,
        99.99,
        0.045,
        1.005,
    ];
    let mut seed: u64 = 0x9e37_79b9_7f4a_7c15;
    while out.len() < count {
        seed = seed.wrapping_mul(6364136223846793005).wrapping_add(1442695040888963407);
        let mut bits = seed ^ (seed >> 29);
        match out.len() % 4 {
            0 => {}
            // Of ordinary size.
            1 => bits = (bits & 0x800f_ffff_ffff_ffff) | ((1000 + bits % 50) << 52),
            // With few digits.
            2 => bits = (((bits >> 40) as f64) / 1000.0).to_bits(),
            // Whole.
            _ => bits = ((bits >> 20) as f64).to_bits(),
        }
        out.push(f64::from_bits(bits));
    }
    out
}

fn same(a: Double, b: f64) -> bool {
    let x = f64::from_bits(a.to_bits());
    if b.is_nan() {
        x.is_nan()
    } else {
        x.to_bits() == b.to_bits()
    }
}

#[test]
fn arithmetic_is_that_of_the_machine() {
    let v = samples(400);
    for i in 0..v.len() {
        let a = v[i];
        for k in [1, 7, 34] {
            let b = v[(i * 3 + k) % v.len()];
            assert!(same(d(a).plus(d(b)), a + b), "{a:e} + {b:e}");
            assert!(same(d(a).minus(d(b)), a - b), "{a:e} - {b:e}");
            assert!(same(d(a).times(d(b)), a * b), "{a:e} * {b:e}");
            assert!(same(d(a).over(d(b)), a / b), "{a:e} / {b:e}");
            assert_eq!(d(a).lt(d(b)), a < b);
            assert_eq!(d(a).le(d(b)), a <= b);
            assert_eq!(d(a) == d(b), a == b);
        }
    }
}

#[test]
fn rounding_is_that_of_the_machine() {
    for x in samples(800) {
        assert!(same(d(x).trunc(), x.trunc()), "{x:e}");
        assert!(same(d(x).fract(), x.fract()), "{x:e}");
        assert!(same(d(x).round(), x.round()), "{x:e}");
        assert!(same(d(x).negated(), -x), "{x:e}");
        assert_eq!(d(x).to_i64(), x as i64);
        assert_eq!(d(x).to_usize(), x as usize);
        assert_eq!(d(x).is_nan(), x.is_nan());
        assert_eq!(d(x).is_infinite(), x.is_infinite());
    }
    for n in [0, 1, -1, 35, i64::MAX, i64::MIN, i64::MAX - 513, 9007199254740993] {
        assert!(same(Double::from_i64(n), n as f64));
        assert!(same(Double::from_u64(n as u64), (n as u64) as f64));
    }
}

#[test]
fn fixed_places_are_those_of_the_formatter() {
    for x in samples(300) {
        for places in [0, 1, 2, 5] {
            let text: String = fixed_text(d(x), places).into_iter().collect();
            assert_eq!(text, format!("{:.*}", places as usize, x), "{x:e}");
        }
    }
}

#[test]
fn shortest_text_is_that_of_the_formatter() {
    for x in samples(300) {
        let text: String = shortest_text(d(x)).into_iter().collect();
        assert_eq!(text, format!("{x}"), "{x:e}");
    }
}

#[test]
fn shortest_text_reads_back() {
    for x in samples(120) {
        let text: Vec<char> = shortest_text(d(x));
        assert!(same(parse(&text).unwrap(), x), "{x:e}");
    }
}

#[test]
fn parsing_is_that_of_the_standard_library() {
    let mut texts: Vec<String> = [
        "", "+", "-", ".", "1.", ".5", "-.5", "+1", "1e5", "1E-5", "1e", "1e+", "e5", "1_0", " 1",
        "1 ", "inf", "-INF", "+Infinity", "infinit", "nan", "-nan", "NaN", "0x10", "1e400",
        "-1e400", "1e-400", "1e99999999999999999999999", "1e-99999999999999999999999",
        "0e99999999999999999999999", "00012.50", "1.2.3", "--1", "1e1.5", "123456789012345678901234567890",
        "9007199254740993", "9007199254740992.99999999999999999999999999999999999", "5e-324",
        "2.4703282292062327e-324", "2.4703282292062328e-324", "1.7976931348623158e308",
        "1.7976931348623159e308", "0.1", "1e23", "é", "1é", "٣",
    ]
    .iter()
    .map(|s| s.to_string())
    .collect();
    for x in samples(150) {
        texts.push(format!("{x}"));
        texts.push(format!("{x:e}"));
        texts.push(format!("{x:.3}"));
    }
    for t in texts {
        let got = parse(&t.chars().collect::<Vec<char>>());
        match t.parse::<f64>() {
            Ok(x) => assert!(same(got.unwrap(), x), "{t}"),
            Err(_) => assert!(got.is_none(), "{t}"),
        }
    }
}

#[test]
fn whole_numbers_as_text() {
    for n in [0, 7, -7, 10, 12345, i64::MAX, i64::MIN] {
        assert_eq!(integer_text(n).into_iter().collect::<String>(), format!("{n}"));
        assert_eq!(padded_text(n, 4).into_iter().collect::<String>(), format!("{n:04}"));
    }
    for n in [0u128, 15, 16, 255, u128::MAX, 1 << 100] {
        assert_eq!(hexadecimal_text(n).into_iter().collect::<String>(), format!("{n:x}"));
    }
    for t in ["0", "+7", "-7", "", "+", "18446744073709551615", "18446744073709551616", "1a", "٣"] {
        assert_eq!(parse_natural(&t.chars().collect::<Vec<char>>()), t.parse::<u64>().ok());
    }
    assert!(same(number(25, 1), 2.5));
    assert!(same(number(1, 2), 0.01));
    assert!(same(number(13, 1), 1.3));
}

#[test]
fn naturals() {
    let a = Natural::from_u64(u64::MAX);
    let b = a.mul_add(10, 7);
    assert_eq!(b.relation(&a), Relation::More);
    assert_eq!(a.relation(&b), Relation::Less);
    assert_eq!(a.relation(&a.plus(&Natural::from_u64(0))), Relation::Same);
    let (q, r) = b.div_rem(10);
    assert_eq!(q.to_u64(), Some(u64::MAX));
    assert_eq!(r, 7);
    assert_eq!(b.to_u64(), None);
    assert_eq!(b.minus(&b.minus(&a)).to_u64(), Some(u64::MAX));
    let (high, low) = a.times_pow2(40).split(1);
    assert_eq!(low.to_u64(), Some(0));
    assert_eq!(high.relation(&a.times(256)), Relation::Same);
    assert!(low.is_zero());
}

#[test]
fn every_white_space_character_is_known() {
    for code in 0..=0x10ffffu32 {
        if let Some(c) = char::from_u32(code) {
            assert_eq!(is_space(c), c.is_whitespace(), "{code:x}");
        }
    }
}

fn strings(v: Vec<Vec<char>>) -> Vec<String> {
    v.into_iter().map(|s| s.into_iter().collect()).collect()
}

#[test]
fn text_is_cut_as_the_standard_library_cuts_it() {
    for t in [
        "", "\n", "a", "a\n", "a\nb", "a\r\nb\r\n", "\r", "a\r", "\n\n", "  a  b\tc \n", "\u{a0}x\u{2003}",
        "é ü", "a\r\r\n", "ABC İ ß",
    ] {
        let c = characters(t);
        assert_eq!(strings(split_lines(&c)), t.lines().map(String::from).collect::<Vec<_>>());
        assert_eq!(
            strings(split_words(&c)),
            t.split_whitespace().map(String::from).collect::<Vec<_>>()
        );
        assert_eq!(string_of(&trim(&c)), t.trim());
        assert_eq!(string_of(&lowercase(&c)), t.to_ascii_lowercase());
        assert_eq!(string_of(&replace(&c, "a", "&a")), t.replace("a", "&a"));
    }
}

#[test]
fn text_is_lowered_and_decoded_as_the_standard_library_does() {
    for t in ["", "Process", "PROCESS 12", "ABC İ ß", "ΑΣ"] {
        assert_eq!(lower_case(t), t.to_lowercase());
        assert_eq!(decode(t.as_bytes()), t);
    }
    assert_eq!(lower_case("Process"), "process");
    assert_eq!(decode(b"a\xffb"), "a\u{fffd}b");
}

#[test]
fn whole_numbers_keep_their_value_and_order() {
    let whole: [i64; 7] = [i64::MIN, -9007199254740992, -1, 0, 1, 9007199254740992, i64::MAX];
    for pair in whole.windows(2) {
        assert!(Double::from_i64(pair[0]).le(Double::from_i64(pair[1])));
    }
    assert_eq!(Double::from_i64(-9007199254740991).to_i64(), -9007199254740991);
}
