use render_diag::binary64::Binary64;
use render_diag::decimal::{left_justify, push_decimal, push_fixed, right_justify};

/// Significand and exponent of a normal, positive double.
fn parts(x: f64) -> (u64, i32) {
    let bits = x.to_bits();
    let exponent = ((bits >> 52) & 0x7ff) as i32;
    let fraction = bits & ((1u64 << 52) - 1);
    (fraction | (1u64 << 52), exponent - 1075)
}

fn double(x: Binary64) -> f64 {
    x.mantissa as f64 * 2f64.powi(x.exponent)
}

fn step(state: &mut u64) -> u64 {
    *state ^= *state << 13;
    *state ^= *state >> 7;
    *state ^= *state << 17;
    *state
}

#[test]
fn one_tenth_is_rounded_as_a_double() {
    let x = Binary64::from_ratio(1, 10);
    assert_eq!((x.mantissa, x.exponent), (7_205_759_403_792_794, -56));
    assert_eq!((x.mantissa, x.exponent), parts(0.1));
}

#[test]
fn zero_has_no_significand() {
    let x = Binary64::from_ratio(0, 7);
    assert_eq!((x.mantissa, x.exponent), (0, 0));
}

#[test]
fn ratios_agree_with_double_division() {
    let mut state: u64 = 0x1357_9bdf_0246_8ace;
    for _ in 0..50_000 {
        let a = step(&mut state) >> (11 + step(&mut state) % 53);
        let b = (step(&mut state) >> (11 + step(&mut state) % 53)).max(1);
        if a == 0 {
            continue;
        }
        let x = Binary64::from_ratio(a as u128, b as u128);
        assert_eq!((x.mantissa, x.exponent), parts(a as f64 / b as f64), "{} / {}", a, b);
    }
}

#[test]
fn integers_agree_with_conversion_to_double() {
    let mut state: u64 = 0x0f1e_2d3c_4b5a_6978;
    for _ in 0..50_000 {
        let n = (step(&mut state) >> (step(&mut state) % 64)).max(1);
        let x = Binary64::from_integer(n);
        assert_eq!((x.mantissa, x.exponent), parts(n as f64), "{}", n);
    }
    let x = Binary64::from_integer(u64::MAX);
    assert_eq!((x.mantissa, x.exponent), (1u64 << 52, 12));
}

#[test]
fn quotients_agree_with_double_division() {
    let mut state: u64 = 0x7777_1234_abcd_0001;
    for _ in 0..50_000 {
        let n = step(&mut state) % 1_000_000_000 + 1;
        let d = step(&mut state) % 5_000 + 1;
        let x = Binary64::from_ratio(n as u128, 1_000_000);
        let q = x.quotient(d);
        assert_eq!((q.mantissa, q.exponent), parts(double(x) / d as f64), "{} / {}", n, d);
    }
}

#[test]
fn sums_agree_with_double_addition() {
    let mut state: u64 = 0x4242_4242_1111_2222;
    for _ in 0..50_000 {
        let whole = (step(&mut state) >> (step(&mut state) % 64)).max(1);
        let n = step(&mut state) % 1_000_000_000 + 1;
        let x = Binary64::from_integer(whole);
        let y = Binary64::from_ratio(n as u128, 1_000_000_000);
        let z = x.sum(&y);
        let expected = parts(double(x) + double(y));
        assert_eq!((z.mantissa, z.exponent), expected, "{} + {}e-9", whole, n);
        let w = y.sum(&x);
        assert_eq!((w.mantissa, w.exponent), expected);
    }
}

#[test]
fn sum_with_zero_is_the_other_operand() {
    let zero = Binary64::from_ratio(0, 1);
    let x = Binary64::from_ratio(1, 3);
    let a = zero.sum(&x);
    let b = x.sum(&zero);
    assert_eq!((a.mantissa, a.exponent), (x.mantissa, x.exponent));
    assert_eq!((b.mantissa, b.exponent), (x.mantissa, x.exponent));
    let c = zero.sum(&zero);
    assert_eq!((c.mantissa, c.exponent), (0, 0));
}

#[test]
fn scaled_rounds_ties_to_even() {
    let half = Binary64::from_ratio(1, 2);
    assert_eq!(half.scaled(1), 0);
    let three_halves = Binary64::from_ratio(3, 2);
    assert_eq!(three_halves.scaled(1), 2);
    let five_halves = Binary64::from_ratio(5, 2);
    assert_eq!(five_halves.scaled(1), 2);
    assert_eq!(five_halves.scaled(10), 25);
    let eighth = Binary64::from_ratio(1, 8);
    assert_eq!(eighth.scaled(100), 12);
    let three_eighths = Binary64::from_ratio(3, 8);
    assert_eq!(three_eighths.scaled(100), 38);
}

#[test]
fn scaled_of_large_and_tiny_values() {
    let big = Binary64::from_integer(u64::MAX);
    assert_eq!(big.scaled(10), 184_467_440_737_095_516_160);
    let tiny = Binary64 { mantissa: 1u64 << 52, exponent: -200 };
    assert_eq!(tiny.scaled(1000), 0);
}

#[test]
fn decimal_numerals() {
    let mut out = String::from("n=");
    push_decimal(&mut out, 0);
    out.push(',');
    push_decimal(&mut out, 9);
    out.push(',');
    push_decimal(&mut out, 10);
    out.push(',');
    push_decimal(&mut out, 1_234_567_890);
    out.push(',');
    push_decimal(&mut out, u128::MAX);
    assert_eq!(out, "n=0,9,10,1234567890,340282366920938463463374607431768211455");
}

#[test]
fn fixed_point_numerals() {
    let mut out = String::new();
    push_fixed(&mut out, 1234, 0);
    out.push(' ');
    push_fixed(&mut out, 1234, 1);
    out.push(' ');
    push_fixed(&mut out, 1234, 2);
    out.push(' ');
    push_fixed(&mut out, 5, 2);
    out.push(' ');
    push_fixed(&mut out, 0, 1);
    out.push(' ');
    push_fixed(&mut out, 1_000_007, 6);
    assert_eq!(out, "1234 123.4 12.34 0.05 0.0 1.000007");
}

#[test]
fn justification_pads_to_the_width_and_no_further() {
    assert_eq!(left_justify("ab", 4), "ab  ");
    assert_eq!(right_justify("ab", 4), "  ab");
    assert_eq!(left_justify("abcde", 4), "abcde");
    assert_eq!(right_justify("abcde", 4), "abcde");
    assert_eq!(left_justify("", 2), "  ");
    assert_eq!(right_justify("µs", 3), " µs");
    assert_eq!(left_justify("abcd", 4), "abcd");
}
