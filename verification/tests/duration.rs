use render_diag::{format_duration, reading, Span, Unit};

fn span(secs: u64, nanos: u32) -> Span {
    Span::new(secs, nanos).unwrap()
}

fn text(secs: u64, nanos: u32) -> String {
    format_duration(span(secs, nanos))
}

/// The same quantity formatted in double precision.
fn in_double_precision(secs: u64, nanos: u32) -> String {
    let ms = f64::from(nanos) / 1_000_000.0;
    if secs > 0 {
        let secs = secs as f64 + ms / 1000.0;
        format!("{:<4.*} s", 1, secs)
    } else {
        let places = if ms >= 20.0 {
            0
        } else if ms >= 1.0 {
            1
        } else {
            let micros = f64::from(nanos) / 1000.0;
            let places = if micros >= 10.0 { 0 } else { 2 };
            return format!("{:>3.*} µs", places, micros);
        };
        format!("{:>3.*} ms", places, ms)
    }
}

fn next(state: &mut u64) -> u64 {
    *state ^= *state << 13;
    *state ^= *state >> 7;
    *state ^= *state << 17;
    *state
}

#[test]
fn span_new_carries_whole_seconds() {
    let d = Span::new(1, 2_500_000_000).unwrap();
    assert_eq!(d.as_secs(), 3);
    assert_eq!(d.subsec_nanos(), 500_000_000);
    assert_eq!(d.as_nanos(), 3_500_000_000);
}

#[test]
fn span_new_refuses_seconds_that_do_not_fit() {
    assert!(Span::new(u64::MAX, 1_000_000_000).is_none());
    assert!(Span::new(u64::MAX, 999_999_999).is_some());
    assert!(Span::new(u64::MAX - 4, u32::MAX).is_some());
    assert!(Span::new(u64::MAX - 3, u32::MAX).is_none());
}

#[test]
fn span_from_nanos_splits_and_bounds() {
    let d = Span::from_nanos(12_345_678_901).unwrap();
    assert_eq!(d.as_secs(), 12);
    assert_eq!(d.subsec_nanos(), 345_678_901);
    assert_eq!(d, span(12, 345_678_901));
    let end: u128 = 18_446_744_073_709_551_616_000_000_000;
    assert!(Span::from_nanos(end).is_none());
    assert_eq!(Span::from_nanos(end - 1).unwrap(), span(u64::MAX, 999_999_999));
}

#[test]
fn below_one_second_is_shown_in_milliseconds() {
    assert_eq!(text(0, 999_000_000), "999 ms");
    assert_eq!(reading(span(0, 999_000_000)).unit, Unit::Millis);
}

#[test]
fn one_second_is_shown_in_seconds() {
    assert_eq!(text(1, 0), "1.0  s");
    let r = reading(span(1, 0));
    assert_eq!(r.unit, Unit::Seconds);
    assert_eq!(r.places, 1);
    assert_eq!(r.scaled, 10);
}

#[test]
fn twenty_milliseconds_have_no_decimals() {
    assert_eq!(text(0, 20_000_000), " 20 ms");
    let r = reading(span(0, 20_000_000));
    assert_eq!((r.unit, r.places, r.scaled), (Unit::Millis, 0, 20));
}

#[test]
fn just_below_twenty_milliseconds_has_one_decimal() {
    assert_eq!(text(0, 19_999_000), "20.0 ms");
    let r = reading(span(0, 19_999_000));
    assert_eq!((r.unit, r.places, r.scaled), (Unit::Millis, 1, 200));
    assert_eq!(text(0, 19_949_999), "19.9 ms");
}

#[test]
fn ten_microseconds_have_no_decimals() {
    assert_eq!(text(0, 10_000), " 10 µs");
    let r = reading(span(0, 10_000));
    assert_eq!((r.unit, r.places, r.scaled), (Unit::Micros, 0, 10));
}

#[test]
fn just_below_ten_microseconds_has_two_decimals() {
    assert_eq!(text(0, 9_999), "10.00 µs");
    let r = reading(span(0, 9_999));
    assert_eq!((r.unit, r.places, r.scaled), (Unit::Micros, 2, 1000));
    assert_eq!(text(0, 9_994), "9.99 µs");
}

#[test]
fn one_millisecond_is_shown_in_milliseconds() {
    assert_eq!(text(0, 1_000_000), "1.0 ms");
    assert_eq!(text(0, 999_999), "1000 µs");
    assert_eq!(text(0, 999_499), "999 µs");
}

#[test]
fn zero_is_shown_in_microseconds() {
    assert_eq!(text(0, 0), "0.00 µs");
    assert_eq!(text(0, 1), "0.00 µs");
}

#[test]
fn microseconds_texts() {
    assert_eq!(text(0, 5), "0.01 µs");
    assert_eq!(text(0, 15), "0.01 µs");
    assert_eq!(text(0, 125), "0.12 µs");
    assert_eq!(text(0, 375), "0.38 µs");
    assert_eq!(text(0, 10_500), " 10 µs");
    assert_eq!(text(0, 11_500), " 12 µs");
    assert_eq!(text(0, 500_000), "500 µs");
}

#[test]
fn milliseconds_texts() {
    assert_eq!(text(0, 1_050_000), "1.1 ms");
    assert_eq!(text(0, 1_150_000), "1.1 ms");
    assert_eq!(text(0, 1_250_000), "1.2 ms");
    assert_eq!(text(0, 1_350_000), "1.4 ms");
    assert_eq!(text(0, 1_500_000), "1.5 ms");
    assert_eq!(text(0, 20_500_000), " 20 ms");
    assert_eq!(text(0, 21_500_000), " 22 ms");
    assert_eq!(text(0, 123_456_789), "123 ms");
    assert_eq!(text(0, 999_499_999), "999 ms");
    assert_eq!(text(0, 999_500_000), "1000 ms");
    assert_eq!(text(0, 999_999_999), "1000 ms");
}

#[test]
fn seconds_texts() {
    assert_eq!(text(1, 49_999_999), "1.0  s");
    assert_eq!(text(1, 50_000_000), "1.1  s");
    assert_eq!(text(1, 150_000_000), "1.1  s");
    assert_eq!(text(1, 250_000_000), "1.2  s");
    assert_eq!(text(2, 50_000_000), "2.0  s");
    assert_eq!(text(9, 950_000_000), "9.9  s");
    assert_eq!(text(9, 999_999_999), "10.0 s");
    assert_eq!(text(12, 345_000_000), "12.3 s");
    assert_eq!(text(59, 999_000_000), "60.0 s");
    assert_eq!(text(3600, 0), "3600.0 s");
}

#[test]
fn seconds_beyond_exact_range() {
    assert_eq!(text(16_777_216, 49_999_999), "16777216.1 s");
    assert_eq!(text(9_007_199_254_740_993, 0), "9007199254740992.0 s");
    assert_eq!(text(u64::MAX, 999_999_999), "18446744073709551616.0 s");
}

#[test]
fn every_text_below_twenty_microseconds_agrees_with_double_precision() {
    for nanos in 0..20_000u32 {
        assert_eq!(text(0, nanos), in_double_precision(0, nanos), "{} ns", nanos);
    }
}

#[test]
fn halfway_milliseconds_agree_with_double_precision() {
    let mut nanos: u32 = 1_050_000;
    while nanos < 20_000_000 {
        assert_eq!(text(0, nanos), in_double_precision(0, nanos), "{} ns", nanos);
        nanos += 100_000;
    }
    let mut nanos: u32 = 20_500_000;
    while nanos < 1_000_000_000 {
        assert_eq!(text(0, nanos), in_double_precision(0, nanos), "{} ns", nanos);
        nanos += 1_000_000;
    }
    let mut nanos: u32 = 10_500;
    while nanos < 1_000_000 {
        assert_eq!(text(0, nanos), in_double_precision(0, nanos), "{} ns", nanos);
        nanos += 1_000;
    }
}

#[test]
fn sampled_texts_below_one_second_agree_with_double_precision() {
    let mut state: u64 = 0x9e37_79b9_7f4a_7c15;
    for _ in 0..40_000 {
        let nanos = (next(&mut state) % 1_000_000_000) as u32;
        assert_eq!(text(0, nanos), in_double_precision(0, nanos), "{} ns", nanos);
    }
}

#[test]
fn sampled_texts_in_seconds_agree_with_double_precision() {
    let mut state: u64 = 0x2545_f491_4f6c_dd1d;
    for _ in 0..40_000 {
        let bits = next(&mut state) % 64 + 1;
        let secs = (next(&mut state) >> (64 - bits)).max(1);
        let nanos = match next(&mut state) % 5 {
            0 => (next(&mut state) % 10) as u32 * 100_000_000 + 50_000_000,
            1 => (next(&mut state) % 100) as u32,
            2 => 999_999_999 - (next(&mut state) % 100) as u32,
            3 => 0,
            _ => (next(&mut state) % 1_000_000_000) as u32,
        };
        assert_eq!(text(secs, nanos), in_double_precision(secs, nanos), "{} s {} ns", secs, nanos);
    }
}

#[test]
fn texts_at_the_edges_of_seconds_agree_with_double_precision() {
    let seconds: [u64; 12] = [
        1,
        2,
        9,
        99,
        1 << 24,
        (1 << 24) + 1,
        (1 << 53) - 1,
        1 << 53,
        (1 << 53) + 1,
        u64::MAX - 1024,
        u64::MAX - 1023,
        u64::MAX,
    ];
    let nanos: [u32; 8] =
        [0, 1, 49_999_999, 50_000_000, 50_000_001, 949_999_999, 950_000_000, 999_999_999];
    for s in seconds {
        for n in nanos {
            assert_eq!(text(s, n), in_double_precision(s, n), "{} s {} ns", s, n);
        }
    }
}

#[test]
fn every_text_follows_a_pattern() {
    let mut state: u64 = 0x0123_4567_89ab_cdef;
    for _ in 0..5_000 {
        let secs = if next(&mut state) % 2 == 0 { 0 } else { next(&mut state) % 100_000 };
        let nanos = (next(&mut state) % 1_000_000_000) as u32;
        let d = span(secs, nanos);
        let r = reading(d);
        let shown = format_duration(d);
        let (suffix, width) = match r.unit {
            Unit::Seconds => (" s", 4),
            Unit::Millis => (" ms", 3),
            Unit::Micros => (" µs", 3),
        };
        assert!(matches!(
            (r.unit, r.places),
            (Unit::Seconds, 1)
                | (Unit::Millis, 0)
                | (Unit::Millis, 1)
                | (Unit::Micros, 0)
                | (Unit::Micros, 2)
        ));
        assert!(shown.ends_with(suffix));
        let field = &shown[..shown.len() - suffix.len()];
        assert!(field.chars().count() >= width);
        let numeral = field.trim();
        let decimals = match numeral.find('.') {
            Some(at) => numeral.len() - at - 1,
            None => 0,
        };
        assert_eq!(decimals as u32, r.places);
        assert!(numeral.chars().all(|c| c.is_ascii_digit() || c == '.'));
    }
}
