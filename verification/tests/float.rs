use casparcg_timecode::decimal::{decimal_text, parse_unsigned, two_digit_text, IntError};
use casparcg_timecode::float::{Float32, Float64};
use casparcg_timecode::float_text::{parse_number, write_tenths};
use casparcg_timecode::natural::Natural;

fn single(x: f32) -> Float32 {
    Float32 { bits: x.to_bits() }
}

fn double(x: f64) -> Float64 {
    Float64 { bits: x.to_bits() }
}

/// Whether a result encodes the same number as a machine number, or is not a number as well.
fn agrees(result: Float32, expected: f32) -> bool {
    if expected.is_nan() {
        f32::from_bits(result.bits).is_nan()
    } else {
        result.bits == expected.to_bits()
    }
}

fn agrees_double(result: Float64, expected: f64) -> bool {
    if expected.is_nan() {
        f64::from_bits(result.bits).is_nan()
    } else {
        result.bits == expected.to_bits()
    }
}

/// Numbers of every kind, and pseudo-random ones.
fn samples() -> Vec<f32> {
    let mut all = vec![
        0.0,
        -0.0,
        1.0,
        -1.0,
        0.5,
        1.5,
        2.5,
        0.1,
        25.0,
        29.97,
        30000.0,
        1001.0,
        48000.0,
        16777216.0,
        16777217.0,
        4294967040.0,
        4294967296.0,
        1e10,
        3.4028235e38,
        -3.4028235e38,
        1.1754944e-38,
        1.1754942e-38,
        1e-45,
        -1e-45,
        f32::INFINITY,
        f32::NEG_INFINITY,
        f32::NAN,
    ];
    let mut state: u32 = 12345;
    for _ in 0..40 {
        state = state.wrapping_mul(1664525).wrapping_add(1013904223);
        all.push(f32::from_bits(state));
        state = state.wrapping_mul(1664525).wrapping_add(1013904223);
        all.push((state >> 8) as f32 / 1000.0);
    }
    all
}

#[test]
fn single_precision_arithmetic_is_exactly_rounded() {
    for a in samples() {
        for b in samples() {
            let (x, y) = (single(a), single(b));
            assert!(agrees(x.times(&y), a * b), "{a} * {b}");
            assert!(agrees(x.divided_by(&y), a / b), "{a} / {b}");
            assert_eq!(x.less_than(&y), a < b, "{a} < {b}");
        }
    }
}

#[test]
fn single_precision_casts() {
    for a in samples() {
        let x = single(a);
        assert_eq!(x.to_u32(), a as u32, "{a}");
        assert_eq!(x.round_to_u32(), a.round() as u32, "{a}");
        assert_eq!(x.to_i16(), a as i16, "{a}");
        assert_eq!(x.is_zero(), a == 0.0, "{a}");
        assert!(agrees_double(x.widen(), a as f64), "{a}");
    }
    for n in [0, 1, 25, 89992, 16777217, 16777219, 4294967295u32] {
        assert!(agrees(Float32::from_u32(n), n as f32), "{n}");
        assert!(agrees_double(Float64::from_u32(n), n as f64), "{n}");
    }
    for n in [0, 1, -1, 32767, -32768, 12345i16] {
        assert!(agrees(Float32::from_i16(n), n as f32), "{n}");
    }
}

#[test]
fn double_precision_arithmetic_is_exactly_rounded() {
    for a in samples() {
        for b in samples() {
            let (a, b) = (a as f64 * 1.0000000001, b as f64 / 3.0);
            let (x, y) = (double(a), double(b));
            assert!(agrees_double(x.plus(&y), a + b), "{a} + {b}");
            assert!(agrees_double(x.divided_by(&y), a / b), "{a} / {b}");
            assert_eq!(x.less_than(&y), a < b, "{a} < {b}");
        }
    }
}

#[test]
fn double_precision_is_rounded_up() {
    let mut values: Vec<f64> = samples().iter().map(|x| *x as f64).collect();
    for exponent in [-1074, -1073, -1022, -60, -54, -53, -52, -1, 0, 1, 30, 51, 52, 53, 54, 1023] {
        let power = 2f64.powi(exponent / 2) * 2f64.powi(exponent - exponent / 2);
        for factor in [1.0, 1.5, 1.0 + f64::EPSILON, 2.0 - f64::EPSILON] {
            values.push(power * factor);
        }
    }
    values.extend([f64::NAN, f64::INFINITY, f64::MAX, 0.0, 3602.4, 3602.0, 0.1]);
    for x in values {
        for x in [x, -x] {
            assert!(agrees_double(double(x).ceil(), x.ceil()), "{x:e}");
        }
    }
}

#[test]
fn special_numbers() {
    assert!(agrees(Float32::infinite(false), f32::INFINITY));
    assert!(agrees(Float32::infinite(true), f32::NEG_INFINITY));
    assert!(agrees(Float32::nan(), f32::NAN));
}

#[test]
fn numbers_are_read_as_the_nearest_ones() {
    let texts = [
        "0", "-0", "+0", "1", "25", "29.97", "59.94", "1.", ".5", "-.5e1", "1e3", "1E+3", "1e-3",
        "0.1", "16777217", "16777219", "3.4028235e38", "3.4028236e38", "1e39", "1e-45", "7e-46",
        "1e-46", "1e400", "1e-400", "0e999999999", "123456789012345678901234567890",
        "0.000000000000000000000000000000000000011754942", "inf", "-inf", "INFINITY", "+Infinity",
        "nan", "NaN", "-nan", "", "+", "-", ".", "e5", "1e", "1e+", "1 ", " 1", "0x10", "1_000",
        "infi", "INVALID", "1.2.3", "--1", "\u{661}", "1.00000017881393432617187499",
        "1.00000017881393432617187500", "1.00000017881393432617187501",
    ];
    for text in texts {
        let read = parse_number(&text.chars().collect());
        match text.parse::<f32>() {
            Ok(expected) => match read {
                Some(value) => assert!(agrees(value, expected), "{text}"),
                None => panic!("{text} was not read"),
            },
            Err(_) => assert!(read.is_none(), "{text}"),
        }
    }
}

#[test]
fn tenths_are_written_as_the_nearest_ones() {
    let numbers = [
        0.0, -0.0, 0.05, 0.15, 0.25, 0.35, 0.75, 1.0, 2.45, 3600.0, 3602.5, 9.95, 9.949, 123456.78,
        1e22, 1e300, 5e-324, -0.04, -7.25, 933555.96, f64::INFINITY, f64::NEG_INFINITY, f64::NAN,
    ];
    for number in numbers {
        assert_eq!(write_tenths(&double(number)), format!("{number:.1}"), "{number}");
    }
}

#[test]
fn natural_numbers_divide() {
    let a = Natural::from_u64(1_000_000_007).shifted(70);
    let (q, r) = a.div_rem(&Natural::from_u64(10));
    let expected = 1_000_000_007u128 << 70;
    assert!(!q.less_than(&Natural::from_u64(7)));
    let back = q.mul_add(10, 0).plus(&r);
    assert!(!back.less_than(&a) && !a.less_than(&back));
    assert!(!r.less_than(&Natural::from_u64((expected % 10) as u64)));
    assert!(r.less_than(&Natural::from_u64((expected % 10) as u64 + 1)));
}

#[test]
fn whole_numbers_are_read_back() {
    for n in [0, 7, 10, 255, 4294967295u32] {
        let text = decimal_text(n as u64);
        assert_eq!(text, n.to_string());
        assert_eq!(parse_unsigned(&text.chars().collect(), u32::MAX), Ok(n));
    }
    assert_eq!(two_digit_text(5), "05");
    assert_eq!(two_digit_text(125), "125");
}

#[test]
fn whole_numbers_that_cannot_be_read() {
    let read = |text: &str, max: u32| parse_unsigned(&text.chars().collect(), max);
    assert_eq!(read("", 255), Err(IntError::Empty));
    assert_eq!(read("+", 255), Err(IntError::InvalidDigit));
    assert_eq!(read("-1", 255), Err(IntError::InvalidDigit));
    assert_eq!(read("1x", 255), Err(IntError::InvalidDigit));
    assert_eq!(read("256", 255), Err(IntError::TooLarge));
    assert_eq!(read("999x", 255), Err(IntError::TooLarge));
    assert_eq!(read("+255", 255), Ok(255));
    assert_eq!(read("4294967296", u32::MAX), Err(IntError::TooLarge));
    for text in ["", "+", "-1", "1x", "256", "999x"] {
        let error = read(text, 255).unwrap_err();
        assert_eq!(error.message(), text.parse::<u8>().unwrap_err().to_string());
    }
}

#[test]
fn natural_numbers_count_their_digits() {
    assert_eq!(Natural::from_u64(0).bit_length(), None);
    assert_eq!(Natural::from_u64(0).shifted(1074).bit_length(), None);
    assert_eq!(Natural::from_u64(1).bit_length(), Some(1));
    assert_eq!(Natural::from_u64(0xffff_ffff).bit_length(), Some(32));
    assert_eq!(Natural::from_u64(0x1_0000_0000).bit_length(), Some(33));
    assert_eq!(Natural::from_u64(5).shifted(1074).bit_length(), Some(1077));
}
