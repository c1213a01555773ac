use num_traits::{Float, ToPrimitive};
use size::{render, Base, Double, Size, Style, Unit};

fn double(x: f64) -> Double {
    let (mantissa, exponent, sign) = x.integer_decode();
    Double::new(mantissa, exponent, sign)
}

fn units() -> Vec<Unit> {
    vec![
        Unit::Byte,
        Unit::Kibibyte,
        Unit::Kilobyte,
        Unit::Mebibyte,
        Unit::Megabyte,
        Unit::Gibibyte,
        Unit::Gigabyte,
        Unit::Tebibyte,
        Unit::Terabyte,
        Unit::Pebibyte,
        Unit::Petabyte,
        Unit::Exbibyte,
        Unit::Exabyte,
    ]
}

/// A small generator of scattered 64-bit patterns.
fn next(state: &mut u64) -> u64 {
    *state ^= *state << 13;
    *state ^= *state >> 7;
    *state ^= *state << 17;
    *state
}

/// What the hardware's doubles give for a magnitude in a unit.
fn by_hardware(x: f64, multiplier: u64) -> Option<u64> {
    let whole = x.to_u64();
    if x.fract() > f64::EPSILON || whole.is_none() {
        Some((x.abs() * multiplier as f64) as u64)
    } else {
        whole.unwrap().checked_mul(multiplier)
    }
}

#[test]
fn double_magnitudes_agree_with_hardware() {
    let mut state = 0x243f_6a88_85a3_08d3u64;
    let mut checked = 0;
    for round in 0..20000 {
        let bits = next(&mut state);
        // exponents around the range in which byte counts lie
        let exponent = 1023 - 70 + (next(&mut state) % 150);
        let pattern = (bits & 0x800f_ffff_ffff_ffff) | (exponent << 52);
        let mut x = f64::from_bits(pattern);
        if round % 3 == 0 {
            x = x.trunc();
        }
        for unit in units() {
            let expected = by_hardware(x, unit.multiplier());
            let got = Size::from_unit(double(x), unit).checked_bytes();
            assert_eq!(got, expected, "{:e} {:?}", x, unit);
            checked += 1;
        }
    }
    assert_eq!(checked, 260000);
    for x in [
        f64::INFINITY,
        f64::NEG_INFINITY,
        f64::NAN,
        -f64::NAN,
        f64::MAX,
        f64::MIN,
        f64::MIN_POSITIVE,
        f64::EPSILON,
        1.0 + f64::EPSILON,
        1.0 + 2.0 * f64::EPSILON,
        5e-324,
        0.0,
        -0.0,
        -0.5,
        -1.0,
        18446744073709551615.0,
        18446744073709549568.0,
    ] {
        for unit in units() {
            let expected = by_hardware(x, unit.multiplier());
            let got = Size::from_unit(double(x), unit).checked_bytes();
            assert_eq!(got, expected, "{:e} {:?}", x, unit);
        }
    }
}

#[test]
fn integer_magnitudes_agree_with_hardware() {
    let mut state = 0x1319_8a2e_0370_7344u64;
    for _ in 0..20000 {
        let x = (next(&mut state) >> (next(&mut state) % 64)) as i64;
        let x = if next(&mut state) % 2 == 0 { x } else { x.wrapping_neg() };
        for unit in units() {
            let expected = if x >= 0 {
                (x as u64).checked_mul(unit.multiplier())
            } else {
                Some(((x as f64).abs() * unit.multiplier() as f64) as u64)
            };
            let got = Size::from_unit(x, unit).checked_bytes();
            assert_eq!(got, expected, "{} {:?}", x, unit);
        }
    }
}

fn by_hardware_text(bytes: u64, multiplier: u64, precision: usize) -> String {
    if multiplier == 1 {
        format!("{}", bytes)
    } else {
        format!("{:.*}", precision, bytes as f64 / multiplier as f64)
    }
}

#[test]
fn rendered_numbers_agree_with_hardware() {
    let mut state = 0xa409_3822_299f_31d0u64;
    for _ in 0..40000 {
        let bytes = next(&mut state) >> (next(&mut state) % 64);
        for base in [Base::Base2, Base::Base10] {
            let text = render(bytes, &base, &Style::Abbreviated);
            let (number, unit_text) = text.split_once(' ').unwrap();
            let unit = units().into_iter().find(|u| u.text().3 == unit_text).unwrap();
            let precision = match number.find('.') {
                Some(at) => number.len() - at - 1,
                None => 0,
            };
            assert_eq!(number, by_hardware_text(bytes, unit.multiplier(), precision), "{}", bytes);
        }
    }
}

#[test]
fn decimal_ties_follow_the_double() {
    // 1015 / 1000 is a double just below 1.015, and 1025 / 1000 one just above 1.025
    assert_eq!(render(1015, &Base::Base10, &Style::Abbreviated), "1.01 KB");
    assert_eq!(render(1025, &Base::Base10, &Style::Abbreviated), format!("{:.2} KB", 1.025f64));
    // 1.125 is a double itself: the tie goes to the even digit
    assert_eq!(render(1152, &Base::Base2, &Style::Abbreviated), "1.12 KiB");
    assert_eq!(render(1408, &Base::Base2, &Style::Abbreviated), "1.38 KiB");
}

#[test]
fn products_and_quotients_agree_with_hardware() {
    let mut state = 0x3c6e_f372_fe94_f82bu64;
    for round in 0..20000 {
        let bytes = next(&mut state) >> (next(&mut state) % 64);
        let exponent = 1023 - 40 + (next(&mut state) % 80);
        let pattern = (next(&mut state) & 0x000f_ffff_ffff_ffff) | (exponent << 52);
        let mut k = f64::from_bits(pattern);
        if round % 4 == 0 {
            k = -k;
        }
        let size = Size::Bytes(bytes);
        let quotient = (bytes as f64 / k.abs()) as u64;
        assert_eq!(size.over(&double(k)).bytes(), quotient, "{} / {:e}", bytes, k);
        if k.fract() > f64::EPSILON || k <= -1.0 {
            let product = (bytes as f64 * k.abs()) as u64;
            assert_eq!(size.times(&double(k)).bytes(), product, "{} * {:e}", bytes, k);
        }
        let divisor = next(&mut state) >> (next(&mut state) % 64);
        let quotient = (bytes as f64 / divisor as f64) as u64;
        assert_eq!(size.over(&divisor).bytes(), quotient, "{} / {}", bytes, divisor);
    }
}

#[test]
fn size_bytes_b_i64_1() {
    assert_eq!(Size::Bytes::<i64>(792633534438178879).bytes(), 792633534438178879);
}

#[test]
fn size_bytes_mb_u64_1() {
    assert_eq!(Size::Kilobytes::<u64>(16172825064112138).bytes(), 16172825064112138000);
}
