use num_traits::Float;
use size::{parse, Double, Error, Lexer, ScanError, Size, Unit};

fn double(x: f64) -> Double {
    let (mantissa, exponent, sign) = x.integer_decode();
    Double::new(mantissa, exponent, sign)
}

/// Two to the power `e`, for the exponents that doubles have.
fn power(e: i32) -> f64 {
    if e > 1023 {
        f64::INFINITY
    } else if e >= -1022 {
        f64::from_bits(((e + 1023) as u64) << 52)
    } else {
        f64::from_bits(1u64 << (e + 1074))
    }
}

/// The double that the hardware makes of a mantissa, an exponent and a sign.
fn hardware(d: &Double) -> f64 {
    let size = if d.exponent > 900 {
        (d.mantissa as f64) * power(900) * power(d.exponent as i32 - 900)
    } else {
        (d.mantissa as f64) * power(d.exponent as i32)
    };
    if d.sign < 0 {
        -size
    } else {
        size
    }
}

fn next(state: &mut u64) -> u64 {
    *state ^= *state << 13;
    *state ^= *state >> 7;
    *state ^= *state << 17;
    *state
}

fn digits(state: &mut u64, count: u64) -> String {
    let mut out = String::new();
    for _ in 0..count {
        out.push((b'0' + (next(state) % 10) as u8) as char);
    }
    out
}

fn read(text: &str) -> f64 {
    let size = Size::<Double>::from_str(text).unwrap();
    hardware(size.magnitude())
}

#[test]
fn size_from_str() {
    let size = Size::<Double>::from_str("200");
    assert_eq!(size.unwrap(), Size::Bytes(200));

    let size = Size::<Double>::from_str("200 bytes");
    assert_eq!(size.unwrap(), Size::Bytes(200));

    let size = Size::<Double>::from_str("200 KiB");
    assert_eq!(size.unwrap(), Size::Kibibytes(200));

    let size = Size::<Double>::from_str("2.50 MiB");
    assert_eq!(size.unwrap(), Size::Kibibytes(2560));

    let size = Size::<Double>::from_str("2G");
    assert_eq!(size.unwrap(), Size::Gigabytes(2));

    let size = Size::<Double>::from_str("~");
    assert_eq!(format!("{:?}", size.err().unwrap()), "TokenError(Unmatch)");

    let size = Size::<Double>::from_str("4.06 EiB").unwrap();
    assert_eq!(size, Size::Bytes::<i64>(4680861308703798272));
}

#[test]
fn parse_errors() {
    assert_eq!(parse("~").err(), Some(ScanError::TokenError(Error::Unmatch)));
    assert_eq!(parse("200 XX").err(), Some(ScanError::TokenError(Error::Unmatch)));
    assert_eq!(parse("200 KiB extra").err(), Some(ScanError::TrailingError));
    assert_eq!(parse("").err(), Some(ScanError::TokenError(Error::EOF)));
    assert_eq!(parse("   ").err(), Some(ScanError::TokenError(Error::EOF)));
    assert_eq!(parse("KiB").err(), Some(ScanError::NumberError));
    assert_eq!(parse(" bytes 5").err(), Some(ScanError::NumberError));
    assert_eq!(parse("XX 5").err(), Some(ScanError::TokenError(Error::Unmatch)));
    assert_eq!(parse("KiBs").err(), Some(ScanError::TokenError(Error::Unmatch)));
    assert_eq!(parse("-").err(), Some(ScanError::NumberError));
    assert_eq!(parse(".5").err(), Some(ScanError::NumberError));
    assert_eq!(parse("5. KiB").err(), Some(ScanError::NumberError));
    assert_eq!(parse("+ 5").err(), Some(ScanError::NumberError));
    assert_eq!(parse("1.2.3").err(), Some(ScanError::TokenError(Error::Unmatch)));
    assert_eq!(parse("200 ~").err(), Some(ScanError::TokenError(Error::Unmatch)));
    assert_eq!(parse("200 KiBs").err(), Some(ScanError::TokenError(Error::Unmatch)));
    assert_eq!(parse("200 Ki B").err(), Some(ScanError::TokenError(Error::Unmatch)));
    assert_eq!(parse("200 KiB 5").err(), Some(ScanError::TrailingError));
    assert_eq!(parse("200 \u{e9}").err(), Some(ScanError::TokenError(Error::Unmatch)));
}

#[test]
fn every_spelling_is_read() {
    let units = [
        Unit::Byte,
        Unit::Kibibyte,
        Unit::Kilobyte,
        Unit::Mebibyte,
        Unit::Megabyte,
        Unit::Gibibyte,
        Unit::Gigabyte,
        Unit::Tebibyte,
        Unit::Terabyte,
        Unit::Pebibyte,
        Unit::Petabyte,
        Unit::Exbibyte,
        Unit::Exabyte,
    ];
    for unit in units {
        let names = unit.text();
        let mut spellings = vec![
            names.0.to_string(),
            names.1.to_string(),
            names.2.to_string(),
            names.3.to_string(),
            format!("{}s", names.0),
            format!("{}s", names.1),
            names.1.to_uppercase(),
        ];
        if unit.is_decimal() {
            spellings.push(names.3[..1].to_string());
            spellings.push(names.2[..1].to_string());
        }
        for spelling in spellings {
            for text in [format!("3 {}", spelling), format!("3{}", spelling), format!(" 3\t{} \n", spelling)] {
                let size = parse(&text).unwrap();
                assert_eq!(size.unit(), unit, "{:?}", text);
                assert_eq!(size.bytes(), 3 * unit.multiplier(), "{:?}", text);
            }
        }
    }
    assert_eq!(parse("7").unwrap().unit(), Unit::Byte);
    assert_eq!(parse("-7 kb").unwrap().bytes(), 7000);
    assert!(parse("-7 kb").unwrap().magnitude().is_negative());
    assert!(!parse("+7 kb").unwrap().magnitude().is_negative());
}

#[test]
fn lexer_reads_token_by_token() {
    let mut lexer = Lexer::new("  12.5 MiB  ");
    let number = lexer.read_number().unwrap();
    assert_eq!(hardware(&number.nearest()), 12.5);
    assert_eq!(lexer.read_unit(), Ok(Unit::Mebibyte));
    assert_eq!(lexer.read_eof(), Ok(()));
    assert_eq!(lexer.read_unit(), Err(ScanError::TokenError(Error::EOF)));
    assert_eq!(lexer.read_number().err(), Some(ScanError::TokenError(Error::EOF)));

    let mut lexer = Lexer::new("12 rods");
    assert!(lexer.read_number().is_ok());
    assert_eq!(lexer.read_eof(), Err(ScanError::TrailingError));
    assert_eq!(lexer.read_unit(), Err(ScanError::TokenError(Error::Unmatch)));
}

#[test]
fn numbers_are_read_as_the_nearest_double() {
    for text in [
        "0",
        "0.0",
        "1",
        "0.1",
        "0.3",
        "2.5",
        "4.06",
        "9007199254740992",
        "9007199254740993",
        "9007199254740994",
        "9007199254740995",
        "9007199254740993.0000000000000000000000000000000000000000000001",
        "18446744073709551615",
        "18446744073709551616",
        "123456789012345678901234567890",
        "0.000000000000000000000000000000000000000123456789",
        "1.00000000000000011102230246251565404236316680908203125",
        "1.00000000000000011102230246251565404236316680908203124",
        "1.00000000000000011102230246251565404236316680908203126",
        "1.00000000000000033306690738754696212708950042724609375",
        "179769313486231570814527423731704356798070567525844996598917476803157260780028538760589558632766878171540458953514382464234321326889464182768467546703537516986049910576551282076245490090389328944075868508455133942304583236903222948165808559332123348274797826204144723168738177180919299881250404026184124858368",
        "179769313486231580793728971405303415079934132710037826936173778980444968292764750946649017977587207096330286416692887910946555547851940402630657488671505820681908902000708383676273854845817711531764475730270069855571366959622842914819860834936475292719074168444365510704342711559699508093042880177904174497791",
        "179769313486231580793728971405303415079934132710037826936173778980444968292764750946649017977587207096330286416692887910946555547851940402630657488671505820681908902000708383676273854845817711531764475730270069855571366959622842914819860834936475292719074168444365510704342711559699508093042880177904174497792",
    ] {
        assert_eq!(read(text).to_bits(), text.parse::<f64>().unwrap().to_bits(), "{}", text);
    }
    // a one behind rows of zeros, down to where doubles end
    for zeros in [0, 1, 5, 15, 16, 17, 22, 100, 300, 306, 307, 308, 320, 322, 323, 324, 330, 400] {
        for tail in ["1", "2", "25", "49", "5", "50000000000000001", "9999"] {
            let text = format!("0.{}{}", "0".repeat(zeros), tail);
            assert_eq!(read(&text).to_bits(), text.parse::<f64>().unwrap().to_bits(), "{}", text);
        }
    }
    // and before rows of zeros, up to where they end
    for zeros in [0, 10, 16, 17, 18, 19, 20, 37, 38, 39, 100, 290, 307, 308, 309, 400, 1200] {
        for head in ["1", "17", "179769313486231580", "9007199254740993", "99999999999999999999"] {
            let text = format!("{}{}", head, "0".repeat(zeros));
            assert_eq!(read(&text).to_bits(), text.parse::<f64>().unwrap().to_bits(), "{}", text);
            let text = format!("{}{}.5", head, "0".repeat(zeros));
            assert_eq!(read(&text).to_bits(), text.parse::<f64>().unwrap().to_bits(), "{}", text);
        }
    }
    let mut state = 0x0821_8e60_3f2a_91b7u64;
    for _ in 0..3000 {
        let before = next(&mut state) % 40 + 1;
        let behind = next(&mut state) % 40;
        let text = if behind == 0 {
            digits(&mut state, before)
        } else {
            format!("{}.{}", digits(&mut state, before), digits(&mut state, behind))
        };
        assert_eq!(read(&text).to_bits(), text.parse::<f64>().unwrap().to_bits(), "{}", text);
    }
}

#[test]
fn sizes_read_agree_with_hardware() {
    let mut state = 0x9e37_79b9_7f4a_7c15u64;
    for _ in 0..3000 {
        let before = next(&mut state) % 6 + 1;
        let behind = next(&mut state) % 4;
        let number = if behind == 0 {
            digits(&mut state, before)
        } else {
            format!("{}.{}", digits(&mut state, before), digits(&mut state, behind))
        };
        let x: f64 = number.parse().unwrap();
        for unit in ["", "b", "k", "kb", "kib", "MB", "MiB", "gigabytes", "Gibibyte", "TB", "tib", "PB", "PiB"] {
            let text = format!("{} {}", number, unit);
            let read = parse(&text).unwrap();
            let by_double = Size::from_unit(double(x), read.unit());
            assert_eq!(read.checked_bytes(), by_double.checked_bytes(), "{}", text);
            assert_eq!(
                Size::<Double>::from_str(&text).unwrap().checked_bytes(),
                by_double.checked_bytes(),
                "{}",
                text
            );
        }
    }
}
