use num_traits::Float;
use size::rule::{rule, select, RULES};
use size::{Base, Double, Size, Style, Unit};

fn double(x: f64) -> Double {
    let (mantissa, exponent, sign) = x.integer_decode();
    Double::new(mantissa, exponent, sign)
}

#[test]
fn unit_tests() {
    assert_eq!("200 bytes", Size::Bytes(200).display());
    assert_eq!("200 KiB", Size::Kibibytes(200).display());
    assert_eq!("2.00 MiB", Size::Kibibytes(2048).display());
}

#[test]
fn size_equality() {
    assert_eq!(
        Size::Bytes(200),
        Size::Bytes(200),
        "Testing equality of two identically-constructed sizes"
    );
    assert_eq!(
        Size::Mebibytes(2),
        Size::Kibibytes(2048),
        "Testing equality of two identical sizes expressed in different units"
    );
    assert_eq!(
        Size::Mebibytes(2u8),
        Size::Mebibytes(double(2f64)),
        "Testing equality of two identical sizes expressed in different types"
    );
}

#[test]
fn size_addition() {
    // as a reference...
    let size = &Size::Mebibytes(20) + &Size::Mebibytes(22);
    assert_eq!(size, Size::Mebibytes(42));

    // and not as a reference
    let size = Size::Mebibytes(20) + Size::Mebibytes(22);
    assert_eq!(size, Size::Mebibytes(42));
}

#[test]
fn primitive_multiplication() {
    let size = &Size::Gigabytes(12) * 7;
    assert_eq!(size.bytes(), 84000000000);
    let size = Size::Gigabytes(12) * 7;
    assert_eq!(size.bytes(), 84000000000);

    // and the other way around
    let size = 7 * Size::Gigabytes(12);
    assert_eq!(size.bytes(), 84000000000);

    // and with other types
    let size = &Size::Gigabytes(12) * double(7.0);
    assert_eq!(size.bytes(), 84000000000);
    let size = double(7.0) * Size::Gigabytes(12);
    assert_eq!(size.bytes(), 84000000000);
}

#[test]
fn primitive_division() {
    let size = &Size::Gigabytes(12) / double(13f64);
    assert_eq!(size.bytes(), 923076923);

    let size = Size::Gigabytes(double(12.0)) / 13;
    assert_eq!(size.bytes(), 923076923);
}

#[test]
fn render_in_every_style() {
    let size = Size::Kibibytes(2048);
    assert_eq!(size.to_string(Base::Base2, Style::Abbreviated), "2.00 MiB");
    assert_eq!(size.to_string(Base::Base2, Style::AbbreviatedLowerCase), "2.00 mib");
    assert_eq!(size.to_string(Base::Base2, Style::Full), "2.00 Mebibytes");
    assert_eq!(size.to_string(Base::Base2, Style::FullLowerCase), "2.00 mebibytes");
    assert_eq!(size.to_string(Base::Base2, Style::Smart), "2.00 MiB");
    assert_eq!(size.to_string(Base::Base10, Style::Smart), "2.10 MB");
    assert_eq!(Size::Bytes(200).to_string(Base::Base2, Style::Smart), "200 bytes");
    assert_eq!(Size::Bytes(200).to_string(Base::Base10, Style::Smart), "200 bytes");
    assert_eq!(Size::Bytes(200).to_string(Base::Base10, Style::FullLowerCase), "200 bytes");
    assert_eq!(Size::Kibibytes(200).to_string(Base::Base2, Style::Smart), "200 KiB");
    assert_eq!(Size::Kibibytes(2048).format(&Base::Base2, &Style::Smart), "2.00 MiB");
    assert_eq!(Size::Kibibytes(double(2047.5)).format(&Base::Base2, &Style::Smart), "2.00 MiB");
    assert_eq!(Size::Gigabytes(-3).format(&Base::Base10, &Style::Full), "3.00 Gigabytes");
}

#[test]
fn boundaries_belong_to_the_tier_above() {
    assert_eq!(size::render(999, &Base::Base10, &Style::Smart), "999 bytes");
    assert_eq!(size::render(1000, &Base::Base10, &Style::Smart), "1.00 KB");
    assert_eq!(size::render(1023, &Base::Base2, &Style::Smart), "1023 bytes");
    assert_eq!(size::render(1024, &Base::Base2, &Style::Smart), "1.00 KiB");
    assert_eq!(size::render(9999, &Base::Base10, &Style::Smart), "10.00 KB");
    assert_eq!(size::render(10000, &Base::Base10, &Style::Smart), "10.0 KB");
    assert_eq!(size::render(10239, &Base::Base2, &Style::Smart), "10.00 KiB");
    assert_eq!(size::render(10240, &Base::Base2, &Style::Smart), "10.0 KiB");
    assert_eq!(size::render(102400, &Base::Base2, &Style::Smart), "100 KiB");
    assert_eq!(size::render(1048575, &Base::Base2, &Style::Smart), "1024 KiB");
    assert_eq!(size::render(1048576, &Base::Base2, &Style::Smart), "1.00 MiB");
    assert_eq!(size::render(999_999, &Base::Base10, &Style::Smart), "1000 KB");
    assert_eq!(size::render(1_000_000, &Base::Base10, &Style::Smart), "1.00 MB");
    assert_eq!(size::render(0, &Base::Base2, &Style::Smart), "0 bytes");
    assert_eq!(size::render(0, &Base::Base10, &Style::Abbreviated), "0 B");
}

#[test]
fn the_largest_units_have_no_upper_bound() {
    assert_eq!(size::render(9_999_999_999_999_999_999, &Base::Base10, &Style::Smart), "10.00 EB");
    assert_eq!(size::render(10_000_000_000_000_000_000, &Base::Base10, &Style::Smart), "10.0 EB");
    assert_eq!(size::render(u64::MAX, &Base::Base10, &Style::Smart), "18.4 EB");
    assert_eq!(size::render(u64::MAX, &Base::Base2, &Style::Smart), "16.0 EiB");
    assert_eq!(size::render(u64::MAX - 1, &Base::Base2, &Style::Full), "16.0 Exbibytes");
    assert_eq!(size::render(1 << 60, &Base::Base2, &Style::Full), "1.00 Exbibyte");
}

#[test]
fn the_plural_goes_by_the_number_shown() {
    assert_eq!(size::render(1, &Base::Base2, &Style::Full), "1 Byte");
    assert_eq!(size::render(1, &Base::Base2, &Style::FullLowerCase), "1 byte");
    assert_eq!(size::render(1, &Base::Base2, &Style::Smart), "1 byte");
    assert_eq!(size::render(1, &Base::Base2, &Style::Abbreviated), "1 B");
    assert_eq!(size::render(1, &Base::Base2, &Style::AbbreviatedLowerCase), "1 b");
    assert_eq!(size::render(2, &Base::Base2, &Style::Full), "2 Bytes");
    assert_eq!(size::render(0, &Base::Base2, &Style::Full), "0 Bytes");
    assert_eq!(size::render(1024, &Base::Base2, &Style::Full), "1.00 Kibibyte");
    assert_eq!(size::render(1029, &Base::Base2, &Style::FullLowerCase), "1.00 kibibyte");
    assert_eq!(size::render(1030, &Base::Base2, &Style::Full), "1.01 Kibibytes");
    assert_eq!(size::render(1004, &Base::Base10, &Style::Full), "1.00 Kilobyte");
    assert_eq!(size::render(1006, &Base::Base10, &Style::Full), "1.01 Kilobytes");
    assert_eq!(size::render(1_000_000, &Base::Base10, &Style::Full), "1.00 Megabyte");
    assert_eq!(size::render(1024, &Base::Base2, &Style::Abbreviated), "1.00 KiB");
}

#[test]
fn unit_suffixes() {
    assert_eq!(Unit::Byte.format(true, &Style::Smart), " byte");
    assert_eq!(Unit::Byte.format(false, &Style::Smart), " bytes");
    assert_eq!(Unit::Gibibyte.format(false, &Style::Smart), " GiB");
    assert_eq!(Unit::Gibibyte.format(true, &Style::Full), " Gibibyte");
    assert_eq!(Unit::Gibibyte.format(false, &Style::Full), " Gibibytes");
    assert_eq!(Unit::Gibibyte.format(false, &Style::FullLowerCase), " gibibytes");
    assert_eq!(Unit::Gibibyte.format(false, &Style::AbbreviatedLowerCase), " gib");
    assert_eq!(Unit::Gibibyte.format(true, &Style::Abbreviated), " GiB");
    assert_eq!(Unit::Terabyte.text(), ("terabyte", "Terabyte", "tb", "TB"));
    assert_eq!(Unit::Pebibyte.text(), ("pebibyte", "Pebibyte", "pib", "PiB"));
    assert_eq!(Unit::Exabyte.multiplier(), 1_000_000_000_000_000_000);
    assert_eq!(Unit::Exbibyte.multiplier(), 1 << 60);
    assert_eq!(size::KiB, 1024);
    assert_eq!(size::GB, 1_000_000_000);
    assert_eq!(size::EXBIBYTE, 1 << 60);
    assert_eq!(size::PETABYTE, 1_000_000_000_000_000);
}

#[test]
fn rules_ascend() {
    for base in [Base::Base2, Base::Base10] {
        assert_eq!(rule(&base, 0).less_than, 0);
        assert_eq!(rule(&base, RULES - 1).less_than, u64::MAX);
        for index in 1..RULES {
            assert!(rule(&base, index - 1).less_than < rule(&base, index).less_than);
            let bound = rule(&base, index - 1).less_than;
            assert_eq!(select(bound, &base), index);
            if index > 1 {
                assert_eq!(select(bound - 1, &base), index - 1);
            }
        }
        assert_eq!(select(u64::MAX, &base), RULES - 1);
        assert_eq!(rule(&base, 1).unit, Unit::Byte);
    }
    assert_eq!(rule(&Base::Base10, 8).less_than, 10_000_000_000);
    assert_eq!(rule(&Base::Base10, 8).precision, 2);
    assert_eq!(rule(&Base::Base10, 8).unit, Unit::Gigabyte);
    assert_eq!(rule(&Base::Base2, 13).less_than, 1 << 50);
    assert_eq!(rule(&Base::Base2, 13).precision, 0);
    assert_eq!(rule(&Base::Base2, 13).unit, Unit::Tebibyte);
}

#[test]
fn magnitudes_of_every_kind() {
    assert_eq!(Size::Bytes(0).bytes(), 0);
    assert_eq!(Size::Exabytes(0u64).bytes(), 0);
    assert_eq!(Size::Exbibytes(double(0.0)).bytes(), 0);
    assert_eq!(Size::Kilobytes(-5).bytes(), 5000);
    assert_eq!(Size::Kibibytes(-5i8).bytes(), 5120);
    assert_eq!(Size::Bytes(-7i64).bytes(), 7);
    assert_eq!(Size::Kibibytes(double(0.5)).bytes(), 512);
    assert_eq!(Size::Kibibytes(double(-1.5)).bytes(), 1536);
    assert_eq!(Size::Kilobytes(double(-0.5)).bytes(), 0);
    assert_eq!(Size::Kilobytes(double(0.3)).bytes(), 300);
    assert_eq!(Size::Exabytes(18u64).bytes(), 18_000_000_000_000_000_000);
    assert_eq!(Size::Exabytes(19u64).checked_bytes(), None);
    assert_eq!(Size::Exabytes(double(19.5)).checked_bytes(), Some(u64::MAX));
    assert_eq!(Size::Bytes(double(f64::INFINITY)).checked_bytes(), Some(u64::MAX));
    assert_eq!(Size::Bytes(u64::MAX).bytes(), u64::MAX);
    assert_eq!(Size::Bytes(255u8).bytes(), 255);
    assert_eq!(Size::Mebibytes(65535u16).bytes(), 65535 << 20);
    assert_eq!(Size::Bytes(usize::MAX).bytes(), usize::MAX as u64);
    assert_eq!(Size::Bytes(isize::MIN).checked_bytes(), Some(1 << (isize::BITS - 1)));
    assert_eq!(size::normalize(Some(3), None, 1000), Some(3000));
    assert_eq!(size::normalize(None, None, 1000), Some(0));
    assert_eq!(size::normalize(Some(2), Some(double(2.5)), 1000), Some(2500));
    assert_eq!(size::normalize(None, Some(double(-3.0)), 1000), Some(3000));
    assert_eq!(size::normalize(Some(u64::MAX), None, 2), None);
}

#[test]
fn checked_operations_say_when_there_is_no_result() {
    let large = Size::Exabytes(19u64);
    let small = Size::Kilobytes(3);
    assert_eq!(large.checked_bytes(), None);
    assert_eq!(large.checked_to_string(Base::Base10, Style::Smart), None);
    assert_eq!(small.checked_to_string(Base::Base10, Style::Smart), Some("3.00 KB".to_string()));
    assert!(large.checked_plus(&small).is_none());
    assert!(small.checked_plus(&large).is_none());
    assert!(Size::Bytes(u64::MAX).checked_plus(&Size::Bytes(1)).is_none());
    assert_eq!(small.checked_plus(&small).unwrap().bytes(), 6000);
    assert!(large.checked_times(&1).is_none());
    assert!(Size::Exabytes(10).checked_times(&2).is_none());
    assert_eq!(small.checked_times(&2).unwrap().bytes(), 6000);
    assert_eq!(small.checked_times(&double(2.5)).unwrap().bytes(), 7500);
    assert_eq!(Size::Exabytes(10).checked_times(&double(2.5)).unwrap().bytes(), u64::MAX);
    assert!(large.checked_over(&2).is_none());
    assert_eq!(small.checked_over(&2).unwrap().bytes(), 1500);
    assert_eq!(small.checked_over(&double(0.5)).unwrap().bytes(), 6000);
    assert_eq!(size::ops::quotient(3000, &double(7.0)), 428);
}

#[test]
fn sizes_beyond_the_range_equal_nothing() {
    assert!(Size::Exabytes(19u64) != Size::Exabytes(19u64));
    assert!(Size::Exabytes(19u64) != Size::Bytes(u64::MAX));
    assert!(Size::Exabytes(18u64) == Size::Petabytes(18000));
    assert!(Size::Kilobytes(1) != Size::Kibibytes(1));
}

#[test]
fn arithmetic_laws_on_values() {
    let a = Size::Gigabytes(12);
    let b = Size::Kibibytes(3u64);
    assert_eq!((&a + &b).bytes(), a.bytes() + b.bytes());
    assert_eq!((&a * 7u64).bytes(), a.bytes() * 7);
    assert_eq!((&a * 0).bytes(), 0);
    assert_eq!((&a / 13u64).bytes(), a.bytes() / 13);
    assert_eq!((&a / 7).bytes(), a.bytes() / 7);
    assert_eq!((&a / 1).bytes(), a.bytes());
    assert_eq!((&a * double(0.5)).bytes(), 6_000_000_000);
    assert_eq!((&a * -2).bytes(), 24_000_000_000);
    assert_eq!((&a / double(0.5)).bytes(), 24_000_000_000);
    assert_eq!((&a / 0).bytes(), u64::MAX);
    assert_eq!((Size::Bytes(0) / 0).bytes(), 0);
    assert_eq!(a.plus(&b).bytes(), 12_000_003_072);
    assert_eq!(a.times(&3u8).bytes(), 36_000_000_000);
    assert_eq!(a.over(&3u8).bytes(), 4_000_000_000);
}

#[test]
fn sizes_come_back_from_their_text() {
    let styles = [
        Style::Abbreviated,
        Style::AbbreviatedLowerCase,
        Style::Full,
        Style::Smart,
        Style::FullLowerCase,
    ];
    // whole numbers of quarters of a unit come back to the byte
    let mut binary: Vec<u64> = vec![0, 1, 2, 200, 999, 1000, 1023, 1024, 1536, 1280];
    for shift in [10u32, 20, 30, 40, 50] {
        for quarters in [4u64, 5, 6, 7, 10, 39, 40, 42, 400, 4000] {
            binary.push((quarters << shift) / 4);
        }
    }
    for quarters in [4u64, 5, 6, 7, 10, 39, 40, 42, 62] {
        binary.push(quarters << 58);
    }
    let mut decimal: Vec<u64> = vec![0, 1, 2, 200, 999, 1000, 1250, 1500, 2500];
    for power in [3u32, 6, 9, 12, 15] {
        for quarters in [4u64, 5, 6, 7, 10, 39, 40, 42, 400, 3996] {
            decimal.push(quarters * 10u64.pow(power) / 4);
        }
    }
    for quarters in [4u64, 5, 6, 7, 10, 39, 40, 42, 72] {
        decimal.push(quarters * (10u64.pow(18) / 4));
    }
    for (base, sizes) in [(Base::Base2, binary), (Base::Base10, decimal)] {
        for bytes in sizes {
            for style in styles {
                let text = size::render(bytes, &base, &style);
                assert_eq!(size::parse(&text).unwrap().bytes(), bytes, "{}", text);
            }
        }
    }
    // and whatever is written is read back in the unit of its tier
    let mut state = 0x7d3a_11c9_40e5_8e63u64;
    for _ in 0..2000 {
        state ^= state << 13;
        state ^= state >> 7;
        state ^= state << 17;
        let bytes = state >> (state % 61);
        for base in [Base::Base2, Base::Base10] {
            for style in styles {
                let text = size::render(bytes, &base, &style);
                let read = size::parse(&text).unwrap();
                assert_eq!(read.unit(), rule(&base, select(bytes, &base)).unit, "{}", text);
                assert!(!read.magnitude().is_negative());
            }
        }
    }
    for bytes in [200u64, 1024, 1536, 2560 * 1024, 5 << 40, 3 << 50] {
        for style in styles {
            let text = size::render(bytes, &Base::Base2, &style);
            assert_eq!(size::parse(&text).unwrap().bytes(), bytes, "{}", text);
            assert_eq!(Size::<Double>::from_str(&text).unwrap().bytes(), bytes, "{}", text);
        }
    }
    // what is not shown exactly does not come back
    assert_eq!(size::parse(&size::render(1025, &Base::Base2, &Style::Smart)).unwrap().bytes(), 1024);
}
