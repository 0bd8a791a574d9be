use hoi4_parser::decimal::{parse_decimal, power_of_ten, read_digits, Decimal, MAX_SCALE};

#[test]
fn power_of_ten_values() {
    assert_eq!(power_of_ten(0), 1);
    assert_eq!(power_of_ten(1), 10);
    assert_eq!(power_of_ten(3), 1000);
    assert_eq!(power_of_ten(18), 1_000_000_000_000_000_000);
    assert_eq!(power_of_ten(19), 10_000_000_000_000_000_000);
    assert_eq!(MAX_SCALE, 18);
}

#[test]
fn parse_decimal_exact_values() {
    assert_eq!(parse_decimal(b"0.500"), Some(Decimal { mantissa: 500, scale: 3 }));
    assert_eq!(parse_decimal(b"0.5"), Some(Decimal { mantissa: 5, scale: 1 }));
    assert_eq!(parse_decimal(b"12"), Some(Decimal { mantissa: 12, scale: 0 }));
    assert_eq!(parse_decimal(b"-12"), Some(Decimal { mantissa: -12, scale: 0 }));
    assert_eq!(parse_decimal(b"-0.25"), Some(Decimal { mantissa: -25, scale: 2 }));
    assert_eq!(parse_decimal(b"007.10"), Some(Decimal { mantissa: 710, scale: 2 }));
    assert_eq!(parse_decimal(b"0"), Some(Decimal { mantissa: 0, scale: 0 }));
    assert_eq!(parse_decimal(b"0.4999"), Some(Decimal { mantissa: 4999, scale: 4 }));
}

#[test]
fn parse_decimal_refuses_what_is_no_number() {
    assert_eq!(parse_decimal(b""), None);
    assert_eq!(parse_decimal(b"abc"), None);
    assert_eq!(parse_decimal(b"1."), None);
    assert_eq!(parse_decimal(b"1.2.3"), None);
    assert_eq!(parse_decimal(b"\"1\""), None);
    assert_eq!(parse_decimal(b"1 "), None);
}

#[test]
fn parse_decimal_limits() {
    assert_eq!(
        parse_decimal(b"9223372036854775807"),
        Some(Decimal { mantissa: i64::MAX, scale: 0 })
    );
    assert_eq!(parse_decimal(b"9223372036854775808"), None);
    assert_eq!(
        parse_decimal(b"-9223372036854775807"),
        Some(Decimal { mantissa: -i64::MAX, scale: 0 })
    );
    assert_eq!(parse_decimal(b"99999999999999999999"), None);
    assert_eq!(
        parse_decimal(b"0.123456789012345678"),
        Some(Decimal { mantissa: 123456789012345678, scale: 18 })
    );
    assert_eq!(parse_decimal(b"0.1234567890123456789"), None);
}

#[test]
fn read_digits_passes_over_other_bytes() {
    assert_eq!(read_digits(b"12.34", 0, 5), Some(1234));
    assert_eq!(read_digits(b"12.34", 3, 5), Some(34));
    assert_eq!(read_digits(b"12.34", 2, 2), Some(0));
    assert_eq!(read_digits(b"a1b2", 0, 4), Some(12));
    assert_eq!(read_digits(b"99999999999999999999", 0, 20), None);
}

#[test]
fn half_is_half() {
    assert_eq!(Decimal::half(), Decimal { mantissa: 5, scale: 1 });
    assert!(Decimal::half().is_half());
    assert!(Decimal { mantissa: 50, scale: 2 }.is_half());
    assert!(Decimal { mantissa: 500, scale: 3 }.is_half());
    assert!(Decimal { mantissa: 500_000_000_000_000_000, scale: 18 }.is_half());
    assert!(!Decimal { mantissa: 4999, scale: 4 }.is_half());
    assert!(!Decimal { mantissa: 5001, scale: 4 }.is_half());
    assert!(!Decimal { mantissa: 5, scale: 0 }.is_half());
    assert!(!Decimal { mantissa: -5, scale: 1 }.is_half());
    assert!(!Decimal { mantissa: 0, scale: 0 }.is_half());
}

#[test]
fn half_and_fraction_at_any_scale() {
    assert!(Decimal { mantissa: 5_000_000_000_000_000_000, scale: 19 }.is_half());
    assert!(!Decimal { mantissa: 5_000_000_000_000_000_000, scale: 20 }.is_half());
    assert!(!Decimal { mantissa: 5, scale: 255 }.is_half());
    assert!(Decimal { mantissa: i64::MAX, scale: 19 }.is_fraction());
    assert!(Decimal { mantissa: i64::MAX, scale: 200 }.is_fraction());
    assert!(!Decimal { mantissa: -1, scale: 200 }.is_fraction());
    assert!(!Decimal { mantissa: i64::MAX, scale: 18 }.is_fraction());
}

#[test]
fn fraction_bounds() {
    assert!(Decimal { mantissa: 0, scale: 0 }.is_fraction());
    assert!(Decimal { mantissa: 1, scale: 0 }.is_fraction());
    assert!(Decimal { mantissa: 1000, scale: 3 }.is_fraction());
    assert!(Decimal { mantissa: 523, scale: 3 }.is_fraction());
    assert!(!Decimal { mantissa: 1001, scale: 3 }.is_fraction());
    assert!(!Decimal { mantissa: 2, scale: 0 }.is_fraction());
    assert!(!Decimal { mantissa: -1, scale: 3 }.is_fraction());
}
