use arbiter::decimal::format_fixed;
use arbiter::decimal::format_int;
use arbiter::decimal::parse_decimal;
use arbiter::decimal::parse_signed_decimal;
use arbiter::decimal::parse_u64;
use arbiter::decimal::ten_to;
use arbiter::decimal::SCALE;

#[test]
fn scale_is_ten_to_the_eighth() {
    assert_eq!(SCALE, 100_000_000);
    assert_eq!(ten_to(8), SCALE);
    assert_eq!(ten_to(0), 1);
    assert_eq!(ten_to(19), 10_000_000_000_000_000_000);
}

#[test]
fn parse_decimal_reads_whole_and_fraction() {
    assert_eq!(parse_decimal("68074.30"), Some(6_807_430_000_000));
    assert_eq!(parse_decimal("0.00002341"), Some(2_341));
    assert_eq!(parse_decimal("1"), Some(100_000_000));
    assert_eq!(parse_decimal("0"), Some(0));
    assert_eq!(parse_decimal("0.5"), Some(50_000_000));
    assert_eq!(parse_decimal("12.34567891"), Some(1_234_567_891));
    assert_eq!(parse_decimal("007.50"), Some(750_000_000));
}

#[test]
fn parse_decimal_accepts_a_bare_point_side() {
    assert_eq!(parse_decimal("5."), Some(500_000_000));
    assert_eq!(parse_decimal(".5"), Some(50_000_000));
}

#[test]
fn parse_decimal_refuses_what_is_no_number() {
    assert_eq!(parse_decimal(""), None);
    assert_eq!(parse_decimal("."), None);
    assert_eq!(parse_decimal("abc"), None);
    assert_eq!(parse_decimal("1.2.3"), None);
    assert_eq!(parse_decimal("1,5"), None);
    assert_eq!(parse_decimal(" 1"), None);
    assert_eq!(parse_decimal("1 "), None);
    assert_eq!(parse_decimal("-1"), None);
    assert_eq!(parse_decimal("+1"), None);
    assert_eq!(parse_decimal("1e5"), None);
    assert_eq!(parse_decimal("NaN"), None);
    assert_eq!(parse_decimal("inf"), None);
}

#[test]
fn parse_decimal_refuses_a_ninth_fractional_digit() {
    assert_eq!(parse_decimal("0.12345678"), Some(12_345_678));
    assert_eq!(parse_decimal("0.123456789"), None);
    assert_eq!(parse_decimal("0.000000000"), None);
}

#[test]
fn parse_decimal_refuses_what_does_not_fit() {
    assert_eq!(parse_decimal("184467440737.09551615"), Some(u64::MAX));
    assert_eq!(parse_decimal("184467440737.09551616"), None);
    assert_eq!(parse_decimal("184467440738"), None);
    assert_eq!(parse_decimal("99999999999999999999999999"), None);
}

#[test]
fn parse_signed_decimal_reads_the_sign() {
    assert_eq!(parse_signed_decimal("0.0001"), Some(10_000));
    assert_eq!(parse_signed_decimal("-0.0001"), Some(-10_000));
    assert_eq!(parse_signed_decimal("+0.0001"), Some(10_000));
    assert_eq!(parse_signed_decimal("-0"), Some(0));
    assert_eq!(parse_signed_decimal("0.00038246"), Some(38_246));
}

#[test]
fn parse_signed_decimal_refuses_what_is_no_number() {
    assert_eq!(parse_signed_decimal(""), None);
    assert_eq!(parse_signed_decimal("-"), None);
    assert_eq!(parse_signed_decimal("+"), None);
    assert_eq!(parse_signed_decimal("--1"), None);
    assert_eq!(parse_signed_decimal("+-1"), None);
    assert_eq!(parse_signed_decimal("1-"), None);
    assert_eq!(parse_signed_decimal("rate"), None);
}

#[test]
fn parse_signed_decimal_covers_the_whole_range() {
    assert_eq!(parse_signed_decimal("92233720368.54775807"), Some(i64::MAX));
    assert_eq!(parse_signed_decimal("92233720368.54775808"), None);
    assert_eq!(parse_signed_decimal("-92233720368.54775808"), Some(i64::MIN));
    assert_eq!(parse_signed_decimal("-92233720368.54775809"), None);
}

#[test]
fn parse_u64_reads_as_the_standard_library_does() {
    assert_eq!(parse_u64("0"), Some(0));
    assert_eq!(parse_u64("1700000000000"), Some(1_700_000_000_000));
    assert_eq!(parse_u64("+42"), Some(42));
    assert_eq!(parse_u64("007"), Some(7));
    assert_eq!(parse_u64("18446744073709551615"), Some(u64::MAX));
    assert_eq!(parse_u64("18446744073709551616"), None);
    assert_eq!(parse_u64(""), None);
    assert_eq!(parse_u64("+"), None);
    assert_eq!(parse_u64("-1"), None);
    assert_eq!(parse_u64("1.0"), None);
    assert_eq!(parse_u64("12a"), None);
    assert_eq!(parse_u64(" 12"), None);
}

#[test]
fn parse_u64_agrees_with_str_parse() {
    let samples = vec!["0", "+5", "65535", "65536", "", "x", "1 ", "+", "-0", "000", "99999999999999999999"];
    for s in samples {
        assert_eq!(parse_u64(s), s.parse::<u64>().ok(), "text {:?}", s);
    }
}

#[test]
fn format_fixed_writes_exactly_the_decimals_asked_for() {
    assert_eq!(format_fixed(6_807_430, 2), "68074.30");
    assert_eq!(format_fixed(2_341, 8), "0.00002341");
    assert_eq!(format_fixed(0, 2), "0.00");
    assert_eq!(format_fixed(5, 0), "5");
    assert_eq!(format_fixed(123, 5), "0.00123");
    assert_eq!(format_fixed(u64::MAX, 19), "1.8446744073709551615");
    assert_eq!(format_fixed(u64::MAX, 0), "18446744073709551615");
    assert_eq!(format_fixed(1_000_000, 6), "1.000000");
}

#[test]
fn format_int_writes_the_sign() {
    assert_eq!(format_int(0), "0");
    assert_eq!(format_int(7), "7");
    assert_eq!(format_int(10001), "10001");
    assert_eq!(format_int(-1), "-1");
    assert_eq!(format_int(-120), "-120");
    assert_eq!(format_int(i64::MAX), "9223372036854775807");
    assert_eq!(format_int(i64::MIN), "-9223372036854775808");
}

#[test]
fn parse_decimal_reads_back_what_format_fixed_wrote() {
    let samples: Vec<u64> = vec![0, 1, 9, 10, 2_341, 99_999_999, 100_000_000, 6_807_430_000_000, u64::MAX];
    for units in samples {
        let text = format_fixed(units, 8);
        assert_eq!(parse_decimal(&text), Some(units), "text {:?}", text);
    }
}
