use receipt_splitter::money::{dec_string, format_money};

// format_money takes 1/10000-unit amounts and renders two decimal places,
// rounding to the nearest cent with ties away from zero.

#[test]
fn half_formats_with_leading_zero() {
    assert_eq!(format_money(5000), "0.50");
}

#[test]
fn whole_number_keeps_two_decimals() {
    assert_eq!(format_money(120000), "12.00");
}

#[test]
fn half_cent_rounds_away_from_zero() {
    // 0.005 rounds up to 0.01 under ties-away-from-zero
    assert_eq!(format_money(50), "0.01");
    // just under the tie rounds down
    assert_eq!(format_money(49), "0.00");
    // 0.0149 is nearest to 0.01, 0.0150 to 0.02
    assert_eq!(format_money(149), "0.01");
    assert_eq!(format_money(150), "0.02");
}

#[test]
fn zero_formats_as_zero() {
    assert_eq!(format_money(0), "0.00");
}

#[test]
fn no_formatted_string_starts_with_a_dot() {
    for units in [0u64, 1, 49, 50, 99, 100, 5000, 9999, 10000, 123456789] {
        let s = format_money(units);
        assert!(!s.starts_with('.'), "{} formatted as {}", units, s);
        assert!(s.len() >= 4);
        assert_eq!(s.as_bytes()[s.len() - 3], b'.');
    }
}

#[test]
fn large_amount() {
    assert_eq!(format_money(12345678901), "1234567.89");
}

#[test]
fn decimal_strings() {
    assert_eq!(dec_string(0), "0");
    assert_eq!(dec_string(7), "7");
    assert_eq!(dec_string(10), "10");
    assert_eq!(dec_string(98765), "98765");
}
