use nexus_core::{Price, Quantity};

#[test]
fn test_price_from_str_decimal() {
    let p = Price::from_str_decimal("100.05").unwrap();
    assert_eq!(p.raw(), 10_005_000_000);
}

#[test]
fn test_price_from_str_integer() {
    let p = Price::from_str_decimal("100").unwrap();
    assert_eq!(p.raw(), 10_000_000_000);
}

#[test]
fn test_price_display() {
    let p = Price::new(10_005_000_000);
    assert_eq!(p.to_string(), "100.05000000");
}

#[test]
fn test_price_addition_exact() {
    let a = Price::from_str_decimal("0.1").unwrap();
    let b = Price::from_str_decimal("0.2").unwrap();
    let c = Price::from_str_decimal("0.3").unwrap();
    let sum = a + b;
    assert_eq!(sum, c, "Fixed-point: 0.1 + 0.2 == 0.3 exactly");
}

#[test]
fn test_notional_exact() {
    let price = Price::from_str_decimal("100.00").unwrap();
    let notional = price.notional(50);
    let expected = Price::from_str_decimal("5000.00").unwrap().raw();
    assert_eq!(notional, expected);
}

#[test]
fn test_weighted_avg() {
    let old_avg = Price::from_str_decimal("100.00").unwrap();
    let new_price = Price::from_str_decimal("102.00").unwrap();
    let result = Price::weighted_avg(&old_avg, 10, &new_price, 10);
    let expected = Price::from_str_decimal("101.00").unwrap();
    assert_eq!(result, expected);
}

#[test]
fn test_midpoint() {
    let bid = Price::from_str_decimal("99.50").unwrap();
    let ask = Price::from_str_decimal("100.50").unwrap();
    let mid = bid.midpoint(&ask);
    let expected = Price::from_str_decimal("100.00").unwrap();
    assert_eq!(mid, expected);
}

#[test]
fn parse_display_parse_is_identity() {
    for s in ["100.05", "0.00000001", "-3", "-0.5", "  42.1 ", "+7.25", "92233720368.54775807", "-92233720368.54775808"] {
        let p = Price::from_str_decimal(s).unwrap();
        let back = Price::from_str_decimal(&p.to_string()).unwrap();
        assert_eq!(back, p);
    }
}

#[test]
fn display_keeps_sign_below_one() {
    assert_eq!(Price::new(-50_000_000).to_string(), "-0.50000000");
    assert_eq!(Price::new(-10_005_000_000).to_string(), "-100.05000000");
    assert_eq!(Price::new(0).to_string(), "0.00000000");
    assert_eq!(Price::new(i64::MIN).to_string(), "-92233720368.54775808");
}

#[test]
fn parse_reads_sign_of_fraction_only_values() {
    assert_eq!(Price::from_str_decimal("-0.5").unwrap().raw(), -50_000_000);
    assert_eq!(Price::from_str_decimal("1.").unwrap().raw(), 100_000_000);
    assert_eq!(Price::from_str_decimal("007.5").unwrap().raw(), 750_000_000);
}

#[test]
fn parse_refuses_bad_text() {
    assert!(Price::from_str_decimal("1.123456789").is_err());
    assert!(Price::from_str_decimal("abc").is_err());
    assert!(Price::from_str_decimal("").is_err());
    assert!(Price::from_str_decimal("   ").is_err());
    assert!(Price::from_str_decimal(".5").is_err());
    assert!(Price::from_str_decimal("1.2.3").is_err());
    assert!(Price::from_str_decimal("1x").is_err());
    assert!(Price::from_str_decimal("1.-5").is_err());
    assert!(Price::from_str_decimal("92233720368.54775808").is_err());
    assert!(Price::from_str_decimal("99999999999999999999").is_err());
}

#[test]
fn add_then_sub_gives_back_the_price() {
    let a = Price::new(123_456_789);
    let b = Price::new(-987_654_321);
    assert_eq!((a + b) - b, a);
    let big = Price::new(i64::MAX);
    let one = Price::new(1);
    assert_eq!((big + one) - one, big);
    assert_eq!((big + one).raw(), i64::MIN);
}

#[test]
fn midpoint_and_average_truncate_toward_zero() {
    assert_eq!(Price::new(-3).midpoint(&Price::new(0)).raw(), -1);
    assert_eq!(Price::new(3).midpoint(&Price::new(0)).raw(), 1);
    assert_eq!(Price::weighted_avg(&Price::new(5), 0, &Price::new(7), 0).raw(), 0);
    assert_eq!(Price::weighted_avg(&Price::new(-10), 1, &Price::new(0), 2).raw(), -3);
    assert_eq!(Price::weighted_avg(&Price::new(i64::MAX), 3, &Price::new(i64::MAX), 4).raw(), i64::MAX);
}

#[test]
fn quantity_accessors() {
    assert!(Quantity::new(0).is_zero());
    assert!(!Quantity::new(5).is_zero());
    assert_eq!(Quantity::new(5).raw(), 5);
}

#[test]
fn parse_trims_unicode_whitespace() {
    assert_eq!(Price::from_str_decimal("\u{000C}1").unwrap().raw(), 100_000_000);
    assert_eq!(Price::from_str_decimal("\u{00A0}2.5\u{3000}").unwrap().raw(), 250_000_000);
    assert_eq!(Price::from_str_decimal("\u{2009}-3\u{0085}").unwrap().raw(), -300_000_000);
    assert!(Price::from_str_decimal("\u{200B}1").is_err());
}
