use nexus_core::Side;

#[test]
fn test_side_size_is_one_byte() {
    assert_eq!(std::mem::size_of::<Side>(), 1);
}

#[test]
fn test_side_from_str_case_insensitive() {
    assert_eq!(Side::from_str("buy").unwrap(), Side::Buy);
    assert_eq!(Side::from_str("BUY").unwrap(), Side::Buy);
    assert_eq!(Side::from_str("Buy").unwrap(), Side::Buy);
    assert_eq!(Side::from_str("sell").unwrap(), Side::Sell);
    assert_eq!(Side::from_str("SELL").unwrap(), Side::Sell);
}

#[test]
fn test_side_roundtrip_u8() {
    assert_eq!(Side::from_u8(Side::Buy.as_u8()).unwrap(), Side::Buy);
    assert_eq!(Side::from_u8(Side::Sell.as_u8()).unwrap(), Side::Sell);
    assert!(Side::from_u8(0).is_err());
    assert!(Side::from_u8(3).is_err());
}

#[test]
fn test_side_opposite() {
    assert_eq!(Side::Buy.opposite(), Side::Sell);
    assert_eq!(Side::Sell.opposite(), Side::Buy);
}

#[test]
fn test_side_sign() {
    assert_eq!(Side::Buy.sign(), 1);
    assert_eq!(Side::Sell.sign(), -1);
}

#[test]
fn side_bytes_and_words() {
    assert_eq!(Side::Buy.as_u8(), 1);
    assert_eq!(Side::Sell.as_u8(), 2);
    assert!(Side::from_u8(255).is_err());
    assert!(Side::from_str("bu").is_err());
    assert!(Side::from_str("buys").is_err());
    assert!(Side::from_str("").is_err());
    assert_eq!(Side::from_str("sElL").unwrap(), Side::Sell);
}
