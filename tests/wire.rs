use nexus_core::wire::{serialize_fills, serialize_l2_levels, FILL_RECORD_SIZE, L2_LEVEL_SIZE};
use nexus_core::{msg_type, order_type, tif, NewOrder, OrderCancel, Price, Side, TradeUpdate};
use nexus_core::{Fill, Guardian, L2Level, MatchingEngine, NexusExchange};

#[test]
fn test_new_order_size() {
    let order = NewOrder::new(1, 1, 1, Price::new(1), 1, Side::Buy, order_type::LIMIT, tif::GTC);
    assert_eq!(order.to_bytes().len(), 36);
}

#[test]
fn test_order_cancel_size() {
    assert_eq!(OrderCancel::new(1, 2, 3).to_bytes().len(), 20);
}

#[test]
fn test_trade_update_size() {
    assert_eq!(TradeUpdate::new(1, 2, Price::new(3), 4, 5, 6, 7).to_bytes().len(), 48);
}

#[test]
fn test_new_order_roundtrip() {
    let price = Price::from_str_decimal("100.05").unwrap();
    let order = NewOrder::new(1, 42, 12345, price, 50, Side::Buy, order_type::LIMIT, tif::GTC);
    let mt = order.header.msg_type;
    let tid = order.trader_id;
    let qty = order.quantity;
    assert_eq!(mt, msg_type::NEW_ORDER);
    assert_eq!(tid, 42);
    assert_eq!(qty, 50);
    assert_eq!(order.side_enum(), Some(Side::Buy));
    assert_eq!(order.price_fixed(), price);
}

#[test]
fn test_zero_copy_cast() {
    let price = Price::from_str_decimal("99.95").unwrap();
    let order = NewOrder::new(1, 1, 1, price, 100, Side::Sell, order_type::LIMIT, tif::GTC);
    let bytes = order.to_bytes();
    assert_eq!(bytes.len(), 36);
    let recovered = NewOrder::from_bytes(&bytes).unwrap();
    let tid = recovered.trader_id;
    let qty = recovered.quantity;
    assert_eq!(tid, 1);
    assert_eq!(qty, 100);
    assert_eq!(recovered.side_enum(), Some(Side::Sell));
    assert_eq!(recovered.price_fixed(), price);
}

#[test]
fn wire_layouts_are_packed_little_endian() {
    let order = NewOrder::new(0x0a0b0c0d, 7, 0x1122, Price::new(-1), 9, Side::Buy, order_type::MARKET, tif::FOK);
    let b = order.to_bytes();
    assert_eq!(&b[0..8], &[36, 0, msg_type::NEW_ORDER, 1, 0x0d, 0x0c, 0x0b, 0x0a]);
    assert_eq!(&b[8..12], &[7, 0, 0, 0]);
    assert_eq!(&b[12..20], &[0x22, 0x11, 0, 0, 0, 0, 0, 0]);
    assert_eq!(&b[20..28], &[0xff; 8]);
    assert_eq!(&b[28..36], &[9, 0, 0, 0, 1, 2, 3, 0]);
    assert_eq!(NewOrder::from_bytes(&b), Some(order));
    assert_eq!(NewOrder::from_bytes(&b[..35].to_vec()), None);
    let mut odd = b.clone();
    odd[32] = 5;
    assert_eq!(NewOrder::from_bytes(&odd).unwrap().side_enum(), None);

    let c = OrderCancel::new(3, 4, 5).to_bytes();
    assert_eq!(c, vec![20, 0, msg_type::ORDER_CANCEL, 1, 3, 0, 0, 0, 4, 0, 0, 0, 5, 0, 0, 0, 0, 0, 0, 0]);

    let t = TradeUpdate::new(1, 2, Price::new(3), 4, 5, 6, 7);
    let tb = t.to_bytes();
    assert_eq!(&tb[0..4], &[48, 0, msg_type::TRADE_UPDATE, 1]);
    assert_eq!(tb[8], 2);
    assert_eq!(tb[16], 3);
    assert_eq!(tb[24], 4);
    assert_eq!(tb[28], 5);
    assert_eq!(tb[32], 6);
    assert_eq!(tb[36], 7);
    assert_eq!(t.price_fixed().raw(), 3);
}

#[test]
fn text_forms_of_messages() {
    let order = NewOrder::new(7, 42, 1, Price::from_str_decimal("100.05").unwrap(), 50, Side::Sell, order_type::LIMIT, tif::IOC);
    assert_eq!(order.to_string(), "NewOrder[seq=7, trader=42, side=Sell, price=100.05000000, qty=50]");
    let t = TradeUpdate::new(1, 9, Price::new(-150_000_000), 3, 4, 5, 6);
    assert_eq!(t.to_string(), "Trade[id=9, price=-1.50000000, qty=3, buyer=4, seller=5]");
    assert_eq!(Side::Buy.to_string(), "Buy");
}

#[test]
fn fill_and_level_records() {
    let f = Fill { maker_order_id: 1, taker_order_id: 2, maker_trader_id: 3, taker_trader_id: 4, price: 5, qty: 6, timestamp_ns: 7 };
    let b = serialize_fills(&vec![f, f]);
    assert_eq!(b.len(), 2 * FILL_RECORD_SIZE);
    assert_eq!(&b[0..8], &1u64.to_le_bytes());
    assert_eq!(&b[8..16], &2u64.to_le_bytes());
    assert_eq!(&b[16..20], &3u32.to_le_bytes());
    assert_eq!(&b[20..24], &4u32.to_le_bytes());
    assert_eq!(&b[24..32], &5i64.to_le_bytes());
    assert_eq!(&b[32..36], &6u32.to_le_bytes());
    assert_eq!(&b[36..40], &[0, 0, 0, 0]);
    assert_eq!(&b[40..80], &b[0..40]);
    let l = L2Level { price: -1, qty: 0x1_0000_0002, order_count: 3 };
    let lb = serialize_l2_levels(&vec![l]);
    assert_eq!(lb.len(), L2_LEVEL_SIZE);
    assert_eq!(lb, vec![0xff, 0xff, 0xff, 0xff, 0xff, 0xff, 0xff, 0xff, 2, 0, 0, 0, 3, 0, 0, 0]);
    assert!(serialize_fills(&vec![]).is_empty());
}

#[test]
fn defaults_are_empty() {
    let e = MatchingEngine::default();
    assert_eq!(e.best_bid(), None);
    let g = Guardian::default();
    assert!(g.get_account(1).is_none());
    let x = NexusExchange::default();
    assert!(x.sentinel.is_none());
}
