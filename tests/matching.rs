use nexus_core::{MatchingEngine, RejectReason, RiskConfig, Side};

const SCALE: i64 = 100_000_000;

fn price(v: i64) -> i64 {
    v * SCALE
}

#[test]
fn test_simple_buy_sell_match() {
    let mut engine = MatchingEngine::new();
    let r1 = engine.submit_order(1, Side::Sell, price(100), 50).unwrap();
    assert_eq!(r1.fills.len(), 0);
    assert_eq!(r1.resting_qty, 50);
    let r2 = engine.submit_order(2, Side::Buy, price(100), 30).unwrap();
    assert_eq!(r2.fills.len(), 1);
    assert_eq!(r2.fills[0].qty, 30);
    assert_eq!(r2.fills[0].price, price(100));
    assert_eq!(r2.fills[0].maker_trader_id, 1);
    assert_eq!(r2.fills[0].taker_trader_id, 2);
    assert_eq!(r2.resting_qty, 0);
    assert_eq!(engine.best_ask(), Some(price(100)));
}

#[test]
fn test_partial_fill() {
    let mut engine = MatchingEngine::new();
    engine.submit_order(1, Side::Sell, price(100), 10).unwrap();
    let r = engine.submit_order(2, Side::Buy, price(100), 25).unwrap();
    assert_eq!(r.fills.len(), 1);
    assert_eq!(r.fills[0].qty, 10);
    assert_eq!(r.resting_qty, 15);
    assert_eq!(engine.best_bid(), Some(price(100)));
    assert_eq!(engine.best_ask(), None);
}

#[test]
fn test_price_time_priority() {
    let mut engine = MatchingEngine::new();
    engine.submit_order(1, Side::Sell, price(101), 10).unwrap();
    engine.submit_order(2, Side::Sell, price(100), 10).unwrap();
    let r = engine.submit_order(3, Side::Buy, price(101), 15).unwrap();
    assert_eq!(r.fills.len(), 2);
    assert_eq!(r.fills[0].price, price(100));
    assert_eq!(r.fills[0].qty, 10);
    assert_eq!(r.fills[1].price, price(101));
    assert_eq!(r.fills[1].qty, 5);
}

#[test]
fn test_time_priority_fifo() {
    let mut engine = MatchingEngine::new();
    engine.submit_order(1, Side::Sell, price(100), 10).unwrap();
    engine.submit_order(2, Side::Sell, price(100), 10).unwrap();
    let r = engine.submit_order(3, Side::Buy, price(100), 10).unwrap();
    assert_eq!(r.fills.len(), 1);
    assert_eq!(r.fills[0].maker_trader_id, 1);
}

#[test]
fn test_self_trade_prevention() {
    let mut engine = MatchingEngine::new();
    engine.submit_order(1, Side::Sell, price(100), 50).unwrap();
    let r = engine.submit_order(1, Side::Buy, price(100), 30).unwrap();
    assert_eq!(r.fills.len(), 0);
    assert_eq!(r.stp_cancels.len(), 1);
    assert_eq!(r.resting_qty, 30);
    assert_eq!(engine.best_ask(), None);
    assert_eq!(engine.best_bid(), Some(price(100)));
}

#[test]
fn test_fat_finger_rejection() {
    let mut engine = MatchingEngine::new();
    engine.submit_order(1, Side::Sell, price(100), 10).unwrap();
    engine.submit_order(2, Side::Buy, price(100), 10).unwrap();
    let result = engine.submit_order(3, Side::Buy, price(200), 10);
    assert!(result.is_err());
    match result.unwrap_err() {
        RejectReason::FatFinger { order_price, reference_price } => {
            assert_eq!(order_price, price(200));
            assert_eq!(reference_price, price(100));
        }
        other => panic!("Expected FatFinger, got {:?}", other),
    }
}

#[test]
fn test_max_quantity_rejection() {
    let engine = MatchingEngine::new();
    let result = engine.validate_risk(price(100), 2_000_000);
    assert!(result.is_err());
    match result.unwrap_err() {
        RejectReason::MaxQuantity { requested, max } => {
            assert_eq!(requested, 2_000_000);
            assert_eq!(max, 1_000_000);
        }
        _ => panic!("Expected MaxQuantity rejection"),
    }
}

#[test]
fn test_no_match_across_spread() {
    let mut engine = MatchingEngine::new();
    engine.submit_order(1, Side::Sell, price(105), 10).unwrap();
    let r = engine.submit_order(2, Side::Buy, price(100), 10).unwrap();
    assert_eq!(r.fills.len(), 0);
    assert_eq!(r.resting_qty, 10);
}

#[test]
fn test_multiple_levels_consumed() {
    let mut engine = MatchingEngine::new();
    engine.submit_order(1, Side::Sell, price(100), 10).unwrap();
    engine.submit_order(2, Side::Sell, price(101), 10).unwrap();
    engine.submit_order(3, Side::Sell, price(102), 10).unwrap();
    let r = engine.submit_order(4, Side::Buy, price(102), 25).unwrap();
    assert_eq!(r.fills.len(), 3);
    assert_eq!(r.fills[0].price, price(100));
    assert_eq!(r.fills[0].qty, 10);
    assert_eq!(r.fills[1].price, price(101));
    assert_eq!(r.fills[1].qty, 10);
    assert_eq!(r.fills[2].price, price(102));
    assert_eq!(r.fills[2].qty, 5);
    assert_eq!(r.resting_qty, 0);
    assert_eq!(engine.best_ask(), Some(price(102)));
}

#[test]
fn test_l2_snapshot_after_trades() {
    let mut engine = MatchingEngine::new();
    engine.submit_order(1, Side::Buy, price(99), 10).unwrap();
    engine.submit_order(2, Side::Buy, price(100), 20).unwrap();
    engine.submit_order(3, Side::Sell, price(101), 15).unwrap();
    engine.submit_order(4, Side::Sell, price(102), 25).unwrap();
    let (bids, asks) = engine.l2_snapshot(5);
    assert_eq!(bids.len(), 2);
    assert_eq!(asks.len(), 2);
    assert_eq!(bids[0].price, price(100));
    assert_eq!(bids[0].qty, 20);
    assert_eq!(asks[0].price, price(101));
    assert_eq!(asks[0].qty, 15);
}

#[test]
fn test_cancel_on_disconnect() {
    let mut engine = MatchingEngine::new();
    engine.submit_order(1, Side::Buy, price(100), 10).unwrap();
    engine.submit_order(1, Side::Sell, price(105), 20).unwrap();
    engine.submit_order(2, Side::Buy, price(99), 30).unwrap();
    let cancelled = engine.cancel_all_for_trader(1);
    assert_eq!(cancelled.len(), 2);
    assert_eq!(engine.best_bid(), Some(price(99)));
    assert_eq!(engine.best_ask(), None);
}

#[test]
fn simple_cross_leaves_twenty_on_the_ask() {
    let mut engine = MatchingEngine::new();
    engine.submit_order(1, Side::Sell, price(100), 50).unwrap();
    let r = engine.submit_order(2, Side::Buy, price(100), 30).unwrap();
    assert_eq!(r.fills[0].maker_order_id, 1);
    assert_eq!(r.fills[0].taker_order_id, 2);
    let (bids, asks) = engine.l2_snapshot(10);
    assert_eq!(bids.len(), 0);
    assert_eq!(asks.len(), 1);
    assert_eq!(asks[0].qty, 20);
    assert_eq!(asks[0].order_count, 1);
    assert_eq!(engine.book.asks.total_qty, 20);
}

#[test]
fn price_time_priority_leaves_five_at_101() {
    let mut engine = MatchingEngine::new();
    engine.submit_order(1, Side::Sell, price(101), 10).unwrap();
    engine.submit_order(2, Side::Sell, price(100), 10).unwrap();
    engine.submit_order(3, Side::Buy, price(101), 15).unwrap();
    let (_, asks) = engine.l2_snapshot(10);
    assert_eq!(asks.len(), 1);
    assert_eq!(asks[0].price, price(101));
    assert_eq!(asks[0].qty, 5);
}

#[test]
fn order_ids_increase_and_fills_name_earlier_ids() {
    let mut engine = MatchingEngine::new();
    let a = engine.submit_order(1, Side::Sell, price(100), 5).unwrap();
    let b = engine.submit_order(2, Side::Sell, price(100), 5).unwrap();
    let c = engine.submit_order(3, Side::Buy, price(100), 8).unwrap();
    assert_eq!((a.order_id, b.order_id, c.order_id), (1, 2, 3));
    assert_eq!(c.fills[0].maker_order_id, 1);
    assert_eq!(c.fills[1].maker_order_id, 2);
    assert_eq!(c.fills[1].qty, 3);
    assert!(c.fills.iter().all(|f| f.taker_order_id == 3 && f.timestamp_ns == 3));
    assert_eq!(engine.book.next_order_id, 4);
}

#[test]
fn stp_interleaves_with_fills_in_walk_order() {
    let mut engine = MatchingEngine::new();
    engine.submit_order(2, Side::Buy, price(100), 4).unwrap();
    engine.submit_order(1, Side::Buy, price(100), 4).unwrap();
    engine.submit_order(2, Side::Buy, price(99), 4).unwrap();
    let r = engine.submit_order(1, Side::Sell, price(99), 10).unwrap();
    assert_eq!(r.fills.len(), 2);
    assert_eq!(r.fills[0].price, price(100));
    assert_eq!(r.fills[1].price, price(99));
    assert_eq!(r.stp_cancels, vec![2]);
    assert_eq!(r.resting_qty, 2);
    assert_eq!(engine.best_ask(), Some(price(99)));
    assert_eq!(engine.best_bid(), None);
}

#[test]
fn engine_rejects_bad_price_and_quantity() {
    let mut engine = MatchingEngine::new();
    assert_eq!(engine.submit_order(1, Side::Buy, 0, 10).unwrap_err(), RejectReason::InvalidPrice);
    assert_eq!(engine.submit_order(1, Side::Buy, -5, 10).unwrap_err(), RejectReason::InvalidPrice);
    assert_eq!(engine.submit_order(1, Side::Buy, price(1), 0).unwrap_err(), RejectReason::InvalidQuantity);
    assert_eq!(engine.book.next_order_id, 1);
}

#[test]
fn fat_finger_at_exactly_the_threshold_passes() {
    let mut engine = MatchingEngine::with_config(RiskConfig { max_order_qty: 100, max_price_deviation_pct: 50_000_000 });
    engine.submit_order(1, Side::Sell, price(100), 1).unwrap();
    engine.submit_order(2, Side::Buy, price(100), 1).unwrap();
    assert!(engine.validate_risk(price(150), 1).is_ok());
    assert!(engine.validate_risk(price(50), 1).is_ok());
    assert!(engine.validate_risk(price(151), 1).is_err());
    assert!(engine.validate_risk(price(1), 101).is_err());
}

#[test]
fn clear_resets_the_engine() {
    let mut engine = MatchingEngine::new();
    engine.submit_order(1, Side::Sell, price(100), 5).unwrap();
    engine.submit_order(2, Side::Buy, price(100), 2).unwrap();
    engine.clear();
    assert_eq!(engine.best_ask(), None);
    assert_eq!(engine.book.last_trade_price, None);
    let r = engine.submit_order(1, Side::Buy, price(300), 1).unwrap();
    assert_eq!(r.order_id, 1);
}

#[test]
fn l2_depth_limits_levels_and_counts_orders() {
    let mut engine = MatchingEngine::new();
    engine.submit_order(1, Side::Buy, price(99), 10).unwrap();
    engine.submit_order(2, Side::Buy, price(99), 5).unwrap();
    engine.submit_order(3, Side::Buy, price(98), 7).unwrap();
    let (bids, _) = engine.l2_snapshot(1);
    assert_eq!(bids.len(), 1);
    assert_eq!(bids[0].qty, 15);
    assert_eq!(bids[0].order_count, 2);
    let (bids, _) = engine.l2_snapshot(0);
    assert_eq!(bids.len(), 0);
}
