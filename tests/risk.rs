use nexus_core::{Guardian, GuardianConfig, GuardianReject, Side, VolatilityBandConfig};

const S: i64 = 100_000_000;

fn price(v: i64) -> i64 {
    v * S
}

fn setup_guardian() -> Guardian {
    let mut g = Guardian::new();
    g.add_funds(1, price(10_000));
    g.add_funds(2, price(5_000));
    g
}

#[test]
fn test_add_funds_and_query() {
    let g = setup_guardian();
    let acc = g.get_account(1).unwrap();
    assert_eq!(acc.available_balance, price(10_000));
    assert_eq!(acc.locked_margin, 0);
    assert_eq!(acc.total_equity(), price(10_000));
}

#[test]
fn test_add_funds_incremental() {
    let mut g = Guardian::new();
    g.add_funds(1, price(1_000));
    g.add_funds(1, price(500));
    assert_eq!(g.get_account(1).unwrap().available_balance, price(1_500));
}

#[test]
fn test_kill_switch_ban() {
    let mut g = setup_guardian();
    g.ban_trader(1);
    assert!(g.is_banned(1));
    assert!(!g.is_banned(2));
    let result = g.validate_and_lock(1, Side::Buy, price(100), 10, 0);
    assert!(result.is_err());
    match result.unwrap_err() {
        GuardianReject::TraderBanned { trader_id } => assert_eq!(trader_id, 1),
        other => panic!("Expected TraderBanned, got {:?}", other),
    }
}

#[test]
fn test_kill_switch_unban() {
    let mut g = setup_guardian();
    g.ban_trader(1);
    g.unban_trader(1);
    assert!(!g.is_banned(1));
    let result = g.validate_and_lock(1, Side::Buy, price(100), 10, 0);
    assert!(result.is_ok());
}

#[test]
fn test_kill_switch_ban_all() {
    let mut g = setup_guardian();
    g.ban_all_traders();
    assert!(g.is_banned(1));
    assert!(g.is_banned(2));
    g.clear_all_bans();
    assert!(!g.is_banned(1));
}

#[test]
fn test_margin_lock_buy() {
    let mut g = setup_guardian();
    let locked = g.validate_and_lock(1, Side::Buy, price(100), 10, 0).unwrap();
    assert_eq!(locked, price(100) * 10);
    let acc = g.get_account(1).unwrap();
    assert_eq!(acc.available_balance, price(10_000) - price(1_000));
    assert_eq!(acc.locked_margin, price(1_000));
    assert_eq!(acc.total_equity(), price(10_000));
}

#[test]
fn test_margin_insufficient() {
    let mut g = setup_guardian();
    let result = g.validate_and_lock(2, Side::Buy, price(100), 100, 0);
    assert!(result.is_err());
    match result.unwrap_err() {
        GuardianReject::InsufficientMargin { required, available } => {
            assert_eq!(required, price(10_000));
            assert_eq!(available, price(5_000));
        }
        other => panic!("Expected InsufficientMargin, got {:?}", other),
    }
}

#[test]
fn test_unknown_trader() {
    let mut g = setup_guardian();
    let result = g.validate_and_lock(999, Side::Buy, price(100), 10, 0);
    assert!(result.is_err());
    match result.unwrap_err() {
        GuardianReject::UnknownTrader { trader_id } => assert_eq!(trader_id, 999),
        other => panic!("Expected UnknownTrader, got {:?}", other),
    }
}

#[test]
fn test_volatility_band_rejection() {
    let mut g = setup_guardian();
    g.set_reference_price(price(100));
    let result = g.validate_and_lock(1, Side::Buy, price(120), 1, 0);
    assert!(result.is_err());
    match result.unwrap_err() {
        GuardianReject::OutsideVolatilityBand { order_price, lower_bound, upper_bound } => {
            assert_eq!(order_price, price(120));
            assert_eq!(lower_bound, price(90));
            assert_eq!(upper_bound, price(110));
        }
        other => panic!("Expected OutsideVolatilityBand, got {:?}", other),
    }
}

#[test]
fn test_volatility_band_accept_within() {
    let mut g = setup_guardian();
    g.set_reference_price(price(100));
    let result = g.validate_and_lock(1, Side::Buy, price(105), 10, 0);
    assert!(result.is_ok());
}

#[test]
fn test_volatility_band_dynamic_update() {
    let mut g = setup_guardian();
    g.set_reference_price(price(100));
    assert!(g.validate_and_lock(1, Side::Buy, price(115), 1, 0).is_err());
    g.set_volatility_band_pct_scaled(20_000_000);
    assert!(g.validate_and_lock(1, Side::Buy, price(115), 1, 0).is_ok());
}

#[test]
fn test_no_volatility_band_without_reference() {
    let mut g = setup_guardian();
    let result = g.validate_and_lock(1, Side::Buy, price(9999), 1, 0);
    assert!(result.is_ok());
}

#[test]
fn test_reject_zero_price() {
    let mut g = setup_guardian();
    let result = g.validate_and_lock(1, Side::Buy, 0, 10, 0);
    assert_eq!(result.unwrap_err(), GuardianReject::InvalidPrice);
}

#[test]
fn test_reject_zero_quantity() {
    let mut g = setup_guardian();
    let result = g.validate_and_lock(1, Side::Buy, price(100), 0, 0);
    assert_eq!(result.unwrap_err(), GuardianReject::InvalidQuantity);
}

#[test]
fn test_reject_max_quantity() {
    let mut g = setup_guardian();
    let result = g.validate_and_lock(1, Side::Buy, price(1), 2_000_000, 0);
    assert!(result.is_err());
    match result.unwrap_err() {
        GuardianReject::MaxQuantityExceeded { requested, max } => {
            assert_eq!(requested, 2_000_000);
            assert_eq!(max, 1_000_000);
        }
        _ => panic!("Expected MaxQuantityExceeded"),
    }
}

#[test]
fn test_settle_full_fill_at_limit() {
    let mut g = setup_guardian();
    g.validate_and_lock(1, Side::Buy, price(100), 10, 0).unwrap();
    g.settle_fill_v2(1, Side::Buy, price(100), price(100), 10, 0);
    let acc = g.get_account(1).unwrap();
    assert_eq!(acc.locked_margin, 0);
    assert_eq!(acc.available_balance, price(9_000));
}

#[test]
fn test_settle_with_price_improvement() {
    let mut g = setup_guardian();
    g.validate_and_lock(1, Side::Buy, price(100), 10, 0).unwrap();
    g.settle_fill_v2(1, Side::Buy, price(100), price(95), 10, 0);
    let acc = g.get_account(1).unwrap();
    assert_eq!(acc.locked_margin, 0);
    assert_eq!(acc.available_balance, price(9_050));
}

#[test]
fn test_settle_partial_fill() {
    let mut g = setup_guardian();
    g.validate_and_lock(1, Side::Buy, price(100), 10, 0).unwrap();
    g.settle_fill_v2(1, Side::Buy, price(100), price(100), 6, 0);
    let acc = g.get_account(1).unwrap();
    assert_eq!(acc.locked_margin, price(400));
    assert_eq!(acc.available_balance, price(9_000));
}

#[test]
fn test_settle_partial_then_cancel_remainder() {
    let mut g = setup_guardian();
    g.validate_and_lock(1, Side::Buy, price(100), 10, 0).unwrap();
    g.settle_fill_v2(1, Side::Buy, price(100), price(98), 6, 0);
    g.unlock_margin(1, price(100), 4);
    let acc = g.get_account(1).unwrap();
    assert_eq!(acc.locked_margin, 0);
    assert_eq!(acc.available_balance, price(9_412));
}

#[test]
fn test_position_tracking_buy() {
    let mut g = setup_guardian();
    g.validate_and_lock(1, Side::Buy, price(100), 10, 0).unwrap();
    g.settle_fill_v2(1, Side::Buy, price(100), price(100), 10, 0);
    let acc = g.get_account(1).unwrap();
    assert_eq!(acc.position(0), 10);
}

#[test]
fn test_position_tracking_sell() {
    let mut g = setup_guardian();
    g.validate_and_lock(1, Side::Buy, price(100), 10, 0).unwrap();
    g.settle_fill_v2(1, Side::Buy, price(100), price(100), 10, 0);
    g.validate_and_lock(1, Side::Sell, price(100), 5, 0).unwrap();
    g.settle_fill_v2(1, Side::Sell, price(100), price(100), 5, 0);
    let acc = g.get_account(1).unwrap();
    assert_eq!(acc.position(0), 5);
}

#[test]
fn test_equity_conservation_through_lifecycle() {
    let mut g = setup_guardian();
    let initial_equity = g.get_account(1).unwrap().total_equity();
    assert_eq!(initial_equity, price(10_000));
    g.validate_and_lock(1, Side::Buy, price(100), 10, 0).unwrap();
    assert_eq!(g.get_account(1).unwrap().total_equity(), price(10_000));
    g.settle_fill_v2(1, Side::Buy, price(100), price(100), 5, 0);
    assert_eq!(g.get_account(1).unwrap().total_equity(), price(9_500));
    g.unlock_margin(1, price(100), 5);
    assert_eq!(g.get_account(1).unwrap().total_equity(), price(9_500));
    assert_eq!(g.get_account(1).unwrap().locked_margin, 0);
}

#[test]
fn sell_settlement_releases_lock_and_pays_proceeds() {
    let mut g = setup_guardian();
    g.validate_and_lock(1, Side::Sell, price(100), 10, 0).unwrap();
    assert!(g.settle_fill_v2(1, Side::Sell, price(100), price(102), 10, 0));
    let acc = g.get_account(1).unwrap();
    assert_eq!(acc.locked_margin, 0);
    assert_eq!(acc.available_balance, price(10_000) + price(1_020));
    assert_eq!(acc.position(0), -10);
}

#[test]
fn marked_equity_is_conserved_for_fills_at_one_price() {
    let mut g = setup_guardian();
    g.validate_and_lock(1, Side::Buy, price(50), 20, 0).unwrap();
    g.settle_fill_v2(1, Side::Buy, price(50), price(50), 12, 0);
    g.unlock_margin(1, price(50), 8);
    g.validate_and_lock(1, Side::Sell, price(50), 5, 0).unwrap();
    g.settle_fill_v2(1, Side::Sell, price(50), price(50), 5, 0);
    let acc = g.get_account(1).unwrap();
    assert_eq!(acc.locked_margin, 0);
    assert_eq!(acc.position(0), 7);
    assert_eq!(acc.total_equity() + price(50) * acc.position(0), price(10_000));
}

#[test]
fn settlement_that_would_go_negative_is_refused() {
    let mut g = setup_guardian();
    assert!(!g.settle_fill(1, Side::Buy, price(100), price(100), 1, 0));
    assert!(!g.unlock_margin(1, price(100), 1));
    assert!(!g.settle_fill(42, Side::Buy, price(1), price(1), 1, 0));
    let acc = g.get_account(1).unwrap();
    assert_eq!(acc.available_balance, price(10_000));
    assert_eq!(acc.locked_margin, 0);
    assert!(!g.add_funds(1, -price(20_000)));
    assert!(g.add_funds(1, -price(1_000)));
    assert_eq!(g.get_account(1).unwrap().available_balance, price(9_000));
}

#[test]
fn short_selling_needs_a_position() {
    let cfg = GuardianConfig {
        volatility_band: VolatilityBandConfig { band_pct: 10_000_000, min_band_abs: S },
        max_order_qty: 1_000,
        allow_short_selling: false,
    };
    let mut g = Guardian::with_config(cfg);
    g.add_funds(7, price(1_000));
    match g.validate_and_lock(7, Side::Sell, price(10), 3, 0).unwrap_err() {
        GuardianReject::InsufficientPosition { required, current } => {
            assert_eq!(required, 3);
            assert_eq!(current, 0);
        }
        other => panic!("Expected InsufficientPosition, got {:?}", other),
    }
    assert!(g.validate_and_lock(7, Side::Buy, price(10), 3, 0).is_ok());
    assert_eq!(g.volatility_band_config().min_band_abs, S);
}

#[test]
fn band_floor_applies_to_low_reference() {
    let mut g = setup_guardian();
    g.set_reference_price(price(2));
    match g.validate_and_lock(1, Side::Buy, price(4), 1, 0).unwrap_err() {
        GuardianReject::OutsideVolatilityBand { lower_bound, upper_bound, .. } => {
            assert_eq!(lower_bound, price(1));
            assert_eq!(upper_bound, price(3));
        }
        other => panic!("Expected OutsideVolatilityBand, got {:?}", other),
    }
    assert!(g.validate_and_lock(1, Side::Buy, price(3), 1, 0).is_ok());
}

#[test]
fn negative_band_rejects_every_price() {
    let mut g = setup_guardian();
    g.set_reference_price(price(100));
    g.set_volatility_band_pct_scaled(-20_000_000);
    assert!(g.validate_and_lock(1, Side::Buy, price(100), 1, 0).is_ok());
    let cfg = GuardianConfig {
        volatility_band: VolatilityBandConfig { band_pct: -20_000_000, min_band_abs: -S },
        max_order_qty: 10,
        allow_short_selling: true,
    };
    let mut h = Guardian::with_config(cfg);
    h.add_funds(1, price(1_000));
    h.set_reference_price(price(100));
    match h.validate_and_lock(1, Side::Buy, price(100), 1, 0).unwrap_err() {
        GuardianReject::OutsideVolatilityBand { lower_bound, upper_bound, .. } => {
            assert_eq!(lower_bound, price(101));
            assert_eq!(upper_bound, price(99));
        }
        other => panic!("Expected OutsideVolatilityBand, got {:?}", other),
    }
}

#[test]
fn deposit_may_leave_available_negative_while_equity_stays_non_negative() {
    let mut g = Guardian::new();
    g.add_funds(1, price(100));
    g.validate_and_lock(1, Side::Buy, price(10), 10, 0).unwrap();
    assert!(g.add_funds(1, -price(50)));
    let acc = g.get_account(1).unwrap();
    assert_eq!(acc.available_balance, -price(50));
    assert_eq!(acc.locked_margin, price(100));
    assert!(!g.add_funds(1, -price(51)));
    assert!(g.unlock_margin(1, price(10), 10));
    assert_eq!(g.get_account(1).unwrap().available_balance, price(50));
}

#[test]
fn huge_notional_reports_saturated_requirement() {
    let mut g = setup_guardian();
    match g.validate_and_lock(1, Side::Buy, i64::MAX, 1_000, 0).unwrap_err() {
        GuardianReject::InsufficientMargin { required, available } => {
            assert_eq!(required, i64::MAX);
            assert_eq!(available, price(10_000));
        }
        other => panic!("Expected InsufficientMargin, got {:?}", other),
    }
}
