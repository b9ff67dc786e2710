use memmap2::MmapMut;
use nexus_core::journal_msg_type;
use nexus_core::{ExchangeError, NexusExchange, Sentinel, Side, WalError};

const S: i64 = 100_000_000;

fn price(v: i64) -> i64 {
    v * S
}

fn fresh_region(len: usize) -> MmapMut {
    MmapMut::map_anon(len).unwrap()
}

fn reopen(s: Sentinel) -> Sentinel {
    Sentinel::open_region(s.into_region())
}

#[test]
fn test_wal_append_and_read() {
    let mut sentinel = Sentinel::open_region(fresh_region(1024 * 1024));
    sentinel.append(journal_msg_type::NEW_ORDER, b"hello", 100).unwrap();
    sentinel.append(journal_msg_type::ORDER_CANCEL, b"world", 200).unwrap();
    sentinel.region().flush().unwrap();
    let entries = sentinel.read_all_entries();
    assert_eq!(entries.len(), 2);
    let seq0 = entries[0].header.sequence_number;
    let msg0 = entries[0].header.msg_type;
    assert_eq!(seq0, 0);
    assert_eq!(msg0, journal_msg_type::NEW_ORDER);
    assert_eq!(&entries[0].payload, b"hello");
    let seq1 = entries[1].header.sequence_number;
    assert_eq!(seq1, 1);
    assert_eq!(&entries[1].payload, b"world");
}

#[test]
fn test_wal_crc_verification() {
    let mut sentinel = Sentinel::open_region(fresh_region(1024 * 1024));
    sentinel.append(journal_msg_type::NEW_ORDER, b"test_data", 1).unwrap();
    let entries = sentinel.read_all_entries();
    assert_eq!(entries.len(), 1);
    let expected_crc = crc32fast::hash(b"test_data");
    let actual_crc = entries[0].header.crc32;
    assert_eq!(actual_crc, expected_crc);
}

#[test]
fn test_wal_reopen_preserves_entries() {
    let mut sentinel = Sentinel::open_region(fresh_region(1024 * 1024));
    sentinel.append(journal_msg_type::NEW_ORDER, b"entry1", 1).unwrap();
    sentinel.append(journal_msg_type::NEW_ORDER, b"entry2", 2).unwrap();
    let sentinel = reopen(sentinel);
    assert_eq!(sentinel.entry_count(), 2);
    let entries = sentinel.read_all_entries();
    assert_eq!(entries.len(), 2);
    assert_eq!(&entries[0].payload, b"entry1");
    assert_eq!(&entries[1].payload, b"entry2");
}

#[test]
fn test_wal_reopen_appends_after_existing() {
    let mut sentinel = Sentinel::open_region(fresh_region(1024 * 1024));
    sentinel.append(journal_msg_type::NEW_ORDER, b"a", 1).unwrap();
    sentinel.append(journal_msg_type::NEW_ORDER, b"b", 2).unwrap();
    let mut sentinel = reopen(sentinel);
    sentinel.append(journal_msg_type::NEW_ORDER, b"c", 3).unwrap();
    let entries = sentinel.read_all_entries();
    assert_eq!(entries.len(), 3);
    assert_eq!(&entries[2].payload, b"c");
}

#[test]
fn test_wal_reset() {
    let mut sentinel = Sentinel::open_region(fresh_region(1024 * 1024));
    sentinel.append(journal_msg_type::NEW_ORDER, b"data", 1).unwrap();
    sentinel.reset();
    assert_eq!(sentinel.entry_count(), 0);
    assert_eq!(sentinel.write_pos(), 0);
    let entries = sentinel.read_all_entries();
    assert_eq!(entries.len(), 0);
}

#[test]
fn test_exchange_full_pipeline() {
    let mut exchange = NexusExchange::new();
    exchange.add_funds(1, price(10_000));
    exchange.add_funds(2, price(10_000));
    let r1 = exchange.submit_order(1, Side::Sell, price(100), 10).unwrap();
    assert_eq!(r1.match_result.fills.len(), 0);
    assert_eq!(r1.match_result.resting_qty, 10);
    let r2 = exchange.submit_order(2, Side::Buy, price(100), 10).unwrap();
    assert_eq!(r2.match_result.fills.len(), 1);
    assert_eq!(r2.match_result.fills[0].qty, 10);
}

#[test]
fn test_exchange_risk_rejection() {
    let mut exchange = NexusExchange::new();
    exchange.add_funds(1, price(100));
    let result = exchange.submit_order(1, Side::Buy, price(100), 11);
    assert!(result.is_err());
}

#[test]
fn test_recovery_reproduces_state() {
    let mut exchange = NexusExchange::with_sentinel(Sentinel::open_region(fresh_region(1024 * 1024)));
    exchange.add_funds(1, price(100_000));
    exchange.add_funds(2, price(100_000));
    exchange.submit_order(1, Side::Sell, price(100), 50).unwrap();
    exchange.submit_order(1, Side::Sell, price(101), 30).unwrap();
    let r = exchange.submit_order(2, Side::Buy, price(101), 60).unwrap();
    let fills_before: Vec<(i64, u32)> = r.match_result.fills.iter().map(|f| (f.price, f.qty)).collect();
    let (bids, asks) = exchange.l2_snapshot(10);
    let book_state_before = (bids.len(), asks.len());
    let region = exchange.sentinel.take().unwrap().into_region();

    let mut exchange2 = NexusExchange::with_sentinel(Sentinel::open_region(region));
    exchange2.add_funds(1, price(100_000));
    exchange2.add_funds(2, price(100_000));
    let recovered_count = exchange2.recover_from_wal();
    assert_eq!(recovered_count, 3);
    let (bids, asks) = exchange2.l2_snapshot(10);
    assert_eq!((bids.len(), asks.len()), book_state_before);

    assert_eq!(fills_before.len(), 2);
    assert_eq!(fills_before[0], (price(100), 50));
    assert_eq!(fills_before[1], (price(101), 10));
}

#[test]
fn test_serialize_deserialize_order() {
    let payload = NexusExchange::serialize_order(42, Side::Buy, price(99), 100);
    assert_eq!(payload.len(), 17);
    let (tid, side, p, q) = NexusExchange::deserialize_order(&payload).unwrap();
    assert_eq!(tid, 42);
    assert_eq!(side, Side::Buy);
    assert_eq!(p, price(99));
    assert_eq!(q, 100);
}

#[test]
fn payload_layout_is_little_endian() {
    let payload = NexusExchange::serialize_order(0x0102_0304, Side::Sell, -2, 7);
    assert_eq!(payload, vec![4, 3, 2, 1, 2, 0xfe, 0xff, 0xff, 0xff, 0xff, 0xff, 0xff, 0xff, 7, 0, 0, 0]);
    assert_eq!(NexusExchange::deserialize_order(&payload), Some((0x0102_0304, Side::Sell, -2, 7)));
    assert_eq!(NexusExchange::deserialize_order(&payload[..16].to_vec()), None);
    let mut bad = payload.clone();
    bad[4] = 9;
    assert_eq!(NexusExchange::deserialize_order(&bad), None);
}

#[test]
fn wal_header_bytes_are_packed_little_endian() {
    let mut sentinel = Sentinel::open_region(fresh_region(4096));
    sentinel.append(journal_msg_type::ADD_FUNDS, b"xy", 0x0a0b).unwrap();
    assert_eq!(sentinel.write_pos(), 27);
    let bytes = sentinel.region();
    assert_eq!(&bytes[0..8], &[0u8; 8]);
    assert_eq!(&bytes[8..16], &[0x0b, 0x0a, 0, 0, 0, 0, 0, 0]);
    assert_eq!(bytes[16], journal_msg_type::ADD_FUNDS);
    assert_eq!(&bytes[17..21], &[2, 0, 0, 0]);
    assert_eq!(&bytes[21..25], &crc32fast::hash(b"xy").to_le_bytes());
    assert_eq!(&bytes[25..27], b"xy");
}

#[test]
fn wal_refuses_what_it_cannot_hold() {
    let mut sentinel = Sentinel::open_region(fresh_region(60));
    assert_eq!(sentinel.append(0, b"x", 1), Err(WalError::ReservedMessageType));
    assert_eq!(sentinel.append(journal_msg_type::NEW_ORDER, &[1u8; 36], 1), Err(WalError::CapacityExhausted));
    assert_eq!(sentinel.append(journal_msg_type::NEW_ORDER, &[1u8; 35], 1), Ok(0));
    assert_eq!(sentinel.append(journal_msg_type::NEW_ORDER, b"", 2), Err(WalError::CapacityExhausted));
    assert_eq!(sentinel.entry_count(), 1);
}

#[test]
fn wal_scan_stops_at_corruption() {
    let mut sentinel = Sentinel::open_region(fresh_region(4096));
    sentinel.append(journal_msg_type::NEW_ORDER, b"one", 1).unwrap();
    sentinel.append(journal_msg_type::NEW_ORDER, b"two", 2).unwrap();
    sentinel.append(journal_msg_type::NEW_ORDER, b"three", 3).unwrap();
    let mut region = sentinel.into_region();
    region[28 + 25] ^= 0xff;
    let mut sentinel = Sentinel::open_region(region);
    assert_eq!(sentinel.entry_count(), 1);
    assert_eq!(sentinel.write_pos(), 28);
    sentinel.append(journal_msg_type::NEW_ORDER, b"TWO", 4).unwrap();
    let sentinel = reopen(sentinel);
    let entries = sentinel.read_all_entries();
    assert_eq!(entries.len(), 2);
    assert_eq!(&entries[1].payload, b"TWO");
}

#[test]
fn exchange_journal_full_is_reported() {
    let mut exchange = NexusExchange::with_sentinel(Sentinel::open_region(fresh_region(50)));
    exchange.add_funds(1, price(1_000));
    assert!(exchange.submit_order(1, Side::Buy, price(10), 1).is_ok());
    match exchange.submit_order(1, Side::Buy, price(10), 1) {
        Err(ExchangeError::WalError(WalError::CapacityExhausted)) => {}
        other => panic!("Expected WalError, got {:?}", other),
    }
}

#[test]
fn partial_fill_price_improvement_then_cancel() {
    let mut exchange = NexusExchange::new();
    exchange.add_funds(1, price(10_000));
    exchange.add_funds(2, price(10_000));
    exchange.submit_order(2, Side::Sell, price(98), 6).unwrap();
    let r = exchange.submit_order(1, Side::Buy, price(100), 10).unwrap();
    assert_eq!(r.match_result.fills.len(), 1);
    assert_eq!(r.match_result.fills[0].price, price(98));
    assert_eq!(r.match_result.fills[0].qty, 6);
    assert_eq!(r.match_result.resting_qty, 4);
    let acc = exchange.guardian.get_account(1).unwrap();
    assert_eq!(acc.available_balance, price(9_012));
    assert_eq!(acc.locked_margin, price(400));
    assert!(exchange.guardian.unlock_margin(1, price(100), 4));
    let acc = exchange.guardian.get_account(1).unwrap();
    assert_eq!(acc.available_balance, price(9_412));
    assert_eq!(acc.locked_margin, 0);
    assert_eq!(acc.position(0), 6);
    let seller = exchange.guardian.get_account(2).unwrap();
    assert_eq!(seller.locked_margin, 0);
    assert_eq!(seller.available_balance, price(10_000) + price(588));
    assert_eq!(seller.position(0), -6);
}

#[test]
fn engine_rejection_releases_the_lock() {
    let mut exchange = NexusExchange::new();
    exchange.add_funds(1, price(10_000));
    exchange.add_funds(2, price(10_000));
    exchange.submit_order(1, Side::Sell, price(100), 1).unwrap();
    exchange.submit_order(2, Side::Buy, price(100), 1).unwrap();
    exchange.guardian.set_volatility_band_pct_scaled(100_000_000);
    match exchange.submit_order(2, Side::Buy, price(170), 1) {
        Err(ExchangeError::MatchRejected(_)) => {}
        other => panic!("Expected MatchRejected, got {:?}", other),
    }
    let acc = exchange.guardian.get_account(2).unwrap();
    assert_eq!(acc.locked_margin, 0);
    assert_eq!(acc.available_balance, price(9_900));
}

#[test]
fn wal_recovery_reproduces_book_and_accounts() {
    let mut live = NexusExchange::with_sentinel(Sentinel::open_region(fresh_region(1 << 16)));
    live.add_funds(1, price(10_000));
    live.add_funds(2, price(10_000));
    live.submit_order(1, Side::Sell, price(100), 50).unwrap();
    live.submit_order(2, Side::Buy, price(100), 30).unwrap();
    let live_l2 = live.l2_snapshot(10);
    let region = live.sentinel.take().unwrap().into_region();

    let mut replay = NexusExchange::with_sentinel(Sentinel::open_region(region));
    replay.add_funds(1, price(10_000));
    replay.add_funds(2, price(10_000));
    assert_eq!(replay.recover_from_wal(), 2);
    assert_eq!(replay.l2_snapshot(10), live_l2);
    for t in [1u32, 2] {
        let a = live.guardian.get_account(t).unwrap();
        let b = replay.guardian.get_account(t).unwrap();
        assert_eq!(a.available_balance, b.available_balance);
        assert_eq!(a.locked_margin, b.locked_margin);
        assert_eq!(a.positions, b.positions);
    }
}

#[test]
fn recovery_replays_deposits() {
    let mut sentinel = Sentinel::open_region(fresh_region(4096));
    let mut payload = 9u32.to_le_bytes().to_vec();
    payload.extend_from_slice(&price(500).to_le_bytes());
    sentinel.append(journal_msg_type::ADD_FUNDS, &payload, 1).unwrap();
    let order = NexusExchange::serialize_order(9, Side::Buy, price(10), 3);
    sentinel.append(journal_msg_type::NEW_ORDER, &order, 2).unwrap();
    let mut exchange = NexusExchange::with_sentinel(sentinel);
    assert_eq!(exchange.recover_from_wal(), 2);
    let acc = exchange.guardian.get_account(9).unwrap();
    assert_eq!(acc.available_balance, price(470));
    assert_eq!(acc.locked_margin, price(30));
    assert_eq!(exchange.l2_snapshot(5).0[0].qty, 3);
}

#[test]
fn cancel_on_disconnect_returns_ids_bids_first() {
    let mut exchange = NexusExchange::new();
    exchange.add_funds(1, price(10_000));
    exchange.submit_order(1, Side::Sell, price(105), 2).unwrap();
    exchange.submit_order(1, Side::Buy, price(100), 2).unwrap();
    exchange.ban_trader(1);
    assert!(exchange.guardian.is_banned(1));
    assert_eq!(exchange.cancel_on_disconnect(1), vec![2, 1]);
    assert_eq!(exchange.l2_snapshot(5), (vec![], vec![]));
}
