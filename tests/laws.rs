use memmap2::MmapMut;
use nexus_core::journal_msg_type;
use nexus_core::{JournalEntry, JournalHeader, MatchingEngine, NexusExchange, Sentinel, Side};

const S: i64 = 100_000_000;

fn run_session(engine: &mut MatchingEngine) -> Vec<(u64, u64, i64, u32)> {
    let orders = [
        (1u32, Side::Sell, 101 * S, 7u32),
        (2, Side::Sell, 100 * S, 5),
        (3, Side::Buy, 99 * S, 4),
        (1, Side::Buy, 101 * S, 9),
        (3, Side::Sell, 98 * S, 6),
        (2, Side::Buy, 100 * S, 3),
    ];
    let mut out = Vec::new();
    for (t, side, p, q) in orders {
        let r = engine.submit_order(t, side, p, q).unwrap();
        for f in &r.fills {
            out.push((f.maker_order_id, f.taker_order_id, f.price, f.qty));
        }
    }
    out
}

#[test]
fn identical_inputs_give_identical_fills_and_books() {
    let mut a = MatchingEngine::new();
    let mut b = MatchingEngine::new();
    assert_eq!(run_session(&mut a), run_session(&mut b));
    assert_eq!(a.l2_snapshot(10), b.l2_snapshot(10));
    assert_eq!(a.book.next_order_id, b.book.next_order_id);
    assert_eq!(a.book.last_trade_price, b.book.last_trade_price);
}

#[test]
fn totals_match_resting_orders() {
    let mut e = MatchingEngine::new();
    run_session(&mut e);
    let (bids, asks) = e.l2_snapshot(100);
    assert_eq!(bids.iter().map(|l| l.qty).sum::<u64>(), e.book.bids.total_qty);
    assert_eq!(asks.iter().map(|l| l.qty).sum::<u64>(), e.book.asks.total_qty);
    assert!(bids.iter().chain(asks.iter()).all(|l| l.order_count >= 1));
}

#[test]
fn journal_sequence_is_contiguous_with_valid_crcs() {
    let mut s = Sentinel::open_region(MmapMut::map_anon(1 << 12).unwrap());
    for (i, payload) in [&b"a"[..], b"bb", b"", b"dddd"].iter().enumerate() {
        assert_eq!(s.append(journal_msg_type::NEW_ORDER, payload, i as u64).unwrap(), i as u64);
    }
    let entries = s.read_all_entries();
    assert_eq!(entries.len() as u64, s.entry_count());
    for (i, e) in entries.iter().enumerate() {
        assert_eq!(e.header.sequence_number, i as u64);
        assert_eq!(e.header.crc32, crc32fast::hash(&e.payload));
        assert_eq!(e.header.payload_size as usize, e.payload.len());
    }
}

#[test]
fn replaying_an_entry_matches_the_live_submission() {
    let mut live = NexusExchange::new();
    let mut replay = NexusExchange::new();
    for x in [&mut live, &mut replay] {
        x.add_funds(1, 10_000 * S);
        x.add_funds(2, 10_000 * S);
        x.submit_order(1, Side::Sell, 100 * S, 8).unwrap();
    }
    let live_result = live.submit_order(2, Side::Buy, 100 * S, 5).unwrap().match_result;
    let entry = JournalEntry {
        header: JournalHeader { sequence_number: 0, timestamp_ns: 0, msg_type: journal_msg_type::NEW_ORDER, payload_size: 17, crc32: 0 },
        payload: NexusExchange::serialize_order(2, Side::Buy, 100 * S, 5),
    };
    let replayed = replay.replay_entry(&entry).unwrap().unwrap();
    assert_eq!(replayed.fills, live_result.fills);
    assert_eq!(replayed.order_id, live_result.order_id);
    assert_eq!(replay.l2_snapshot(10), live.l2_snapshot(10));
    for t in [1u32, 2] {
        let a = live.guardian.get_account(t).unwrap();
        let b = replay.guardian.get_account(t).unwrap();
        assert_eq!((a.available_balance, a.locked_margin), (b.available_balance, b.locked_margin));
        assert_eq!(a.positions, b.positions);
    }
}

#[test]
fn replay_skips_what_is_not_an_order() {
    let mut x = NexusExchange::new();
    let entry = JournalEntry {
        header: JournalHeader { sequence_number: 0, timestamp_ns: 0, msg_type: journal_msg_type::ADMIN_HALT, payload_size: 0, crc32: 0 },
        payload: vec![],
    };
    assert!(x.replay_entry(&entry).is_none());
    let short = JournalEntry {
        header: JournalHeader { sequence_number: 0, timestamp_ns: 0, msg_type: journal_msg_type::NEW_ORDER, payload_size: 3, crc32: 0 },
        payload: vec![1, 2, 3],
    };
    assert!(x.replay_entry(&short).is_none());
    assert_eq!(x.l2_snapshot(5), (vec![], vec![]));
}
