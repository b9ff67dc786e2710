use vstd::prelude::*;
use crate::codec::{le_bytes, le_value, push_le, read_le, lemma_le_bytes_len, lemma_le_round_trip, lemma_pow256_values};
use crate::journal::{EntryView, JournalEntry, JournalHeader, Sentinel, WalError, crc32_of, entry_view};
use crate::journal_msg_type;
use crate::matching::{
    EngineView, Fill, MatchResult, MatchingEngine, RejectReason, engine_view, last_after, lemma_submit_deterministic,
    lemma_submit_view, risk_verdict, submit_post, submit_view,
};
use crate::orderbook::{L2Level, LevelView, flatten, sum_qty};
use crate::risk::{
    AccountView, Guardian, GuardianConfig, GuardianReject, account_ok, account_updated, account_view, admission,
    deposit_view, ledger_of, lock_view, settle_view, unlock_view,
};
use crate::side::{Side, other_side, side_byte, side_of_byte};

verus! {

/// The result of an order that went through the pipeline.
#[derive(Debug)]
pub struct ExchangeResult {
    /// Journal sequence number of the order (0 without a journal).
    pub sequence_number: u64,
    pub match_result: MatchResult,
}

/// Why the pipeline refused an order.
#[derive(Debug, Clone, Copy, PartialEq, Eq, Structural)]
pub enum ExchangeError {
    RiskRejected(GuardianReject),
    WalError(WalError),
    MatchRejected(RejectReason),
}

/// The 17-byte journal payload of a new order:
/// `[4: trader_id][1: side][8: price][4: qty]`, little-endian.
pub open spec fn order_payload(trader_id: u32, side: Side, price: i64, qty: u32) -> Seq<u8> {
    le_bytes(trader_id as nat, 4) + seq![side_byte(side)] + le_bytes(price as u64 as nat, 8) + le_bytes(qty as nat, 4)
}

/// The order that a payload carries: at least 17 bytes, of which the fifth
/// is a side byte.
pub open spec fn order_of_payload(p: Seq<u8>) -> Option<(u32, Side, i64, u32)> {
    if p.len() < 17 || side_of_byte(p[4]) is None {
        None
    } else {
        Some(
            (
                le_value(p.subrange(0, 4)) as u32,
                side_of_byte(p[4])->0,
                le_value(p.subrange(5, 13)) as u64 as i64,
                le_value(p.subrange(13, 17)) as u32,
            ),
        )
    }
}

/// Encoding an order and reading it back gives the order.
pub proof fn lemma_order_payload_round_trip(trader_id: u32, side: Side, price: i64, qty: u32)
    ensures
        order_payload(trader_id, side, price, qty).len() == 17,
        order_of_payload(order_payload(trader_id, side, price, qty)) == Some((trader_id, side, price, qty)),
{
    lemma_pow256_values();
    lemma_le_bytes_len(trader_id as nat, 4);
    lemma_le_bytes_len(price as u64 as nat, 8);
    lemma_le_bytes_len(qty as nat, 4);
    lemma_le_round_trip(trader_id as nat, 4);
    lemma_le_round_trip(price as u64 as nat, 8);
    lemma_le_round_trip(qty as nat, 4);
    let p = order_payload(trader_id, side, price, qty);
    assert(p.subrange(0, 4) =~= le_bytes(trader_id as nat, 4));
    assert(p.subrange(5, 13) =~= le_bytes(price as u64 as nat, 8));
    assert(p.subrange(13, 17) =~= le_bytes(qty as nat, 4));
    assert(p[4] == side_byte(side));
    assert(((price as u64) as i64) == price) by (bit_vector);
}

/// The single-instrument exchange: journal first, then risk, matching and
/// settlement.
pub struct NexusExchange {
    pub engine: MatchingEngine,
    pub guardian: Guardian,
    pub sentinel: Option<Sentinel>,
    pub symbol_id: u32,
    pub ts_counter: u64,
}

/// Accounts in `a` and `b` hold the same balances, positions and PnL.
pub open spec fn same_ledger(a: Map<u32, crate::risk::Account>, b: Map<u32, crate::risk::Account>) -> bool {
    &&& a.dom() == b.dom()
    &&& forall|t: u32| #[trigger] a.contains_key(t) ==> {
        &&& a[t].available_balance == b[t].available_balance
        &&& a[t].locked_margin == b[t].locked_margin
        &&& a[t].positions@ == b[t].positions@
        &&& a[t].realized_pnl == b[t].realized_pnl
    }
}

impl NexusExchange {
    pub open spec fn wf(&self) -> bool {
        &&& self.engine.wf()
        &&& self.guardian.wf()
        &&& (self.sentinel matches Some(s) ==> s.wf())
    }

    /// Room in every counter for one more order of `qty`.
    pub open spec fn can_accept(&self, qty: u32) -> bool {
        &&& self.engine.can_accept(qty)
        &&& self.ts_counter < u64::MAX
    }

    /// An exchange without a journal.
    pub fn new() -> (r: NexusExchange)
        ensures
            r.wf(),
            r.sentinel is None,
            r.symbol_id == 0,
            r.ts_counter == 0,
            r.engine.book.bids.orders().len() == 0,
            r.engine.book.asks.orders().len() == 0,
            r.guardian.accounts() == Map::<u32, crate::risk::Account>::empty(),
    {
        NexusExchange { engine: MatchingEngine::new(), guardian: Guardian::new(), sentinel: None, symbol_id: 0, ts_counter: 0 }
    }

    /// An exchange that journals to `sentinel`.
    pub fn with_sentinel(sentinel: Sentinel) -> (r: NexusExchange)
        requires
            sentinel.wf(),
        ensures
            r.wf(),
            r.sentinel == Some(sentinel),
            r.symbol_id == 0,
            r.ts_counter == 0,
            r.engine.book.bids.orders().len() == 0,
            r.engine.book.asks.orders().len() == 0,
            r.guardian.accounts() == Map::<u32, crate::risk::Account>::empty(),
    {
        NexusExchange {
            engine: MatchingEngine::new(),
            guardian: Guardian::new(),
            sentinel: Some(sentinel),
            symbol_id: 0,
            ts_counter: 0,
        }
    }

    fn tick(&mut self) -> (r: u64)
        requires
            old(self).ts_counter < u64::MAX,
        ensures
            r == old(self).ts_counter + 1,
            final(self).ts_counter == r,
            final(self).engine == old(self).engine,
            final(self).guardian == old(self).guardian,
            final(self).sentinel == old(self).sentinel,
            final(self).symbol_id == old(self).symbol_id,
    {
        self.ts_counter = self.ts_counter + 1;
        self.ts_counter
    }

    /// Creates or tops up an account; see `Guardian::add_funds`.
    pub fn add_funds(&mut self, trader_id: u32, amount: i64) -> (r: bool)
        requires
            old(self).wf(),
        ensures
            final(self).wf(),
            final(self).guardian.banned() == old(self).guardian.banned(),
            final(self).guardian.reference() == old(self).guardian.reference(),
            final(self).guardian.cfg() == old(self).guardian.cfg(),
            ({
                let g = old(self).guardian.accounts();
                let had = g.contains_key(trader_id);
                let av: int = if had { g[trader_id].available_balance as int } else { 0 };
                let lk: int = if had { g[trader_id].locked_margin as int } else { 0 };
                let pos = if had { g[trader_id].positions@ } else { Map::<u32, i64>::empty() };
                &&& r == account_ok(av + amount, lk)
                &&& r ==> account_updated(g, final(self).guardian.accounts(), trader_id, av + amount, lk, pos)
                &&& !r ==> final(self).guardian.accounts() == g
            }),
            ledger_of(final(self).guardian.accounts()) == deposit_view(ledger_of(old(self).guardian.accounts()), trader_id, amount),
            final(self).engine == old(self).engine,
            final(self).sentinel == old(self).sentinel,
            final(self).symbol_id == old(self).symbol_id,
            final(self).ts_counter == old(self).ts_counter,
    {
        self.guardian.add_funds(trader_id, amount)
    }

    /// The journal payload of a new order.
    pub fn serialize_order(trader_id: u32, side: Side, price: i64, qty: u32) -> (r: Vec<u8>)
        ensures
            r@ == order_payload(trader_id, side, price, qty),
    {
        let mut buf: Vec<u8> = Vec::new();
        push_le(&mut buf, trader_id as u64, 4);
        buf.push(side.as_u8());
        push_le(&mut buf, price as u64, 8);
        push_le(&mut buf, qty as u64, 4);
        assert(buf@ =~= order_payload(trader_id, side, price, qty));
        buf
    }

    /// The order a journal payload carries, if any.
    pub fn deserialize_order(payload: &Vec<u8>) -> (r: Option<(u32, Side, i64, u32)>)
        ensures
            r == order_of_payload(payload@),
    {
        if payload.len() < 17 {
            return None;
        }
        let side = match Side::from_u8(payload[4]) {
            Ok(s) => s,
            Err(_) => {
                return None;
            },
        };
        proof {
            lemma_pow256_values();
            crate::codec::lemma_le_value_bound(payload@.subrange(0, 4));
            crate::codec::lemma_le_value_bound(payload@.subrange(13, 17));
        }
        let trader_id = read_le(payload, 0, 4) as u32;
        let price = read_le(payload, 5, 8) as i64;
        let qty = read_le(payload, 13, 4) as u32;
        Some((trader_id, side, price, qty))
    }

    /// Kill switch for one trader.
    pub fn ban_trader(&mut self, trader_id: u32)
        requires
            old(self).wf(),
        ensures
            final(self).wf(),
            final(self).guardian.banned() == old(self).guardian.banned().insert(trader_id),
            final(self).engine == old(self).engine,
            final(self).sentinel == old(self).sentinel,
    {
        self.guardian.ban_trader(trader_id);
    }

    /// Cancels every resting order of a disconnected trader; see
    /// `MatchingEngine::cancel_all_for_trader`. The margin those orders
    /// locked stays locked until released with `Guardian::unlock_margin`.
    pub fn cancel_on_disconnect(&mut self, trader_id: u32) -> (r: Vec<u64>)
        requires
            old(self).wf(),
        ensures
            final(self).wf(),
            r@ == old(self).engine.book.bids.orders().filter(crate::orderbook::of_trader(trader_id)).map_values(
                |o: crate::orderbook::Order| crate::orderbook::order_id_of(o),
            ) + old(self).engine.book.asks.orders().filter(crate::orderbook::of_trader(trader_id)).map_values(
                |o: crate::orderbook::Order| crate::orderbook::order_id_of(o),
            ),
            final(self).engine.book.bids.orders() == old(self).engine.book.bids.orders().filter(
                crate::orderbook::not_of_trader(trader_id),
            ),
            final(self).engine.book.asks.orders() == old(self).engine.book.asks.orders().filter(
                crate::orderbook::not_of_trader(trader_id),
            ),
            final(self).guardian == old(self).guardian,
            final(self).sentinel == old(self).sentinel,
    {
        self.engine.cancel_all_for_trader(trader_id)
    }

    /// L2 snapshot of the book: (bids, asks), best first.
    pub fn l2_snapshot(&self, depth: usize) -> (r: (Vec<L2Level>, Vec<L2Level>))
        requires
            self.wf(),
        ensures
            crate::orderbook::snapshot_of(r.0@, self.engine.book.bids.view_levels(), depth),
            crate::orderbook::snapshot_of(r.1@, self.engine.book.asks.view_levels(), depth),
    {
        self.engine.l2_snapshot(depth)
    }
}


/// What the Guardian holds, as the contracts see it: the ledger, the banned
/// traders, the band's reference price and the configuration.
pub open spec fn guard_view(g: Guardian) -> (Map<u32, AccountView>, Set<u32>, Option<i64>, GuardianConfig) {
    (ledger_of(g.accounts()), g.banned(), g.reference(), g.cfg())
}

/// The ledger after settling every fill in order: first the taker at its
/// limit, then the maker at the fill price.
pub open spec fn settle_fills_view(
    l: Map<u32, AccountView>,
    fills: Seq<Fill>,
    taker: u32,
    side: Side,
    price: i64,
    symbol_id: u32,
) -> Map<u32, AccountView>
    decreases fills.len(),
{
    if fills.len() == 0 {
        l
    } else {
        let l1 = settle_fills_view(l, fills.drop_last(), taker, side, price, symbol_id);
        let f = fills.last();
        settle_view(
            settle_view(l1, taker, side, price, f.price, f.qty, symbol_id),
            f.maker_trader_id,
            other_side(side),
            f.price,
            f.price,
            f.qty,
            symbol_id,
        )
    }
}

/// What processing an order does, from the engine and Guardian before
/// (`e0`, `g0`) to after (`e1`, `g1`) with result `r`: the Guardian's
/// admission checks and margin lock first; then the engine's own checks, a
/// refusal there releasing the lock; then matching as `submit_post`
/// describes, each fill settled for both sides and its price becoming the
/// band's reference.
pub open spec fn process_post(
    e0: MatchingEngine,
    g0: Guardian,
    e1: MatchingEngine,
    g1: Guardian,
    trader_id: u32,
    side: Side,
    price: i64,
    qty: u32,
    symbol_id: u32,
    r: Result<MatchResult, ExchangeError>,
) -> bool {
    let adm = admission(
        g0.banned().contains(trader_id),
        g0.cfg(),
        g0.reference(),
        if g0.accounts().contains_key(trader_id) { Some(account_view(g0.accounts()[trader_id])) } else { None },
        trader_id,
        side,
        price,
        qty,
        symbol_id,
    );
    let v = risk_verdict(e0.config(), e0.book.last_trade_price, price, qty);
    let l0 = ledger_of(g0.accounts());
    &&& e1.wf()
    &&& g1.banned() == g0.banned()
    &&& g1.cfg() == g0.cfg()
    &&& if adm is Err {
        &&& r == Err::<MatchResult, ExchangeError>(ExchangeError::RiskRejected(adm->Err_0))
        &&& engine_view(e1) == engine_view(e0)
        &&& guard_view(g1) == guard_view(g0)
    } else if v is Err {
        &&& r == Err::<MatchResult, ExchangeError>(ExchangeError::MatchRejected(v->Err_0))
        &&& engine_view(e1) == engine_view(e0)
        &&& ledger_of(g1.accounts()) == unlock_view(lock_view(l0, trader_id, adm->Ok_0), trader_id, price, qty)
        &&& g1.reference() == g0.reference()
    } else {
        &&& r matches Ok(m)
        &&& submit_post(e0, e1, trader_id, side, price, qty, Ok(m))
        &&& ledger_of(g1.accounts()) == settle_fills_view(
            lock_view(l0, trader_id, adm->Ok_0),
            m.fills@,
            trader_id,
            side,
            price,
            symbol_id,
        )
        &&& g1.reference() == last_after(m.fills@, g0.reference())
    }
}

/// What the caller observes of a processed order.
pub open spec fn outcome_view(r: Result<MatchResult, ExchangeError>) -> Result<(u64, Seq<Fill>, Seq<u64>, u32), ExchangeError> {
    match r {
        Ok(m) => Ok((m.order_id, m.fills@, m.stp_cancels@, m.resting_qty)),
        Err(e) => Err(e),
    }
}

/// Determinism of the pipeline: the same order processed from two states
/// that look the same leaves them looking the same, with the same outcome.
pub proof fn lemma_process_deterministic(
    e0: MatchingEngine,
    g0: Guardian,
    e1: MatchingEngine,
    g1: Guardian,
    r1: Result<MatchResult, ExchangeError>,
    f0: MatchingEngine,
    h0: Guardian,
    f1: MatchingEngine,
    h1: Guardian,
    r2: Result<MatchResult, ExchangeError>,
    trader_id: u32,
    side: Side,
    price: i64,
    qty: u32,
    symbol_id: u32,
)
    requires
        e0.wf(),
        f0.wf(),
        engine_view(e0) == engine_view(f0),
        guard_view(g0) == guard_view(h0),
        process_post(e0, g0, e1, g1, trader_id, side, price, qty, symbol_id, r1),
        process_post(f0, h0, f1, h1, trader_id, side, price, qty, symbol_id, r2),
    ensures
        engine_view(e1) == engine_view(f1),
        guard_view(g1) == guard_view(h1),
        outcome_view(r1) == outcome_view(r2),
{
    let l0 = ledger_of(g0.accounts());
    assert(ledger_of(h0.accounts()) == l0);
    assert(g0.accounts().contains_key(trader_id) == h0.accounts().contains_key(trader_id)) by {
        assert(l0.dom() == g0.accounts().dom());
        assert(ledger_of(h0.accounts()).dom() == h0.accounts().dom());
    }
    if g0.accounts().contains_key(trader_id) {
        assert(l0[trader_id] == account_view(g0.accounts()[trader_id]));
        assert(ledger_of(h0.accounts())[trader_id] == account_view(h0.accounts()[trader_id]));
    }
    let v = risk_verdict(e0.config(), e0.book.last_trade_price, price, qty);
    if r1 is Ok {
        if r2 is Ok {
            lemma_submit_deterministic(e0, e1, Ok(r1->Ok_0), f0, f1, Ok(r2->Ok_0), trader_id, side, price, qty);
        }
    }
}

/// Recovery reproduces live execution: an order journaled live, read back
/// from its payload and processed again from a state that looks like the
/// live state before it, leaves the same state and outcome as live.
pub proof fn lemma_replay_reproduces_live(
    e0: MatchingEngine,
    g0: Guardian,
    e1: MatchingEngine,
    g1: Guardian,
    r1: Result<MatchResult, ExchangeError>,
    f0: MatchingEngine,
    h0: Guardian,
    f1: MatchingEngine,
    h1: Guardian,
    r2: Result<MatchResult, ExchangeError>,
    trader_id: u32,
    side: Side,
    price: i64,
    qty: u32,
    symbol_id: u32,
)
    requires
        e0.wf(),
        f0.wf(),
        engine_view(e0) == engine_view(f0),
        guard_view(g0) == guard_view(h0),
        process_post(e0, g0, e1, g1, trader_id, side, price, qty, symbol_id, r1),
        order_of_payload(order_payload(trader_id, side, price, qty)) matches Some(o) && process_post(
            f0,
            h0,
            f1,
            h1,
            o.0,
            o.1,
            o.2,
            o.3,
            symbol_id,
            r2,
        ),
    ensures
        engine_view(e1) == engine_view(f1),
        guard_view(g1) == guard_view(h1),
        outcome_view(r1) == outcome_view(r2),
{
    lemma_order_payload_round_trip(trader_id, side, price, qty);
    lemma_process_deterministic(e0, g0, e1, g1, r1, f0, h0, f1, h1, r2, trader_id, side, price, qty, symbol_id);
}

impl NexusExchange {
    /// Guard, match and settle one order, without journaling it. For every
    /// fill the taker settles at its limit and the maker at the fill price,
    /// and the fill price becomes the Guardian's reference price.
    fn process_order(&mut self, trader_id: u32, side: Side, price: i64, qty: u32) -> (r: Result<MatchResult, ExchangeError>)
        requires
            old(self).wf(),
            old(self).engine.can_accept(qty),
        ensures
            final(self).wf(),
            final(self).sentinel == old(self).sentinel,
            final(self).symbol_id == old(self).symbol_id,
            final(self).ts_counter == old(self).ts_counter,
            final(self).engine.config() == old(self).engine.config(),
            final(self).guardian.wf(),
            process_post(
                old(self).engine,
                old(self).guardian,
                final(self).engine,
                final(self).guardian,
                trader_id,
                side,
                price,
                qty,
                old(self).symbol_id,
                r,
            ),
    {
        let ghost g0 = self.guardian.accounts();
        let locked = match self.guardian.validate_and_lock(trader_id, side, price, qty, self.symbol_id) {
            Err(e) => {
                return Err(ExchangeError::RiskRejected(e));
            },
            Ok(amount) => amount,
        };
        let ghost g1 = self.guardian.accounts();
        let result = match self.engine.submit_order(trader_id, side, price, qty) {
            Err(e) => {
                proof {
                    old(self).guardian.lemma_accounts_ok(trader_id);
                    assert(price > 0 && qty > 0);
                    assert(crate::risk::notional(price as int, qty as int) >= 0) by (nonlinear_arith)
                        requires
                            price > 0,
                            qty > 0,
                    ;
                }
                let released = self.guardian.unlock_margin(trader_id, price, qty);
                proof {
                    assert(released);
                    let g2 = self.guardian.accounts();
                    assert forall|t: u32| #[trigger] g2.contains_key(t) implies {
                        &&& g2[t].available_balance == g0[t].available_balance
                        &&& g2[t].locked_margin == g0[t].locked_margin
                        &&& g2[t].positions@ == g0[t].positions@
                        &&& g2[t].realized_pnl == g0[t].realized_pnl
                    } by {
                        if t != trader_id {
                            assert(g1.contains_key(t));
                        }
                    }
                    assert(g2.dom() =~= g0.dom());
                }
                return Err(ExchangeError::MatchRejected(e));
            },
            Ok(res) => res,
        };
        let ghost e1 = self.engine;
        let ghost l1 = ledger_of(self.guardian.accounts());
        let ghost ref0 = self.guardian.reference();
        let opposite = side.opposite();
        let mut i: usize = 0;
        assert(result.fills@.subrange(0, 0) =~= Seq::<Fill>::empty());
        while i < result.fills.len()
            invariant
                self.guardian.wf(),
                self.engine == e1,
                self.sentinel == old(self).sentinel,
                self.symbol_id == old(self).symbol_id,
                self.ts_counter == old(self).ts_counter,
                i <= result.fills@.len(),
                self.guardian.banned() == old(self).guardian.banned(),
                self.guardian.cfg() == old(self).guardian.cfg(),
                ledger_of(self.guardian.accounts()) == settle_fills_view(
                    l1,
                    result.fills@.subrange(0, i as int),
                    trader_id,
                    side,
                    price,
                    self.symbol_id,
                ),
                self.guardian.reference() == last_after(result.fills@.subrange(0, i as int), ref0),
                opposite == other_side(side),
            decreases result.fills@.len() - i,
        {
            let fill = result.fills[i];
            proof {
                let pre = result.fills@.subrange(0, i as int);
                let next = result.fills@.subrange(0, i as int + 1);
                assert(next.drop_last() =~= pre);
                assert(next.last() == fill);
            }
            let ghost la = ledger_of(self.guardian.accounts());
            self.guardian.settle_fill_v2(trader_id, side, price, fill.price, fill.qty, self.symbol_id);
            let ghost lb = ledger_of(self.guardian.accounts());
            assert(lb == settle_view(la, trader_id, side, price, fill.price, fill.qty, self.symbol_id));
            self.guardian.settle_fill_v2(fill.maker_trader_id, opposite, fill.price, fill.price, fill.qty, self.symbol_id);
            self.guardian.set_reference_price(fill.price);
            proof {
                let next = result.fills@.subrange(0, i as int + 1);
                assert(settle_fills_view(l1, next, trader_id, side, price, self.symbol_id) == settle_view(
                    settle_view(la, trader_id, side, price, fill.price, fill.qty, self.symbol_id),
                    fill.maker_trader_id,
                    other_side(side),
                    fill.price,
                    fill.price,
                    fill.qty,
                    self.symbol_id,
                ));
            }
            i = i + 1;
        }
        assert(result.fills@.subrange(0, result.fills@.len() as int) =~= result.fills@);
        Ok(result)
    }

    /// Submits an order through the pipeline: tick, journal (when there is a
    /// journal), guard, match, settle.
    pub fn submit_order(&mut self, trader_id: u32, side: Side, price: i64, qty: u32) -> (r: Result<ExchangeResult, ExchangeError>)
        requires
            old(self).wf(),
            old(self).can_accept(qty),
        ensures
            final(self).wf(),
            final(self).ts_counter == old(self).ts_counter + 1,
            final(self).symbol_id == old(self).symbol_id,
            old(self).sentinel is None ==> final(self).sentinel is None,
            old(self).sentinel matches Some(s) ==> {
                let room = s.spec_write_pos() + 25 + 17 <= s.spec_capacity();
                &&& final(self).sentinel matches Some(s1)
                &&& !room ==> {
                    &&& r == Err::<ExchangeResult, ExchangeError>(ExchangeError::WalError(WalError::CapacityExhausted))
                    &&& s1.entries() == s.entries()
                    &&& final(self).engine == old(self).engine
                    &&& final(self).guardian == old(self).guardian
                }
                &&& room ==> {
                    &&& s1.entries() == s.entries().push(
                        (
                            JournalHeader {
                                sequence_number: s.spec_next_seq(),
                                timestamp_ns: (old(self).ts_counter + 1) as u64,
                                msg_type: journal_msg_type::NEW_ORDER,
                                payload_size: 17,
                                crc32: crc32_of(order_payload(trader_id, side, price, qty)),
                            },
                            order_payload(trader_id, side, price, qty),
                        ),
                    )
                    &&& r matches Ok(res) ==> res.sequence_number == s.spec_next_seq()
                }
            },
            (old(self).sentinel is None || old(self).sentinel->0.spec_write_pos() + 25 + 17 <= old(self).sentinel->0.spec_capacity())
                ==> process_post(
                old(self).engine,
                old(self).guardian,
                final(self).engine,
                final(self).guardian,
                trader_id,
                side,
                price,
                qty,
                old(self).symbol_id,
                match r {
                    Ok(res) => Ok(res.match_result),
                    Err(e) => Err(e),
                },
            ),
            old(self).sentinel is None ==> (r matches Ok(res) ==> res.sequence_number == 0),
            (old(self).sentinel is None || old(self).sentinel->0.spec_write_pos() + 25 + 17 <= old(self).sentinel->0.spec_capacity())
                ==> (engine_view(final(self).engine), guard_view(final(self).guardian)) == process_view(
                engine_view(old(self).engine),
                guard_view(old(self).guardian),
                trader_id,
                side,
                price,
                qty,
                old(self).symbol_id,
            ),
    {
        let ts = self.tick();
        let seq = match &mut self.sentinel {
            Some(s) => {
                let payload = Self::serialize_order(trader_id, side, price, qty);
                proof { lemma_order_payload_round_trip(trader_id, side, price, qty); }
                match s.append(journal_msg_type::NEW_ORDER, payload.as_slice(), ts) {
                    Err(e) => {
                        return Err(ExchangeError::WalError(e));
                    },
                    Ok(q) => q,
                }
            },
            None => 0,
        };
        let ghost e0 = self.engine;
        let ghost g0 = self.guardian;
        let res = self.process_order(trader_id, side, price, qty);
        proof {
            lemma_process_view(e0, g0, self.engine, self.guardian, trader_id, side, price, qty, self.symbol_id, res);
        }
        match res {
            Err(e) => Err(e),
            Ok(match_result) => Ok(ExchangeResult { sequence_number: seq, match_result }),
        }
    }
}


pub type GuardView = (Map<u32, AccountView>, Set<u32>, Option<i64>, GuardianConfig);

/// Processing an order as a function of what the engine and the Guardian
/// look like: admission and lock, the engine's checks (a refusal releasing
/// the lock), matching, and the settlement of every fill.
pub open spec fn process_view(
    ev: EngineView,
    gv: GuardView,
    trader_id: u32,
    side: Side,
    price: i64,
    qty: u32,
    symbol_id: u32,
) -> (EngineView, GuardView) {
    let adm = admission(
        gv.1.contains(trader_id),
        gv.3,
        gv.2,
        if gv.0.contains_key(trader_id) { Some(gv.0[trader_id]) } else { None },
        trader_id,
        side,
        price,
        qty,
        symbol_id,
    );
    if adm is Err {
        (ev, gv)
    } else {
        let l1 = lock_view(gv.0, trader_id, adm->Ok_0);
        let sv = submit_view(ev, trader_id, side, price, qty);
        if sv.1 is Err {
            (ev, (unlock_view(l1, trader_id, price, qty), gv.1, gv.2, gv.3))
        } else {
            let fills = (sv.1->Ok_0).1;
            (sv.0, (settle_fills_view(l1, fills, trader_id, side, price, symbol_id), gv.1, last_after(fills, gv.2), gv.3))
        }
    }
}

/// `process_post` fixes the engine and the Guardian as `process_view`
/// computes them.
pub proof fn lemma_process_view(
    e0: MatchingEngine,
    g0: Guardian,
    e1: MatchingEngine,
    g1: Guardian,
    trader_id: u32,
    side: Side,
    price: i64,
    qty: u32,
    symbol_id: u32,
    r: Result<MatchResult, ExchangeError>,
)
    requires
        e0.wf(),
        process_post(e0, g0, e1, g1, trader_id, side, price, qty, symbol_id, r),
    ensures
        (engine_view(e1), guard_view(g1)) == process_view(
            engine_view(e0),
            guard_view(g0),
            trader_id,
            side,
            price,
            qty,
            symbol_id,
        ),
{
    let l0 = ledger_of(g0.accounts());
    if g0.accounts().contains_key(trader_id) {
        assert(l0[trader_id] == account_view(g0.accounts()[trader_id]));
    }
    assert(l0.contains_key(trader_id) == g0.accounts().contains_key(trader_id));
    if r is Ok {
        lemma_submit_view(e0, e1, trader_id, side, price, qty, Ok(r->Ok_0));
    }
}

/// Room in the engine's counters and totals for an order of `qty`.
pub open spec fn can_accept_view(ev: EngineView, qty: u32) -> bool {
    &&& ev.4 < u64::MAX
    &&& ev.2 < u64::MAX
    &&& sum_qty(flatten(ev.0)) + qty <= u64::MAX
    &&& sum_qty(flatten(ev.1)) + qty <= u64::MAX
}

/// One journal entry applied as recovery applies it.
pub open spec fn replay_view(ev: EngineView, gv: GuardView, e: EntryView, symbol_id: u32) -> (EngineView, GuardView) {
    if e.0.msg_type == journal_msg_type::NEW_ORDER {
        match order_of_payload(e.1) {
            Some(o) => if can_accept_view(ev, o.3) {
                process_view(ev, gv, o.0, o.1, o.2, o.3, symbol_id)
            } else {
                (ev, gv)
            },
            None => (ev, gv),
        }
    } else if e.0.msg_type == journal_msg_type::ADD_FUNDS && e.1.len() >= 12 {
        (
            ev,
            (
                deposit_view(gv.0, le_value(e.1.subrange(0, 4)) as u32, le_value(e.1.subrange(4, 12)) as u64 as i64),
                gv.1,
                gv.2,
                gv.3,
            ),
        )
    } else {
        (ev, gv)
    }
}

/// Entries applied one after another.
pub open spec fn replay_all(ev: EngineView, gv: GuardView, es: Seq<EntryView>, symbol_id: u32) -> (EngineView, GuardView)
    decreases es.len(),
{
    if es.len() == 0 {
        (ev, gv)
    } else {
        let p = replay_all(ev, gv, es.drop_last(), symbol_id);
        replay_view(p.0, p.1, es.last(), symbol_id)
    }
}

/// An engine with an empty book and initial counters, keeping its limits.
pub open spec fn cleared_view(ev: EngineView) -> EngineView {
    (Seq::empty(), Seq::empty(), 1, None, 0, ev.5)
}

/// Replaying the journal entry of an order, from a state with room for it,
/// processes that order: recovery follows the live path.
pub proof fn lemma_replay_entry_is_processing(
    ev: EngineView,
    gv: GuardView,
    h: JournalHeader,
    trader_id: u32,
    side: Side,
    price: i64,
    qty: u32,
    symbol_id: u32,
)
    requires
        h.msg_type == journal_msg_type::NEW_ORDER,
        can_accept_view(ev, qty),
    ensures
        replay_view(ev, gv, (h, order_payload(trader_id, side, price, qty)), symbol_id) == process_view(
            ev,
            gv,
            trader_id,
            side,
            price,
            qty,
            symbol_id,
        ),
{
    lemma_order_payload_round_trip(trader_id, side, price, qty);
}

pub type OrderInput = (u32, Side, i64, u32);

/// A live run: orders processed one after another.
pub open spec fn live_run(ev: EngineView, gv: GuardView, os: Seq<OrderInput>, symbol_id: u32) -> (EngineView, GuardView)
    decreases os.len(),
{
    if os.len() == 0 {
        (ev, gv)
    } else {
        let p = live_run(ev, gv, os.drop_last(), symbol_id);
        let o = os.last();
        process_view(p.0, p.1, o.0, o.1, o.2, o.3, symbol_id)
    }
}

/// Every order of the run found room in the engine when it came.
pub open spec fn run_had_room(ev: EngineView, gv: GuardView, os: Seq<OrderInput>, symbol_id: u32) -> bool
    decreases os.len(),
{
    os.len() == 0 || (run_had_room(ev, gv, os.drop_last(), symbol_id) && can_accept_view(
        live_run(ev, gv, os.drop_last(), symbol_id).0,
        os.last().3,
    ))
}

/// The journal a run writes: one NEW_ORDER entry per order, with its payload.
pub open spec fn journal_of(hs: Seq<JournalHeader>, os: Seq<OrderInput>) -> Seq<EntryView> {
    Seq::new(os.len(), |i: int| (hs[i], order_payload(os[i].0, os[i].1, os[i].2, os[i].3)))
}

/// Recovery reproduces a live run: replaying the journal of a run of orders
/// from the state the run started in ends where the run ended, book, ledger,
/// bans, reference price and counters alike.
pub proof fn lemma_recovery_reproduces_run(
    ev: EngineView,
    gv: GuardView,
    os: Seq<OrderInput>,
    hs: Seq<JournalHeader>,
    symbol_id: u32,
)
    requires
        hs.len() == os.len(),
        forall|i: int| 0 <= i < hs.len() ==> (#[trigger] hs[i]).msg_type == journal_msg_type::NEW_ORDER,
        run_had_room(ev, gv, os, symbol_id),
    ensures
        replay_all(ev, gv, journal_of(hs, os), symbol_id) == live_run(ev, gv, os, symbol_id),
    decreases os.len(),
{
    if os.len() > 0 {
        let n = os.len() - 1;
        assert forall|i: int| 0 <= i < hs.drop_last().len() implies (#[trigger] hs.drop_last()[i]).msg_type
            == journal_msg_type::NEW_ORDER by {
            assert(hs.drop_last()[i] == hs[i]);
        }
        lemma_recovery_reproduces_run(ev, gv, os.drop_last(), hs.drop_last(), symbol_id);
        assert(journal_of(hs, os).drop_last() =~= journal_of(hs.drop_last(), os.drop_last()));
        let p = live_run(ev, gv, os.drop_last(), symbol_id);
        let o = os.last();
        assert(hs[n].msg_type == journal_msg_type::NEW_ORDER);
        lemma_replay_entry_is_processing(p.0, p.1, hs[n], o.0, o.1, o.2, o.3, symbol_id);
    }
}

impl NexusExchange {
    /// Applies one journal entry as recovery does: a NEW_ORDER entry whose
    /// payload carries an order is processed as a live order would be
    /// (unless its quantity would overflow the book's counters), without
    /// journaling it again; an ADD_FUNDS entry of at least 12 bytes,
    /// `[4: trader_id][8: amount]`, is deposited. Returns the outcome of a
    /// processed order.
    pub fn replay_entry(&mut self, entry: &JournalEntry) -> (r: Option<Result<MatchResult, ExchangeError>>)
        requires
            old(self).wf(),
        ensures
            final(self).wf(),
            final(self).sentinel == old(self).sentinel,
            final(self).symbol_id == old(self).symbol_id,
            final(self).ts_counter == old(self).ts_counter,
            final(self).engine.config() == old(self).engine.config(),
            entry.header.msg_type == journal_msg_type::NEW_ORDER ==> match order_of_payload(entry.payload@) {
                Some(o) => if old(self).engine.can_accept(o.3) {
                    r matches Some(res) && process_post(
                        old(self).engine,
                        old(self).guardian,
                        final(self).engine,
                        final(self).guardian,
                        o.0,
                        o.1,
                        o.2,
                        o.3,
                        old(self).symbol_id,
                        res,
                    )
                } else {
                    r is None && final(self).engine == old(self).engine && final(self).guardian == old(self).guardian
                },
                None => r is None && final(self).engine == old(self).engine && final(self).guardian == old(self).guardian,
            },
            entry.header.msg_type != journal_msg_type::NEW_ORDER ==> r is None && final(self).engine == old(self).engine,
            (engine_view(final(self).engine), guard_view(final(self).guardian)) == replay_view(
                engine_view(old(self).engine),
                guard_view(old(self).guardian),
                entry_view(*entry),
                old(self).symbol_id,
            ),
    {
        if entry.header.msg_type == journal_msg_type::NEW_ORDER {
            match Self::deserialize_order(&entry.payload) {
                Some((trader_id, side, price, qty)) => {
                    proof {
                        self.engine.book.bids.lemma_front_sum();
                        self.engine.book.asks.lemma_front_sum();
                    }
                    if self.engine.has_room(qty) {
                        let ghost e0 = self.engine;
                        let ghost g0 = self.guardian;
                        let res = self.process_order(trader_id, side, price, qty);
                        proof {
                            lemma_process_view(e0, g0, self.engine, self.guardian, trader_id, side, price, qty, self.symbol_id, res);
                        }
                        Some(res)
                    } else {
                        None
                    }
                },
                None => None,
            }
        } else {
            if entry.header.msg_type == journal_msg_type::ADD_FUNDS && entry.payload.len() >= 12 {
                proof {
                    lemma_pow256_values();
                    crate::codec::lemma_le_value_bound(entry.payload@.subrange(0, 4));
                }
                let trader_id = read_le(&entry.payload, 0, 4) as u32;
                let amount = read_le(&entry.payload, 4, 8) as i64;
                self.guardian.add_funds(trader_id, amount);
                assert(ledger_of(self.guardian.accounts()) == deposit_view(
                    ledger_of(old(self).guardian.accounts()),
                    le_value(entry.payload@.subrange(0, 4)) as u32,
                    le_value(entry.payload@.subrange(4, 12)) as u64 as i64,
                ));
            }
            None
        }
    }

    /// Rebuilds state from the journal: the engine is cleared (accounts are
    /// kept; seed them first), then every entry is applied in order with
    /// `replay_entry`. Returns the number of entries read.
    pub fn recover_from_wal(&mut self) -> (r: usize)
        requires
            old(self).wf(),
        ensures
            final(self).wf(),
            final(self).sentinel == old(self).sentinel,
            old(self).sentinel is None ==> r == 0 && final(self).engine == old(self).engine && final(self).guardian
                == old(self).guardian,
            old(self).sentinel matches Some(s) ==> r == s.entries().len(),
            old(self).sentinel matches Some(s) ==> (engine_view(final(self).engine), guard_view(final(self).guardian))
                == replay_all(
                cleared_view(engine_view(old(self).engine)),
                guard_view(old(self).guardian),
                s.entries(),
                old(self).symbol_id,
            ),
    {
        let entries = match &self.sentinel {
            None => {
                return 0;
            },
            Some(s) => s.read_all_entries(),
        };
        proof {
            assert(entries@.map_values(|e: JournalEntry| entry_view(e)).len() == entries@.len());
        }
        self.engine.clear();
        let ghost es = entries@.map_values(|e: JournalEntry| entry_view(e));
        let ghost c0 = cleared_view(engine_view(old(self).engine));
        let ghost g0 = guard_view(old(self).guardian);
        proof {
            assert(engine_view(self.engine) =~= c0);
            assert(es.subrange(0, 0) =~= Seq::<EntryView>::empty());
        }
        let mut i: usize = 0;
        while i < entries.len()
            invariant
                self.wf(),
                self.sentinel == old(self).sentinel,
                self.symbol_id == old(self).symbol_id,
                i <= entries@.len(),
                es == entries@.map_values(|e: JournalEntry| entry_view(e)),
                (engine_view(self.engine), guard_view(self.guardian)) == replay_all(
                    c0,
                    g0,
                    es.subrange(0, i as int),
                    self.symbol_id,
                ),
            decreases entries@.len() - i,
        {
            let _ = self.replay_entry(&entries[i]);
            proof {
                assert(es.subrange(0, i as int + 1).drop_last() =~= es.subrange(0, i as int));
                assert(es.subrange(0, i as int + 1).last() == entry_view(entries@[i as int]));
            }
            i = i + 1;
        }
        assert(es.subrange(0, es.len() as int) =~= es);
        entries.len()
    }
}


impl Default for NexusExchange {
    /// `NexusExchange::new()`.
    fn default() -> (r: NexusExchange)
        ensures
            r.wf(),
            r.sentinel is None,
            r.symbol_id == 0,
            r.ts_counter == 0,
            r.engine.book.bids.orders().len() == 0,
            r.engine.book.asks.orders().len() == 0,
            r.guardian.accounts() == Map::<u32, crate::risk::Account>::empty(),
    {
        Self::new()
    }
}

} // verus!
