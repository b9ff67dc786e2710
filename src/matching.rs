use vstd::prelude::*;
use crate::orderbook::{
    BookSide, L2Level, LevelView, Order, OrderBook, flatten, ids_below_prices_positive, insert_level, regroup, snapshot_of,
    of_trader, not_of_trader, order_id_of, lemma_insert_level_ids,
};
use crate::side::Side;

verus! {

/// One execution between a resting maker and an incoming taker, at the
/// maker's price.
#[derive(Debug, Clone, Copy, PartialEq, Eq, Structural)]
pub struct Fill {
    pub maker_order_id: u64,
    pub taker_order_id: u64,
    pub maker_trader_id: u32,
    pub taker_trader_id: u32,
    pub price: i64,
    pub qty: u32,
    pub timestamp_ns: u64,
}

/// What an accepted order produced.
#[derive(Debug)]
pub struct MatchResult {
    pub order_id: u64,
    pub fills: Vec<Fill>,
    pub stp_cancels: Vec<u64>,
    pub resting_qty: u32,
}

/// Why the engine refused an order.
#[derive(Debug, Clone, Copy, PartialEq, Eq, Structural)]
pub enum RejectReason {
    InvalidPrice,
    InvalidQuantity,
    MaxQuantity { requested: u32, max: u32 },
    FatFinger { order_price: i64, reference_price: i64 },
}

/// Engine-level risk limits: a hard quantity cap and the largest allowed
/// deviation from the last trade, as a fraction scaled by 10^8.
#[derive(Debug, Clone, Copy, PartialEq, Eq, Structural)]
pub struct RiskConfig {
    pub max_order_qty: u32,
    pub max_price_deviation_pct: i64,
}

impl Default for RiskConfig {
    /// At most 1,000,000 units per order and 50% away from the last trade.
    fn default() -> (r: RiskConfig)
        ensures
            r.max_order_qty == 1_000_000,
            r.max_price_deviation_pct == 50_000_000,
    {
        RiskConfig { max_order_qty: 1_000_000, max_price_deviation_pct: 50_000_000 }
    }
}

/// A resting order at `maker_price` can trade with a taker on `side` whose
/// limit is `limit`.
pub open spec fn crosses(side: Side, limit: i64, maker_price: i64) -> bool {
    match side {
        Side::Buy => maker_price <= limit,
        Side::Sell => maker_price >= limit,
    }
}

/// The fill of `q` units of the resting order `m` against a taker.
pub open spec fn fill_of(m: Order, q: u32, taker: u32, taker_oid: u64, ts: u64) -> Fill {
    Fill {
        maker_order_id: m.order_id,
        taker_order_id: taker_oid,
        maker_trader_id: m.trader_id,
        taker_trader_id: taker,
        price: m.price,
        qty: q,
        timestamp_ns: ts,
    }
}

/// The walk of a taker through the opposing orders, best first: an order of
/// the taker's own trader is cancelled without a fill, any other crossing
/// order fills `min(remaining, qty)` at its own price. Gives the fills, the
/// cancelled ids, the opposing orders left and the taker's remaining quantity.
pub open spec fn cross(
    book: Seq<Order>,
    side: Side,
    taker: u32,
    taker_oid: u64,
    limit: i64,
    rem: u32,
    ts: u64,
) -> (Seq<Fill>, Seq<u64>, Seq<Order>, u32)
    decreases book.len(),
{
    if rem == 0 || book.len() == 0 || !crosses(side, limit, book[0].price) {
        (Seq::empty(), Seq::empty(), book, rem)
    } else if book[0].trader_id == taker {
        let r = cross(book.drop_first(), side, taker, taker_oid, limit, rem, ts);
        (r.0, seq![book[0].order_id] + r.1, r.2, r.3)
    } else if book[0].qty <= rem {
        let r = cross(book.drop_first(), side, taker, taker_oid, limit, (rem - book[0].qty) as u32, ts);
        (seq![fill_of(book[0], book[0].qty, taker, taker_oid, ts)] + r.0, r.1, r.2, r.3)
    } else {
        (
            seq![fill_of(book[0], rem, taker, taker_oid, ts)],
            Seq::empty(),
            book.update(0, Order { qty: (book[0].qty - rem) as u32, ..book[0] }),
            0,
        )
    }
}

/// What the walk leaves of the opposing side keeps ids below `n`, positive
/// prices and positive quantities, and every fill names a maker order of the
/// book at its price, with a positive quantity no larger than the taker's.
pub proof fn lemma_cross_bounds(
    book: Seq<Order>,
    side: Side,
    taker: u32,
    taker_oid: u64,
    limit: i64,
    rem: u32,
    ts: u64,
    n: u64,
)
    requires
        ids_below_prices_positive(book, n),
        forall|k: int| 0 <= k < book.len() ==> (#[trigger] book[k]).qty > 0,
    ensures
        ({
            let r = cross(book, side, taker, taker_oid, limit, rem, ts);
            &&& ids_below_prices_positive(r.2, n)
            &&& forall|k: int| 0 <= k < r.2.len() ==> (#[trigger] r.2[k]).qty > 0
            &&& forall|k: int|
                0 <= k < r.0.len() ==> 1 <= (#[trigger] r.0[k]).maker_order_id < n && r.0[k].price > 0 && r.0[k].qty > 0
                    && r.0[k].taker_order_id == taker_oid && r.0[k].maker_trader_id != taker
            &&& forall|k: int| 0 <= k < r.1.len() ==> 1 <= #[trigger] r.1[k] < n
            &&& r.3 <= rem
        }),
    decreases book.len(),
{
    if rem == 0 || book.len() == 0 || !crosses(side, limit, book[0].price) {
    } else if book[0].trader_id == taker {
        lemma_cross_bounds(book.drop_first(), side, taker, taker_oid, limit, rem, ts, n);
        let r = cross(book.drop_first(), side, taker, taker_oid, limit, rem, ts);
        let c = seq![book[0].order_id] + r.1;
        assert forall|k: int| 0 <= k < c.len() implies 1 <= #[trigger] c[k] < n by {
            if k > 0 {
                assert(c[k] == r.1[k - 1]);
            }
        }
    } else if book[0].qty <= rem {
        lemma_cross_bounds(book.drop_first(), side, taker, taker_oid, limit, (rem - book[0].qty) as u32, ts, n);
        let r = cross(book.drop_first(), side, taker, taker_oid, limit, (rem - book[0].qty) as u32, ts);
        let f = seq![fill_of(book[0], book[0].qty, taker, taker_oid, ts)] + r.0;
        assert forall|k: int| 0 <= k < f.len() implies 1 <= (#[trigger] f[k]).maker_order_id < n && f[k].price > 0 && f[k].qty
            > 0 && f[k].taker_order_id == taker_oid && f[k].maker_trader_id != taker by {
            if k > 0 {
                assert(f[k] == r.0[k - 1]);
            }
        }
    } else {
        let b = book.update(0, Order { qty: (book[0].qty - rem) as u32, ..book[0] });
        assert forall|k: int| 0 <= k < b.len() implies 1 <= (#[trigger] b[k]).order_id < n && b[k].price > 0 by {
            if k > 0 {
                assert(b[k] == book[k]);
            }
        }
    }
}

/// The engine-level risk verdict on an order.
pub open spec fn risk_verdict(cfg: RiskConfig, last_trade: Option<i64>, price: i64, qty: u32) -> Result<(), RejectReason> {
    if price <= 0 {
        Err(RejectReason::InvalidPrice)
    } else if qty == 0 {
        Err(RejectReason::InvalidQuantity)
    } else if qty > cfg.max_order_qty {
        Err(RejectReason::MaxQuantity { requested: qty, max: cfg.max_order_qty })
    } else if last_trade is Some && (abs_diff(price, last_trade->0) * 100_000_000) / (last_trade->0 as int)
        > cfg.max_price_deviation_pct {
        Err(RejectReason::FatFinger { order_price: price, reference_price: last_trade->0 })
    } else {
        Ok(())
    }
}

pub open spec fn abs_diff(a: i64, b: i64) -> int {
    if a >= b {
        a - b
    } else {
        b - a
    }
}

/// The price-time priority matching engine over one order book.
pub struct MatchingEngine {
    pub book: OrderBook,
    pub risk_config: RiskConfig,
    pub next_trade_id: u64,
    pub ts_counter: u64,
}

impl MatchingEngine {
    /// The book is well formed.
    pub open spec fn wf(&self) -> bool {
        self.book.wf()
    }

    /// The engine's risk limits.
    pub open spec fn config(&self) -> RiskConfig {
        self.risk_config
    }

    /// The deterministic clock: one tick per accepted order.
    pub open spec fn ticks(&self) -> u64 {
        self.ts_counter
    }

    /// Counters have room for one more order and each side room for its
    /// quantity.
    pub open spec fn can_accept(&self, qty: u32) -> bool {
        &&& self.ticks() < u64::MAX
        &&& self.book.next_order_id < u64::MAX
        &&& self.book.bids.total_qty + qty <= u64::MAX
        &&& self.book.asks.total_qty + qty <= u64::MAX
    }

    /// An engine with the default risk limits.
    pub fn new() -> (r: MatchingEngine)
        ensures
            r.wf(),
            r.config() == (RiskConfig { max_order_qty: 1_000_000, max_price_deviation_pct: 50_000_000 }),
            r.book.bids.orders().len() == 0,
            r.book.asks.orders().len() == 0,
            r.book.bids.view_levels().len() == 0,
            r.book.asks.view_levels().len() == 0,
            r.book.next_order_id == 1,
            r.book.last_trade_price is None,
            r.ticks() == 0,
    {
        Self::with_config(RiskConfig::default())
    }

    /// An empty engine with the given risk limits.
    pub fn with_config(risk_config: RiskConfig) -> (r: MatchingEngine)
        ensures
            r.wf(),
            r.config() == risk_config,
            r.book.bids.orders().len() == 0,
            r.book.asks.orders().len() == 0,
            r.book.bids.view_levels().len() == 0,
            r.book.asks.view_levels().len() == 0,
            r.book.next_order_id == 1,
            r.book.last_trade_price is None,
            r.ticks() == 0,
    {
        MatchingEngine { book: OrderBook::new(), risk_config, next_trade_id: 0, ts_counter: 0 }
    }

    /// Advances the deterministic clock and returns its new value.
    fn tick(&mut self) -> (r: u64)
        requires
            old(self).ts_counter < u64::MAX,
        ensures
            r == old(self).ts_counter + 1,
            final(self).ts_counter == r,
            final(self).book == old(self).book,
            final(self).risk_config == old(self).risk_config,
    {
        self.ts_counter = self.ts_counter + 1;
        self.ts_counter
    }

    /// Hands out the next trade id.
    #[allow(dead_code)]
    fn next_trade_id(&mut self) -> (r: u64)
        requires
            old(self).next_trade_id < u64::MAX,
        ensures
            r == old(self).next_trade_id + 1,
            final(self).next_trade_id == r,
            final(self).book == old(self).book,
            final(self).risk_config == old(self).risk_config,
            final(self).ts_counter == old(self).ts_counter,
    {
        self.next_trade_id = self.next_trade_id + 1;
        self.next_trade_id
    }

    /// Checks, in order: price > 0, quantity > 0, quantity within the cap,
    /// and, once a trade has happened, the deviation from its price.
    pub fn validate_risk(&self, price: i64, qty: u32) -> (r: Result<(), RejectReason>)
        requires
            self.wf(),
        ensures
            r == risk_verdict(self.config(), self.book.last_trade_price, price, qty),
    {
        if price <= 0 {
            return Err(RejectReason::InvalidPrice);
        }
        if qty == 0 {
            return Err(RejectReason::InvalidQuantity);
        }
        if qty > self.risk_config.max_order_qty {
            return Err(RejectReason::MaxQuantity { requested: qty, max: self.risk_config.max_order_qty });
        }
        if let Some(ref_price) = self.book.last_trade_price {
            let diff: i128 = if price >= ref_price {
                price as i128 - ref_price as i128
            } else {
                ref_price as i128 - price as i128
            };
            assert(0 <= diff <= 0x1_0000_0000_0000_0000i128);
            assert(diff * 100_000_000 <= 0x1_0000_0000_0000_0000i128 * 100_000_000) by (nonlinear_arith)
                requires
                    0 <= diff <= 0x1_0000_0000_0000_0000i128,
            ;
            let deviation: i128 = (diff * 100_000_000) / (ref_price as i128);
            if deviation > self.risk_config.max_price_deviation_pct as i128 {
                return Err(RejectReason::FatFinger { order_price: price, reference_price: ref_price });
            }
        }
        Ok(())
    }
}


/// True when the side has a first order and it crosses the taker's limit.
fn front_crosses(opp: &BookSide, side: Side, limit: i64) -> (r: bool)
    requires
        opp.wf(),
    ensures
        r == (opp.orders().len() > 0 && crosses(side, limit, opp.orders()[0].price)),
{
    match opp.front() {
        None => false,
        Some(m) => match side {
            Side::Buy => m.price <= limit,
            Side::Sell => m.price >= limit,
        },
    }
}

/// The last trade price after `fills` were emitted, starting from `last`.
pub open spec fn last_after(fills: Seq<Fill>, last: Option<i64>) -> Option<i64> {
    if fills.len() > 0 {
        Some(fills.last().price)
    } else {
        last
    }
}

/// Walks the opposing side `opp` for a taker, as `cross` describes: fills and
/// cancelled ids are appended to `fills` and `stp_cancels`, `rem` ends as the
/// taker's remaining quantity, and `last` as the last fill's price.
fn sweep(
    opp: &mut BookSide,
    last: &mut Option<i64>,
    side: Side,
    taker: u32,
    taker_oid: u64,
    limit: i64,
    rem: &mut u32,
    fills: &mut Vec<Fill>,
    stp_cancels: &mut Vec<u64>,
    ts: u64,
)
    requires
        old(opp).wf(),
        forall|k: int| 0 <= k < old(opp).orders().len() ==> (#[trigger] old(opp).orders()[k]).price > 0,
        *old(last) matches Some(p) ==> p > 0,
    ensures
        ({
            let r = cross(old(opp).orders(), side, taker, taker_oid, limit, *old(rem), ts);
            &&& final(opp).wf()
            &&& final(opp).is_bid == old(opp).is_bid
            &&& final(opp).orders() == r.2
            &&& final(fills)@ == old(fills)@ + r.0
            &&& final(stp_cancels)@ == old(stp_cancels)@ + r.1
            &&& *final(rem) == r.3
            &&& *final(last) == last_after(r.0, *old(last))
        }),
{
    let ghost o0 = opp.orders();
    let ghost rem0 = *rem;
    let ghost r = cross(o0, side, taker, taker_oid, limit, rem0, ts);
    let ghost f0 = fills@;
    let ghost s0 = stp_cancels@;
    let ghost last0 = *last;
    proof {
        assert(f0 + Seq::<Fill>::empty() =~= f0);
    }
    while *rem > 0 && front_crosses(opp, side, limit)
        invariant
            opp.wf(),
            opp.is_bid == old(opp).is_bid,
            forall|k: int| 0 <= k < opp.orders().len() ==> (#[trigger] opp.orders()[k]).price > 0,
            last0 matches Some(p) ==> p > 0,
            ({
                let c = cross(opp.orders(), side, taker, taker_oid, limit, *rem, ts);
                &&& fills@ + c.0 == f0 + r.0
                &&& stp_cancels@ + c.1 == s0 + r.1
                &&& c.2 == r.2
                &&& c.3 == r.3
            }),
            fills@.len() >= f0.len(),
            fills@.len() > f0.len() ==> *last == Some(fills@.last().price),
            fills@.len() == f0.len() ==> *last == last0,
        decreases opp.orders().len(), *rem,
    {
        let ghost cur = opp.orders();
        let ghost st = stp_cancels@;
        let ghost fl = fills@;
        let m = opp.pop_or_front(*rem, taker);
        let ghost c = cross(cur, side, taker, taker_oid, limit, *rem, ts);
        if m.trader_id == taker {
            let ghost c2 = cross(cur.drop_first(), side, taker, taker_oid, limit, *rem, ts);
            stp_cancels.push(m.order_id);
            proof {
                assert(stp_cancels@ + c2.1 =~= st.push(m.order_id) + c2.1);
                assert(s0 + r.1 =~= stp_cancels@ + c2.1) by {
                    assert(c.1 =~= seq![m.order_id] + c2.1);
                    assert(st.push(m.order_id) + c2.1 =~= st + (seq![m.order_id] + c2.1));
                }
            }
        } else if m.qty <= *rem {
            let ghost c2 = cross(cur.drop_first(), side, taker, taker_oid, limit, (*rem - m.qty) as u32, ts);
            let f = Fill {
                maker_order_id: m.order_id,
                taker_order_id: taker_oid,
                maker_trader_id: m.trader_id,
                taker_trader_id: taker,
                price: m.price,
                qty: m.qty,
                timestamp_ns: ts,
            };
            fills.push(f);
            *rem = *rem - m.qty;
            *last = Some(m.price);
            proof {
                assert(c.0 =~= seq![f] + c2.0);
                assert(fills@ + c2.0 =~= fl + (seq![f] + c2.0));
            }
        } else {
            let f = Fill {
                maker_order_id: m.order_id,
                taker_order_id: taker_oid,
                maker_trader_id: m.trader_id,
                taker_trader_id: taker,
                price: m.price,
                qty: *rem,
                timestamp_ns: ts,
            };
            fills.push(f);
            *rem = 0;
            *last = Some(m.price);
            proof {
                let c2 = cross(opp.orders(), side, taker, taker_oid, limit, 0, ts);
                assert(c.0 =~= seq![f]);
                assert(fills@ + c2.0 =~= fl + seq![f]);
                assert(c2.1 =~= Seq::<u64>::empty());
                assert(stp_cancels@ + c2.1 =~= stp_cancels@);
                assert(c.1 =~= Seq::<u64>::empty());
            }
        }
    }
    proof {
        let c = cross(opp.orders(), side, taker, taker_oid, limit, *rem, ts);
        assert(fills@ + c.0 =~= fills@);
        assert(stp_cancels@ + c.1 =~= stp_cancels@);
        if r.0.len() > 0 {
            assert((f0 + r.0).last() == r.0.last());
        } else {
            assert(f0 + r.0 =~= f0);
        }
    }
}

impl BookSide {
    /// One step of the walk on the first order `m`, which must exist: when it
    /// belongs to `taker` or `rem` covers it, it is removed; otherwise `rem`
    /// units are taken off it. Returns `m` as it was.
    fn pop_or_front(&mut self, rem: u32, taker: u32) -> (m: Order)
        requires
            old(self).wf(),
            old(self).orders().len() > 0,
            rem > 0,
        ensures
            m == old(self).orders()[0],
            final(self).wf(),
            final(self).is_bid == old(self).is_bid,
            (m.trader_id == taker || m.qty <= rem) ==> final(self).orders() == old(self).orders().drop_first(),
            !(m.trader_id == taker || m.qty <= rem) ==> final(self).orders() == old(self).orders().update(
                0,
                Order { qty: (m.qty - rem) as u32, ..m },
            ),
    {
        let m = match self.front() {
            Some(o) => o,
            None => {
                assert(false);
                return Order { trader_id: 0, order_id: 0, price: 0, qty: 0, ts: 0 };
            },
        };
        if m.trader_id == taker || m.qty <= rem {
            self.pop_front();
        } else {
            self.reduce_front(rem);
        }
        m
    }
}


impl MatchingEngine {
    /// Submits a limit order: risk checks, then the walk through the
    /// opposing side, then the remainder rests at `price` on its own side.
    pub fn submit_order(&mut self, trader_id: u32, side: Side, price: i64, qty: u32) -> (r: Result<MatchResult, RejectReason>)
        requires
            old(self).wf(),
            old(self).can_accept(qty),
        ensures
            final(self).wf(),
            final(self).config() == old(self).config(),
            risk_verdict(old(self).config(), old(self).book.last_trade_price, price, qty) is Err ==> {
                &&& r == Err::<MatchResult, RejectReason>(
                    risk_verdict(old(self).config(), old(self).book.last_trade_price, price, qty)->Err_0,
                )
                &&& final(self).book == old(self).book
                &&& final(self).ticks() == old(self).ticks()
            },
            risk_verdict(old(self).config(), old(self).book.last_trade_price, price, qty) is Ok ==> {
                let oid = old(self).book.next_order_id;
                let ts = (old(self).ticks() + 1) as u64;
                let c = cross(old(self).book.opposite_side(side).orders(), side, trader_id, oid, price, qty, ts);
                let own = old(self).book.own_side(side).view_levels();
                &&& r matches Ok(res)
                &&& res.order_id == oid
                &&& res.fills@ == c.0
                &&& res.stp_cancels@ == c.1
                &&& res.resting_qty == c.3
                &&& final(self).book.opposite_side(side).orders() == c.2
                &&& final(self).book.own_side(side).view_levels() == if c.3 > 0 {
                    insert_level(own, Order { trader_id, order_id: oid, price, qty: c.3, ts }, side == Side::Buy)
                } else {
                    own
                }
                &&& final(self).book.next_order_id == oid + 1
                &&& final(self).ticks() == ts
                &&& final(self).book.last_trade_price == last_after(c.0, old(self).book.last_trade_price)
                &&& forall|k: int|
                    0 <= k < res.fills@.len() ==> 1 <= (#[trigger] res.fills@[k]).maker_order_id < oid
                        && res.fills@[k].taker_order_id == oid
                &&& forall|k: int| 0 <= k < res.stp_cancels@.len() ==> 1 <= #[trigger] res.stp_cancels@[k] < oid
            },
            submit_post(*old(self), *final(self), trader_id, side, price, qty, r),
    {
        match self.validate_risk(price, qty) {
            Err(e) => {
                return Err(e);
            },
            Ok(()) => {},
        }
        let ts = self.tick();
        let order_id = self.book.next_order_id();
        let mut fills: Vec<Fill> = Vec::new();
        let mut stp_cancels: Vec<u64> = Vec::new();
        let mut remaining_qty = qty;
        let ghost b0 = self.book;
        proof {
            let opp = b0.opposite_side(side).orders();
            crate::orderbook::lemma_flatten_qty_positive(b0.opposite_side(side).view_levels(), b0.opposite_side(side).is_bid);
            lemma_cross_bounds(opp, side, trader_id, order_id, price, qty, ts, order_id);
        }
        match side {
            Side::Buy => {
                self.match_against_asks(trader_id, order_id, price, &mut remaining_qty, &mut fills, &mut stp_cancels, ts);
            },
            Side::Sell => {
                self.match_against_bids(trader_id, order_id, price, &mut remaining_qty, &mut fills, &mut stp_cancels, ts);
            },
        }
        assert(fills@ =~= cross(b0.opposite_side(side).orders(), side, trader_id, order_id, price, qty, ts).0);
        assert(stp_cancels@ =~= cross(b0.opposite_side(side).orders(), side, trader_id, order_id, price, qty, ts).1);
        if remaining_qty > 0 {
            let resting = Order { trader_id, order_id, price, qty: remaining_qty, ts };
            proof {
                let own0 = b0.own_side(side).orders();
                assert forall|k: int| 0 <= k < own0.len() implies 1 <= (#[trigger] own0[k]).order_id < order_id + 1 && own0[k].price > 0 by {
                }
                lemma_insert_level_ids(b0.own_side(side).view_levels(), resting, side == Side::Buy, (order_id + 1) as u64);
            }
            match side {
                Side::Buy => self.book.bids.insert(resting),
                Side::Sell => self.book.asks.insert(resting),
            }
        }
        proof {
            let b = self.book;
            let n = b.next_order_id;
            let own = b.own_side(side).orders();
            let opp = b.opposite_side(side).orders();
            assert forall|k: int| 0 <= k < own.len() implies 1 <= (#[trigger] own[k]).order_id < n && own[k].price > 0 by {
                if remaining_qty == 0 {
                    assert(own == b0.own_side(side).orders());
                }
            }
            assert forall|k: int| 0 <= k < opp.len() implies 1 <= (#[trigger] opp[k]).order_id < n && opp[k].price > 0 by {
            }
        }
        Ok(MatchResult { order_id, fills, stp_cancels, resting_qty: remaining_qty })
    }

    /// A buy taker walks the asks, lowest price first.
    fn match_against_asks(
        &mut self,
        taker_trader_id: u32,
        taker_order_id: u64,
        limit_price: i64,
        remaining_qty: &mut u32,
        fills: &mut Vec<Fill>,
        stp_cancels: &mut Vec<u64>,
        ts: u64,
    )
        requires
            old(self).book.asks.wf(),
            ids_below_prices_positive(old(self).book.asks.orders(), old(self).book.next_order_id),
            old(self).book.last_trade_price matches Some(p) ==> p > 0,
        ensures
            ({
                let r = cross(old(self).book.asks.orders(), Side::Buy, taker_trader_id, taker_order_id, limit_price, *old(remaining_qty), ts);
                &&& final(self).book.asks.wf()
                &&& final(self).book.asks.is_bid == old(self).book.asks.is_bid
                &&& final(self).book.asks.orders() == r.2
                &&& final(self).book.bids == old(self).book.bids
                &&& final(self).book.next_order_id == old(self).book.next_order_id
                &&& final(self).risk_config == old(self).risk_config
                &&& final(self).ts_counter == old(self).ts_counter
                &&& final(fills)@ == old(fills)@ + r.0
                &&& final(stp_cancels)@ == old(stp_cancels)@ + r.1
                &&& *final(remaining_qty) == r.3
                &&& final(self).book.last_trade_price == last_after(r.0, old(self).book.last_trade_price)
            }),
    {
        sweep(
            &mut self.book.asks,
            &mut self.book.last_trade_price,
            Side::Buy,
            taker_trader_id,
            taker_order_id,
            limit_price,
            remaining_qty,
            fills,
            stp_cancels,
            ts,
        );
    }

    /// A sell taker walks the bids, highest price first.
    fn match_against_bids(
        &mut self,
        taker_trader_id: u32,
        taker_order_id: u64,
        limit_price: i64,
        remaining_qty: &mut u32,
        fills: &mut Vec<Fill>,
        stp_cancels: &mut Vec<u64>,
        ts: u64,
    )
        requires
            old(self).book.bids.wf(),
            ids_below_prices_positive(old(self).book.bids.orders(), old(self).book.next_order_id),
            old(self).book.last_trade_price matches Some(p) ==> p > 0,
        ensures
            ({
                let r = cross(old(self).book.bids.orders(), Side::Sell, taker_trader_id, taker_order_id, limit_price, *old(remaining_qty), ts);
                &&& final(self).book.bids.wf()
                &&& final(self).book.bids.is_bid == old(self).book.bids.is_bid
                &&& final(self).book.bids.orders() == r.2
                &&& final(self).book.asks == old(self).book.asks
                &&& final(self).book.next_order_id == old(self).book.next_order_id
                &&& final(self).risk_config == old(self).risk_config
                &&& final(self).ts_counter == old(self).ts_counter
                &&& final(fills)@ == old(fills)@ + r.0
                &&& final(stp_cancels)@ == old(stp_cancels)@ + r.1
                &&& *final(remaining_qty) == r.3
                &&& final(self).book.last_trade_price == last_after(r.0, old(self).book.last_trade_price)
            }),
    {
        sweep(
            &mut self.book.bids,
            &mut self.book.last_trade_price,
            Side::Sell,
            taker_trader_id,
            taker_order_id,
            limit_price,
            remaining_qty,
            fills,
            stp_cancels,
            ts,
        );
    }

    /// Highest bid price.
    pub fn best_bid(&self) -> (r: Option<i64>)
        requires
            self.wf(),
        ensures
            self.book.bids.orders().len() == 0 ==> r is None,
            self.book.bids.orders().len() > 0 ==> r == Some(self.book.bids.orders()[0].price),
    {
        self.book.best_bid()
    }

    /// Lowest ask price.
    pub fn best_ask(&self) -> (r: Option<i64>)
        requires
            self.wf(),
        ensures
            self.book.asks.orders().len() == 0 ==> r is None,
            self.book.asks.orders().len() > 0 ==> r == Some(self.book.asks.orders()[0].price),
    {
        self.book.best_ask()
    }

    /// Up to `depth` levels of each side, best first: (bids, asks).
    pub fn l2_snapshot(&self, depth: usize) -> (r: (Vec<L2Level>, Vec<L2Level>))
        requires
            self.wf(),
        ensures
            snapshot_of(r.0@, self.book.bids.view_levels(), depth),
            snapshot_of(r.1@, self.book.asks.view_levels(), depth),
    {
        self.book.l2_snapshot(depth)
    }

    /// Session reset: empty book, counters back to their initial values, no
    /// last trade.
    pub fn clear(&mut self)
        ensures
            final(self).wf(),
            final(self).book.bids.orders().len() == 0,
            final(self).book.asks.orders().len() == 0,
            final(self).book.bids.view_levels().len() == 0,
            final(self).book.asks.view_levels().len() == 0,
            final(self).book.next_order_id == 1,
            final(self).book.last_trade_price is None,
            final(self).risk_config == old(self).risk_config,
            final(self).ts_counter == 0,
            final(self).next_trade_id == 0,
    {
        self.book.clear();
        self.ts_counter = 0;
        self.next_trade_id = 0;
    }

    /// Whether the counters and both sides have room for an order of `qty`.
    pub fn has_room(&self, qty: u32) -> (r: bool)
        ensures
            r == self.can_accept(qty),
    {
        self.ts_counter < u64::MAX && self.book.next_order_id < u64::MAX && self.book.bids.total_qty <= u64::MAX
            - qty as u64 && self.book.asks.total_qty <= u64::MAX - qty as u64
    }

    /// Cancels every resting order of trader `t` (cancel on disconnect).
    pub fn cancel_all_for_trader(&mut self, t: u32) -> (r: Vec<u64>)
        requires
            old(self).wf(),
        ensures
            final(self).wf(),
            final(self).risk_config == old(self).risk_config,
            final(self).ts_counter == old(self).ts_counter,
            final(self).book.next_order_id == old(self).book.next_order_id,
            final(self).book.last_trade_price == old(self).book.last_trade_price,
            final(self).book.bids.orders() == old(self).book.bids.orders().filter(not_of_trader(t)),
            final(self).book.asks.orders() == old(self).book.asks.orders().filter(not_of_trader(t)),
            r@ == old(self).book.bids.orders().filter(of_trader(t)).map_values(|o: Order| order_id_of(o))
                + old(self).book.asks.orders().filter(of_trader(t)).map_values(|o: Order| order_id_of(o)),
    {
        self.book.cancel_all_for_trader(t)
    }
}


/// What the contracts observe of an engine: both sides' levels, the order id
/// counter, the last trade price, the clock and the risk limits.
pub open spec fn engine_view(e: MatchingEngine) -> (Seq<LevelView>, Seq<LevelView>, u64, Option<i64>, u64, RiskConfig) {
    (e.book.bids.view_levels(), e.book.asks.view_levels(), e.book.next_order_id, e.book.last_trade_price, e.ts_counter, e.risk_config)
}

/// What the caller observes of a submission's result.
pub open spec fn result_view(r: Result<MatchResult, RejectReason>) -> Result<(u64, Seq<Fill>, Seq<u64>, u32), RejectReason> {
    match r {
        Ok(m) => Ok((m.order_id, m.fills@, m.stp_cancels@, m.resting_qty)),
        Err(e) => Err(e),
    }
}

/// The contract of `MatchingEngine::submit_order`, relating the engine
/// before (`o`) and after (`n`) to the result `r`.
pub open spec fn submit_post(
    o: MatchingEngine,
    n: MatchingEngine,
    trader_id: u32,
    side: Side,
    price: i64,
    qty: u32,
    r: Result<MatchResult, RejectReason>,
) -> bool {
    let v = risk_verdict(o.config(), o.book.last_trade_price, price, qty);
    &&& n.wf()
    &&& n.config() == o.config()
    &&& v is Err ==> r == Err::<MatchResult, RejectReason>(v->Err_0) && n.book == o.book && n.ticks() == o.ticks()
    &&& v is Ok ==> {
        let oid = o.book.next_order_id;
        let ts = (o.ticks() + 1) as u64;
        let c = cross(o.book.opposite_side(side).orders(), side, trader_id, oid, price, qty, ts);
        let own = o.book.own_side(side).view_levels();
        &&& r matches Ok(res)
        &&& res.order_id == oid
        &&& res.fills@ == c.0
        &&& res.stp_cancels@ == c.1
        &&& res.resting_qty == c.3
        &&& n.book.opposite_side(side).orders() == c.2
        &&& n.book.own_side(side).view_levels() == if c.3 > 0 {
            insert_level(own, Order { trader_id, order_id: oid, price, qty: c.3, ts }, side == Side::Buy)
        } else {
            own
        }
        &&& n.book.next_order_id == oid + 1
        &&& n.ticks() == ts
        &&& n.book.last_trade_price == last_after(c.0, o.book.last_trade_price)
        &&& forall|k: int| 0 <= k < c.0.len() ==> 1 <= (#[trigger] c.0[k]).maker_order_id < oid && c.0[k].taker_order_id == oid
        &&& forall|k: int| 0 <= k < c.1.len() ==> 1 <= #[trigger] c.1[k] < oid
    }
}

/// Determinism: two engines that look the same and receive the same order
/// end up looking the same and report the same result. Matching reads no
/// clock, no randomness and no unordered container.
pub proof fn lemma_submit_deterministic(
    o1: MatchingEngine,
    n1: MatchingEngine,
    r1: Result<MatchResult, RejectReason>,
    o2: MatchingEngine,
    n2: MatchingEngine,
    r2: Result<MatchResult, RejectReason>,
    trader_id: u32,
    side: Side,
    price: i64,
    qty: u32,
)
    requires
        o1.wf(),
        o2.wf(),
        engine_view(o1) == engine_view(o2),
        submit_post(o1, n1, trader_id, side, price, qty, r1),
        submit_post(o2, n2, trader_id, side, price, qty, r2),
    ensures
        engine_view(n1) == engine_view(n2),
        result_view(r1) == result_view(r2),
{
    let v = risk_verdict(o1.config(), o1.book.last_trade_price, price, qty);
    if v is Ok {
        match side {
            Side::Buy => {
                crate::orderbook::lemma_levels_determined(n1.book.asks.view_levels(), n2.book.asks.view_levels(), false);
            },
            Side::Sell => {
                crate::orderbook::lemma_levels_determined(n1.book.bids.view_levels(), n2.book.bids.view_levels(), true);
            },
        }
    }
}


impl Default for MatchingEngine {
    /// `MatchingEngine::new()`.
    fn default() -> (r: MatchingEngine)
        ensures
            r.wf(),
            r.config() == (RiskConfig { max_order_qty: 1_000_000, max_price_deviation_pct: 50_000_000 }),
            r.book.bids.view_levels().len() == 0,
            r.book.asks.view_levels().len() == 0,
            r.book.next_order_id == 1,
            r.book.last_trade_price is None,
            r.ticks() == 0,
    {
        Self::new()
    }
}


pub type EngineView = (Seq<LevelView>, Seq<LevelView>, u64, Option<i64>, u64, RiskConfig);

/// A submission as a function of what the engine looks like: the engine
/// afterwards and what the caller sees.
pub open spec fn submit_view(ev: EngineView, trader_id: u32, side: Side, price: i64, qty: u32) -> (
    EngineView,
    Result<(u64, Seq<Fill>, Seq<u64>, u32), RejectReason>,
) {
    let v = risk_verdict(ev.5, ev.3, price, qty);
    if v is Err {
        (ev, Err(v->Err_0))
    } else {
        let oid = ev.2;
        let ts = (ev.4 + 1) as u64;
        let own = if side == Side::Buy { ev.0 } else { ev.1 };
        let opp = if side == Side::Buy { ev.1 } else { ev.0 };
        let c = cross(flatten(opp), side, trader_id, oid, price, qty, ts);
        let own2 = if c.3 > 0 {
            insert_level(own, Order { trader_id, order_id: oid, price, qty: c.3, ts }, side == Side::Buy)
        } else {
            own
        };
        let opp2 = regroup(c.2, side == Side::Sell);
        let last = last_after(c.0, ev.3);
        let ev2: EngineView = if side == Side::Buy {
            (own2, opp2, (oid + 1) as u64, last, ts, ev.5)
        } else {
            (opp2, own2, (oid + 1) as u64, last, ts, ev.5)
        };
        (ev2, Ok((oid, c.0, c.1, c.3)))
    }
}

/// `submit_order`'s contract fixes the engine and the result as
/// `submit_view` computes them.
pub proof fn lemma_submit_view(
    o: MatchingEngine,
    n: MatchingEngine,
    trader_id: u32,
    side: Side,
    price: i64,
    qty: u32,
    r: Result<MatchResult, RejectReason>,
)
    requires
        o.wf(),
        submit_post(o, n, trader_id, side, price, qty, r),
    ensures
        (engine_view(n), result_view(r)) == submit_view(engine_view(o), trader_id, side, price, qty),
{
    let v = risk_verdict(o.config(), o.book.last_trade_price, price, qty);
    if v is Ok {
        match side {
            Side::Buy => {
                crate::orderbook::lemma_regroup(n.book.asks.view_levels(), false);
            },
            Side::Sell => {
                crate::orderbook::lemma_regroup(n.book.bids.view_levels(), true);
            },
        }
    }
}


/// The order ids an engine has handed out since it was created or cleared:
/// one per accepted order, counting from 1.
pub open spec fn issued_ids(e: MatchingEngine) -> Set<u64> {
    Set::new(|id: u64| 1 <= id < e.book.next_order_id)
}

/// Order ids: an accepted order gets an id above every id handed out
/// before, which joins the handed-out ids; every fill's taker is that order
/// and its maker, like every order cancelled by self-trade prevention, is an
/// order handed out before. A refused order hands out nothing.
pub proof fn lemma_order_ids(
    o: MatchingEngine,
    n: MatchingEngine,
    trader_id: u32,
    side: Side,
    price: i64,
    qty: u32,
    r: Result<MatchResult, RejectReason>,
)
    requires
        o.wf(),
        submit_post(o, n, trader_id, side, price, qty, r),
    ensures
        r is Err ==> issued_ids(n) == issued_ids(o),
        r matches Ok(m) ==> {
            &&& forall|id: u64| #[trigger] issued_ids(o).contains(id) ==> id < m.order_id
            &&& issued_ids(n) == issued_ids(o).insert(m.order_id)
            &&& forall|k: int| 0 <= k < m.fills@.len() ==> m.fills@[k].taker_order_id == m.order_id
                && issued_ids(o).contains(#[trigger] m.fills@[k].maker_order_id)
            &&& forall|k: int| 0 <= k < m.stp_cancels@.len() ==> issued_ids(o).contains(#[trigger] m.stp_cancels@[k])
        },
{
    if r is Ok {
        assert(issued_ids(n) =~= issued_ids(o).insert(r->Ok_0.order_id));
    } else {
        assert(issued_ids(n) =~= issued_ids(o));
    }
}

} // verus!
