use vstd::prelude::*;
use std::collections::{BTreeMap, HashSet};
use crate::side::Side;

verus! {

broadcast use vstd::std_specs::btree::group_btree_axioms, vstd::std_specs::hash::group_hash_axioms, vstd::laws_cmp::group_laws_cmp;

/// Fixed-point scale: 10^8 raw units per currency unit.
use crate::fixed_point::{SCALE, trunc_div, trunc_div_i128};

/// A trader's account; amounts are fixed-point (scaled by 10^8).
#[derive(Debug, Clone)]
pub struct Account {
    /// Cash available for new orders.
    pub available_balance: i64,
    /// Cash reserved by open orders.
    pub locked_margin: i64,
    /// Net position per symbol: positive long, negative short.
    pub positions: BTreeMap<u32, i64>,
    /// Realized profit and loss.
    pub realized_pnl: i64,
}

/// The position that `positions` holds for `symbol`, zero when absent.
pub open spec fn position_in(positions: Map<u32, i64>, symbol: u32) -> i64 {
    if positions.contains_key(symbol) {
        positions[symbol]
    } else {
        0
    }
}

/// Locked margin is not negative, and available plus locked is neither
/// negative nor beyond the range of `i64`.
pub open spec fn account_ok(available: int, locked: int) -> bool {
    0 <= locked && 0 <= available + locked <= i64::MAX
}

impl Account {
    /// A fresh account holding `starting_balance`.
    pub fn new(starting_balance: i64) -> (r: Account)
        ensures
            r.available_balance == starting_balance,
            r.locked_margin == 0,
            r.positions@ == Map::<u32, i64>::empty(),
            r.realized_pnl == 0,
    {
        Account { available_balance: starting_balance, locked_margin: 0, positions: BTreeMap::new(), realized_pnl: 0 }
    }

    /// Total equity: available plus locked.
    pub fn total_equity(&self) -> (r: i64)
        requires
            i64::MIN <= self.available_balance + self.locked_margin <= i64::MAX,
        ensures
            r == self.available_balance + self.locked_margin,
    {
        self.available_balance + self.locked_margin
    }

    /// Net position for a symbol, zero when none is held.
    pub fn position(&self, symbol_id: u32) -> (r: i64)
        ensures
            r == position_in(self.positions@, symbol_id),
    {
        match self.positions.get(&symbol_id) {
            Some(p) => *p,
            None => 0,
        }
    }
}

/// The dynamic volatility band: a width as a fraction of the reference
/// price (scaled by 10^8) with an absolute floor.
#[derive(Debug, Clone, Copy, PartialEq, Eq, Structural)]
pub struct VolatilityBandConfig {
    pub band_pct: i64,
    pub min_band_abs: i64,
}

impl Default for VolatilityBandConfig {
    /// A 10% band, at least one currency unit wide.
    fn default() -> (r: VolatilityBandConfig)
        ensures
            r.band_pct == 10_000_000,
            r.min_band_abs == 100_000_000,
    {
        VolatilityBandConfig { band_pct: 10_000_000, min_band_abs: 100_000_000 }
    }
}

/// Guardian configuration.
#[derive(Debug, Clone, Copy, PartialEq, Eq, Structural)]
pub struct GuardianConfig {
    pub volatility_band: VolatilityBandConfig,
    pub max_order_qty: u32,
    pub allow_short_selling: bool,
}

impl Default for GuardianConfig {
    /// The default band, 1,000,000 units per order, short selling allowed.
    fn default() -> (r: GuardianConfig)
        ensures
            r.volatility_band.band_pct == 10_000_000,
            r.volatility_band.min_band_abs == 100_000_000,
            r.max_order_qty == 1_000_000,
            r.allow_short_selling,
    {
        GuardianConfig { volatility_band: VolatilityBandConfig::default(), max_order_qty: 1_000_000, allow_short_selling: true }
    }
}

/// Why the Guardian refused an order.
#[derive(Debug, Clone, Copy, PartialEq, Eq, Structural)]
pub enum GuardianReject {
    InsufficientMargin { required: i64, available: i64 },
    OutsideVolatilityBand { order_price: i64, lower_bound: i64, upper_bound: i64 },
    MaxQuantityExceeded { requested: u32, max: u32 },
    InvalidPrice,
    InvalidQuantity,
    TraderBanned { trader_id: u32 },
    UnknownTrader { trader_id: u32 },
    InsufficientPosition { required: i64, current: i64 },
}

/// `x` clamped into the range of `i64`.
pub open spec fn clamp64(x: int) -> i64 {
    if x > i64::MAX {
        i64::MAX
    } else if x < i64::MIN {
        i64::MIN
    } else {
        x as i64
    }
}

/// Half-width of the band around reference `r`:
/// `max(|r| * band_pct / SCALE, min_band_abs)`, division truncating.
pub open spec fn band_width(r: i64, band: VolatilityBandConfig) -> int {
    let a: int = if r >= 0 { r as int } else { -(r as int) };
    let pct = trunc_div(a * band.band_pct, SCALE as int);
    if pct >= band.min_band_abs {
        pct
    } else {
        band.min_band_abs as int
    }
}

/// Margin that an order of `qty` at `price` locks: the notional.
pub open spec fn notional(price: int, qty: int) -> int {
    price * qty
}

/// The admission checks applied before margin is locked, in its fixed order.
pub open spec fn admission(
    banned: bool,
    cfg: GuardianConfig,
    reference: Option<i64>,
    account: Option<AccountView>,
    trader_id: u32,
    side: Side,
    price: i64,
    qty: u32,
    symbol_id: u32,
) -> Result<i64, GuardianReject> {
    if banned {
        Err(GuardianReject::TraderBanned { trader_id })
    } else if price <= 0 {
        Err(GuardianReject::InvalidPrice)
    } else if qty == 0 {
        Err(GuardianReject::InvalidQuantity)
    } else if qty > cfg.max_order_qty {
        Err(GuardianReject::MaxQuantityExceeded { requested: qty, max: cfg.max_order_qty })
    } else if reference is Some && (price < reference->0 - band_width(reference->0, cfg.volatility_band) || price
        > reference->0 + band_width(reference->0, cfg.volatility_band)) {
        Err(
            GuardianReject::OutsideVolatilityBand {
                order_price: price,
                lower_bound: clamp64(reference->0 - band_width(reference->0, cfg.volatility_band)),
                upper_bound: clamp64(reference->0 + band_width(reference->0, cfg.volatility_band)),
            },
        )
    } else if account is None {
        Err(GuardianReject::UnknownTrader { trader_id })
    } else if side == Side::Sell && !cfg.allow_short_selling && position_in((account->0).2, symbol_id) < qty {
        Err(
            GuardianReject::InsufficientPosition {
                required: qty as i64,
                current: position_in((account->0).2, symbol_id),
            },
        )
    } else if (account->0).0 < notional(price as int, qty as int) {
        Err(
            GuardianReject::InsufficientMargin {
                required: clamp64(notional(price as int, qty as int)),
                available: (account->0).0,
            },
        )
    } else {
        Ok(notional(price as int, qty as int) as i64)
    }
}

/// Balances (available, locked) after `amount` has been locked.
pub open spec fn after_lock(available: int, locked: int, amount: int) -> (int, int) {
    (available - amount, locked + amount)
}

/// Balances (available, locked) after a fill of `qty` at `fill_price` of an
/// order that locked margin at `order_price`. The lock for the filled part
/// is released; a buyer pays the fill's notional, a seller receives it.
pub open spec fn after_settle(side: Side, available: int, locked: int, order_price: int, fill_price: int, qty: int) -> (int, int) {
    let lock = notional(order_price, qty);
    let actual = notional(fill_price, qty);
    match side {
        Side::Buy => (available + lock - actual, locked - lock),
        Side::Sell => (available + lock + actual, locked - lock),
    }
}

/// Balances (available, locked) after the margin of `qty` unfilled units at
/// `order_price` has been released.
pub open spec fn after_unlock(available: int, locked: int, order_price: int, qty: int) -> (int, int) {
    (available + notional(order_price, qty), locked - notional(order_price, qty))
}

/// The position after a fill: up for a buy, down for a sell.
pub open spec fn position_after(side: Side, pos: int, qty: int) -> int {
    match side {
        Side::Buy => pos + qty,
        Side::Sell => pos - qty,
    }
}

/// Whether a settlement keeps the account within its invariant and the
/// position within an `i64`.
pub open spec fn settle_fits(a: Account, side: Side, order_price: i64, fill_price: i64, qty: u32, symbol_id: u32) -> bool {
    let b = after_settle(side, a.available_balance as int, a.locked_margin as int, order_price as int, fill_price as int, qty as int);
    let p = position_after(side, position_in(a.positions@, symbol_id) as int, qty as int);
    &&& account_ok(b.0, b.1)
    &&& i64::MIN <= p <= i64::MAX
    &&& 0 <= notional(order_price as int, qty as int)
}

/// The pre-trade risk guardian: accounts, margin, kill switch and
/// volatility band.
pub struct Guardian {
    accounts: BTreeMap<u32, Account>,
    account_ids: Vec<u32>,
    banned_traders: HashSet<u32>,
    reference_price: Option<i64>,
    config: GuardianConfig,
}

impl Guardian {
    /// The accounts by trader id.
    pub closed spec fn accounts(&self) -> Map<u32, Account> {
        self.accounts@
    }

    /// The banned trader ids.
    pub closed spec fn banned(&self) -> Set<u32> {
        self.banned_traders@
    }

    /// The reference price of the volatility band, if set.
    pub closed spec fn reference(&self) -> Option<i64> {
        self.reference_price
    }

    pub closed spec fn cfg(&self) -> GuardianConfig {
        self.config
    }

    /// Every account keeps both balances non-negative with a sum that fits,
    /// and the id list names exactly the accounts.
    pub closed spec fn wf(&self) -> bool {
        &&& forall|t: u32| #[trigger]
            self.accounts@.contains_key(t) ==> account_ok(
                self.accounts@[t].available_balance as int,
                self.accounts@[t].locked_margin as int,
            )
        &&& forall|i: int| 0 <= i < self.account_ids@.len() ==> self.accounts@.contains_key(#[trigger] self.account_ids@[i])
        &&& forall|t: u32| #[trigger] self.accounts@.contains_key(t) ==> self.account_ids@.contains(t)
    }

    /// Every account of a well-formed guardian is within its invariant.
    pub proof fn lemma_accounts_ok(&self, t: u32)
        requires
            self.wf(),
            self.accounts().contains_key(t),
        ensures
            account_ok(self.accounts()[t].available_balance as int, self.accounts()[t].locked_margin as int),
    {
    }

    /// A guardian with the default configuration.
    pub fn new() -> (r: Guardian)
        ensures
            r.wf(),
            r.accounts() == Map::<u32, Account>::empty(),
            r.banned() == Set::<u32>::empty(),
            r.reference() is None,
            r.cfg().volatility_band.band_pct == 10_000_000,
            r.cfg().volatility_band.min_band_abs == 100_000_000,
            r.cfg().max_order_qty == 1_000_000,
            r.cfg().allow_short_selling,
    {
        Self::with_config(GuardianConfig::default())
    }

    /// A guardian with no accounts and the given configuration.
    pub fn with_config(config: GuardianConfig) -> (r: Guardian)
        ensures
            r.wf(),
            r.accounts() == Map::<u32, Account>::empty(),
            r.banned() == Set::<u32>::empty(),
            r.reference() is None,
            r.cfg() == config,
    {
        Guardian {
            accounts: BTreeMap::new(),
            account_ids: Vec::new(),
            banned_traders: HashSet::new(),
            reference_price: None,
            config,
        }
    }
}


/// The notional of `qty` units at `price` is within 2^95 in size.
proof fn lemma_notional_bound(price: i64, qty: u32)
    ensures
        -0x8000_0000_0000_0000_0000_0000 <= (price as int) * (qty as int) <= 0x8000_0000_0000_0000_0000_0000,
{
    assert(-0x8000_0000_0000_0000 <= price as int <= 0x8000_0000_0000_0000);
    assert(0 <= qty as int <= 0x1_0000_0000);
    assert(-0x8000_0000_0000_0000_0000_0000 <= (price as int) * (qty as int) <= 0x8000_0000_0000_0000_0000_0000)
        by (nonlinear_arith)
        requires
            -0x8000_0000_0000_0000 <= price as int <= 0x8000_0000_0000_0000,
            0 <= qty as int <= 0x1_0000_0000,
    ;
}

/// Notional `price * qty` computed without overflow.
fn notional_wide(price: i64, qty: u32) -> (r: i128)
    ensures
        r as int == notional(price as int, qty as int),
        -0x8000_0000_0000_0000_0000_0000 <= r <= 0x8000_0000_0000_0000_0000_0000,
{
    proof { lemma_notional_bound(price, qty); }
    price as i128 * qty as i128
}

/// A copy of an account, positions included.
fn copy_account(a: &Account) -> (r: Account)
    ensures
        r.available_balance == a.available_balance,
        r.locked_margin == a.locked_margin,
        r.positions@ == a.positions@,
        r.realized_pnl == a.realized_pnl,
{
    Account {
        available_balance: a.available_balance,
        locked_margin: a.locked_margin,
        positions: a.positions.clone(),
        realized_pnl: a.realized_pnl,
    }
}

fn clamp_to_i64(x: i128) -> (r: i64)
    ensures
        r == clamp64(x as int),
{
    if x > i64::MAX as i128 {
        i64::MAX
    } else if x < i64::MIN as i128 {
        i64::MIN
    } else {
        x as i64
    }
}

/// `new` is `old` with the account of `t` holding the given balances and
/// positions and its previous realized PnL (zero for a new account); every
/// other account is unchanged.
pub open spec fn account_updated(
    old: Map<u32, Account>,
    new: Map<u32, Account>,
    t: u32,
    available: int,
    locked: int,
    positions: Map<u32, i64>,
) -> bool {
    &&& new.dom() == old.dom().insert(t)
    &&& new[t].available_balance == available
    &&& new[t].locked_margin == locked
    &&& new[t].positions@ == positions
    &&& new[t].realized_pnl == if old.contains_key(t) { old[t].realized_pnl } else { 0 }
    &&& forall|u: u32| u != t && #[trigger] old.contains_key(u) ==> new[u] == old[u]
}

impl Guardian {
    /// Replaces the account of `t`, which must keep the invariant.
    fn put_account(&mut self, t: u32, a: Account)
        requires
            old(self).wf(),
            account_ok(a.available_balance as int, a.locked_margin as int),
        ensures
            final(self).wf(),
            final(self).accounts() == old(self).accounts().insert(t, a),
            final(self).banned() == old(self).banned(),
            final(self).reference() == old(self).reference(),
            final(self).cfg() == old(self).cfg(),
    {
        let fresh = !self.accounts.contains_key(&t);
        self.accounts.insert(t, a);
        if fresh {
            self.account_ids.push(t);
        }
        proof {
            assert forall|i: int| 0 <= i < self.account_ids@.len() implies self.accounts@.contains_key(
                #[trigger] self.account_ids@[i],
            ) by {
                if i < old(self).account_ids@.len() {
                    assert(old(self).accounts@.contains_key(old(self).account_ids@[i]));
                }
            }
            assert forall|u: u32| #[trigger] self.accounts@.contains_key(u) implies self.account_ids@.contains(u) by {
                if u == t {
                    if fresh {
                        assert(self.account_ids@[self.account_ids@.len() - 1] == t);
                    }
                } else {
                    assert(old(self).account_ids@.contains(u));
                    let j = choose|j: int| 0 <= j < old(self).account_ids@.len() && old(self).account_ids@[j] == u;
                    assert(self.account_ids@[j] == u);
                }
            }
        }
    }

    /// Creates or tops up the account of `trader_id`. The deposit is applied,
    /// and `true` returned, when the account's balances stay non-negative
    /// with a sum that fits in an `i64`; otherwise nothing changes.
    pub fn add_funds(&mut self, trader_id: u32, amount: i64) -> (r: bool)
        requires
            old(self).wf(),
        ensures
            final(self).wf(),
            final(self).banned() == old(self).banned(),
            final(self).reference() == old(self).reference(),
            final(self).cfg() == old(self).cfg(),
            ({
                let had = old(self).accounts().contains_key(trader_id);
                let av: int = if had { old(self).accounts()[trader_id].available_balance as int } else { 0 };
                let lk: int = if had { old(self).accounts()[trader_id].locked_margin as int } else { 0 };
                let pos = if had { old(self).accounts()[trader_id].positions@ } else { Map::<u32, i64>::empty() };
                &&& r == account_ok(av + amount, lk)
                &&& r ==> account_updated(old(self).accounts(), final(self).accounts(), trader_id, av + amount, lk, pos)
                &&& !r ==> final(self).accounts() == old(self).accounts()
            }),
            ledger_of(final(self).accounts()) == deposit_view(ledger_of(old(self).accounts()), trader_id, amount),
    {
        let (av, lk) = match self.accounts.get(&trader_id) {
            Some(a) => (a.available_balance, a.locked_margin),
            None => (0i64, 0i64),
        };
        let new_av: i128 = av as i128 + amount as i128;
        if new_av + (lk as i128) < 0 || new_av + lk as i128 > i64::MAX as i128 {
            return false;
        }
        let mut a = match self.accounts.get(&trader_id) {
            Some(a) => copy_account(a),
            None => Account::new(0),
        };
        a.available_balance = new_av as i64;
        self.put_account(trader_id, a);
        proof {
            let g = old(self).accounts();
            let had = g.contains_key(trader_id);
            lemma_updated_ledger(
                g,
                self.accounts(),
                trader_id,
                new_av as int,
                lk as int,
                if had { g[trader_id].positions@ } else { Map::<u32, i64>::empty() },
            );
            assert(ledger_of(self.accounts()) =~= deposit_view(ledger_of(g), trader_id, amount));
        }
        true
    }
}


impl Guardian {
    /// The account of `trader_id`, if any.
    pub fn get_account(&self, trader_id: u32) -> (r: Option<&Account>)
        ensures
            r is Some <==> self.accounts().contains_key(trader_id),
            r is Some ==> *r->Some_0 == self.accounts()[trader_id],
    {
        self.accounts.get(&trader_id)
    }

    /// Bans a trader: every later order of theirs is refused.
    pub fn ban_trader(&mut self, trader_id: u32)
        requires
            old(self).wf(),
        ensures
            final(self).wf(),
            final(self).banned() == old(self).banned().insert(trader_id),
            final(self).accounts() == old(self).accounts(),
            final(self).reference() == old(self).reference(),
            final(self).cfg() == old(self).cfg(),
    {
        self.banned_traders.insert(trader_id);
    }

    /// Lifts a ban.
    pub fn unban_trader(&mut self, trader_id: u32)
        requires
            old(self).wf(),
        ensures
            final(self).wf(),
            final(self).banned() == old(self).banned().remove(trader_id),
            final(self).accounts() == old(self).accounts(),
            final(self).reference() == old(self).reference(),
            final(self).cfg() == old(self).cfg(),
    {
        self.banned_traders.remove(&trader_id);
    }

    /// Whether a trader is banned.
    pub fn is_banned(&self, trader_id: u32) -> (r: bool)
        ensures
            r == self.banned().contains(trader_id),
    {
        self.banned_traders.contains(&trader_id)
    }

    /// Bans every trader that has an account (emergency halt).
    pub fn ban_all_traders(&mut self)
        requires
            old(self).wf(),
        ensures
            final(self).wf(),
            final(self).banned() == old(self).banned() + old(self).accounts().dom(),
            final(self).accounts() == old(self).accounts(),
            final(self).reference() == old(self).reference(),
            final(self).cfg() == old(self).cfg(),
    {
        let mut i: usize = 0;
        while i < self.account_ids.len()
            invariant
                self.wf(),
                self.accounts@ == old(self).accounts@,
                self.account_ids@ == old(self).account_ids@,
                self.reference_price == old(self).reference_price,
                self.config == old(self).config,
                i <= self.account_ids@.len(),
                self.banned_traders@ == old(self).banned_traders@ + self.account_ids@.subrange(0, i as int).to_set(),
            decreases self.account_ids@.len() - i,
        {
            let id = self.account_ids[i];
            self.banned_traders.insert(id);
            proof {
                let ids = self.account_ids@;
                assert(ids.subrange(0, i as int + 1) =~= ids.subrange(0, i as int).push(id));
                ids.subrange(0, i as int).lemma_push_to_set_commute(id);
            }
            i = i + 1;
        }
        proof {
            let ids = self.account_ids@;
            assert(ids.subrange(0, ids.len() as int) =~= ids);
            assert(ids.to_set() =~= self.accounts@.dom()) by {
                assert forall|t: u32| ids.to_set().contains(t) implies self.accounts@.dom().contains(t) by {
                    let j = choose|j: int| 0 <= j < ids.len() && ids[j] == t;
                    assert(self.accounts@.contains_key(ids[j]));
                }
                assert forall|t: u32| self.accounts@.dom().contains(t) implies ids.to_set().contains(t) by {
                    assert(self.accounts@.contains_key(t));
                }
            }
        }
    }

    /// Lifts every ban.
    pub fn clear_all_bans(&mut self)
        requires
            old(self).wf(),
        ensures
            final(self).wf(),
            final(self).banned() == Set::<u32>::empty(),
            final(self).accounts() == old(self).accounts(),
            final(self).reference() == old(self).reference(),
            final(self).cfg() == old(self).cfg(),
    {
        self.banned_traders.clear();
    }

    /// Sets the reference price of the volatility band.
    pub fn set_reference_price(&mut self, price: i64)
        requires
            old(self).wf(),
        ensures
            final(self).wf(),
            final(self).reference() == Some(price),
            final(self).accounts() == old(self).accounts(),
            final(self).banned() == old(self).banned(),
            final(self).cfg() == old(self).cfg(),
    {
        self.reference_price = Some(price);
    }

    /// The volatility band configuration.
    pub fn volatility_band_config(&self) -> (r: &VolatilityBandConfig)
        ensures
            *r == self.cfg().volatility_band,
    {
        &self.config.volatility_band
    }

    /// Sets the band width as a fraction scaled by 10^8 (10% is 10_000_000).
    pub fn set_volatility_band_pct_scaled(&mut self, band_pct: i64)
        requires
            old(self).wf(),
        ensures
            final(self).wf(),
            final(self).cfg() == (GuardianConfig {
                volatility_band: VolatilityBandConfig { band_pct, ..old(self).cfg().volatility_band },
                ..old(self).cfg()
            }),
            final(self).accounts() == old(self).accounts(),
            final(self).banned() == old(self).banned(),
            final(self).reference() == old(self).reference(),
    {
        self.config.volatility_band.band_pct = band_pct;
    }

    /// Notional `price * qty`, exact.
    fn compute_notional(price: i64, qty: u32) -> (r: i64)
        requires
            i64::MIN <= notional(price as int, qty as int) <= i64::MAX,
        ensures
            r as int == notional(price as int, qty as int),
    {
        (notional_wide(price, qty)) as i64
    }

    /// Runs the admission checks (banned, price, quantity, cap, volatility band, account,
    /// position for sells without short selling, margin) and on success
    /// moves the order's notional from available to locked margin.
    pub fn validate_and_lock(&mut self, trader_id: u32, side: Side, price: i64, qty: u32, symbol_id: u32) -> (r: Result<i64, GuardianReject>)
        requires
            old(self).wf(),
        ensures
            final(self).wf(),
            final(self).banned() == old(self).banned(),
            final(self).reference() == old(self).reference(),
            final(self).cfg() == old(self).cfg(),
            r == admission(
                old(self).banned().contains(trader_id),
                old(self).cfg(),
                old(self).reference(),
                if old(self).accounts().contains_key(trader_id) { Some(account_view(old(self).accounts()[trader_id])) } else { None },
                trader_id,
                side,
                price,
                qty,
                symbol_id,
            ),
            r is Err ==> final(self).accounts() == old(self).accounts(),
            r matches Ok(amount) ==> {
                let a = old(self).accounts()[trader_id];
                let b = after_lock(a.available_balance as int, a.locked_margin as int, amount as int);
                &&& amount as int == notional(price as int, qty as int)
                &&& account_updated(old(self).accounts(), final(self).accounts(), trader_id, b.0, b.1, a.positions@)
                &&& ledger_of(final(self).accounts()) == lock_view(ledger_of(old(self).accounts()), trader_id, amount)
            },
    {
        if self.banned_traders.contains(&trader_id) {
            return Err(GuardianReject::TraderBanned { trader_id });
        }
        if price <= 0 {
            return Err(GuardianReject::InvalidPrice);
        }
        if qty == 0 {
            return Err(GuardianReject::InvalidQuantity);
        }
        if qty > self.config.max_order_qty {
            return Err(GuardianReject::MaxQuantityExceeded { requested: qty, max: self.config.max_order_qty });
        }
        if let Some(ref_price) = self.reference_price {
            let band = self.config.volatility_band;
            let abs_ref: i128 = if ref_price >= 0 { ref_price as i128 } else { -(ref_price as i128) };
            assert(-0x8000_0000_0000_0000i128 * 0x8000_0000_0000_0000i128 <= abs_ref * band.band_pct as i128
                <= 0x8000_0000_0000_0000i128 * 0x8000_0000_0000_0000i128) by (nonlinear_arith)
                requires
                    0 <= abs_ref <= 0x8000_0000_0000_0000i128,
                    -0x8000_0000_0000_0000i128 <= band.band_pct <= 0x8000_0000_0000_0000i128,
            ;
            let pct_band: i128 = trunc_div_i128(abs_ref * band.band_pct as i128, SCALE as i128);
            assert(-0x8000_0000_0000_0000i128 * 0x8000_0000_0000_0000i128 <= pct_band
                <= 0x8000_0000_0000_0000i128 * 0x8000_0000_0000_0000i128) by (nonlinear_arith)
                requires
                    -0x8000_0000_0000_0000i128 * 0x8000_0000_0000_0000i128 <= abs_ref * band.band_pct as i128
                        <= 0x8000_0000_0000_0000i128 * 0x8000_0000_0000_0000i128,
                    pct_band == trunc_div(abs_ref * band.band_pct as i128, 100_000_000),
            ;
            let effective: i128 = if pct_band >= band.min_band_abs as i128 { pct_band } else { band.min_band_abs as i128 };
            let lower: i128 = ref_price as i128 - effective;
            let upper: i128 = ref_price as i128 + effective;
            assert(abs_ref * band.band_pct as i128 == (if ref_price >= 0 { ref_price as int } else { -(ref_price as int) }) * band.band_pct);
            assert(effective == band_width(ref_price, band));
            if (price as i128) < lower || (price as i128) > upper {

            return Err(
                    GuardianReject::OutsideVolatilityBand {
                        order_price: price,
                        lower_bound: clamp_to_i64(lower),
                        upper_bound: clamp_to_i64(upper),
                    },
                );
            }
        }
        let (available, locked, position) = match self.accounts.get(&trader_id) {
            None => {
            return Err(GuardianReject::UnknownTrader { trader_id });
            },
            Some(a) => (a.available_balance, a.locked_margin, a.position(symbol_id)),
        };
        if side == Side::Sell && !self.config.allow_short_selling && position < qty as i64 {
            return Err(GuardianReject::InsufficientPosition { required: qty as i64, current: position });
        }
        let required = notional_wide(price, qty);
        if (available as i128) < required {
            
            return Err(GuardianReject::InsufficientMargin { required: clamp_to_i64(required), available });
        }
        proof {
            assert(account_ok(available as int, locked as int));
        }
        let mut a = match self.accounts.get(&trader_id) {
            Some(a) => copy_account(a),
            None => Account::new(0),
        };
        a.available_balance = (available as i128 - required) as i64;
        a.locked_margin = (locked as i128 + required) as i64;
        self.put_account(trader_id, a);
        proof {
            lemma_updated_ledger(
                old(self).accounts(),
                self.accounts(),
                trader_id,
                available - required,
                locked + required,
                old(self).accounts()[trader_id].positions@,
            );
            assert(ledger_of(self.accounts()) =~= lock_view(ledger_of(old(self).accounts()), trader_id, required as i64));
        }
        Ok(required as i64)
    }

    /// Settles one fill of an order that locked margin at `order_price`: the
    /// lock for the filled part is released, a buyer pays and a seller
    /// receives `fill_price * fill_qty`, and the position moves by
    /// `fill_qty`. Applied, and `true` returned, when the trader has an
    /// account and the result keeps it within its invariant; otherwise
    /// nothing changes.
    pub fn settle_fill(&mut self, trader_id: u32, side: Side, order_price: i64, fill_price: i64, fill_qty: u32, symbol_id: u32) -> (r: bool)
        requires
            old(self).wf(),
        ensures
            final(self).wf(),
            final(self).banned() == old(self).banned(),
            final(self).reference() == old(self).reference(),
            final(self).cfg() == old(self).cfg(),
            r == (old(self).accounts().contains_key(trader_id) && settle_fits(
                old(self).accounts()[trader_id],
                side,
                order_price,
                fill_price,
                fill_qty,
                symbol_id,
            )),
            !r ==> final(self).accounts() == old(self).accounts(),
            r ==> {
                let a = old(self).accounts()[trader_id];
                let b = after_settle(side, a.available_balance as int, a.locked_margin as int, order_price as int, fill_price as int, fill_qty as int);
                let p = position_after(side, position_in(a.positions@, symbol_id) as int, fill_qty as int);
                account_updated(old(self).accounts(), final(self).accounts(), trader_id, b.0, b.1, a.positions@.insert(symbol_id, p as i64))
            },
            ledger_of(final(self).accounts()) == settle_view(
                ledger_of(old(self).accounts()),
                trader_id,
                side,
                order_price,
                fill_price,
                fill_qty,
                symbol_id,
            ),
    {
        let a0 = match self.accounts.get(&trader_id) {
            None => {
                return false;
            },
            Some(a) => a,
        };
        let lock = notional_wide(order_price, fill_qty);
        let actual = notional_wide(fill_price, fill_qty);
        let av = a0.available_balance as i128;
        let lk = a0.locked_margin as i128;
        let new_av: i128 = match side {
            Side::Buy => av + lock - actual,
            Side::Sell => av + lock + actual,
        };
        let new_lk: i128 = lk - lock;
        let pos = a0.position(symbol_id) as i128;
        let new_pos: i128 = match side {
            Side::Buy => pos + fill_qty as i128,
            Side::Sell => pos - fill_qty as i128,
        };
        if lock < 0 || new_lk < 0 || new_av + new_lk < 0 || new_av + new_lk > i64::MAX as i128 || new_pos < i64::MIN as i128
            || new_pos > i64::MAX as i128 {
            return false;
        }
        let mut a = copy_account(a0);
        a.available_balance = new_av as i64;
        a.locked_margin = new_lk as i64;
        a.positions.insert(symbol_id, new_pos as i64);
        self.put_account(trader_id, a);
        proof {
            lemma_updated_ledger(
                old(self).accounts(),
                self.accounts(),
                trader_id,
                new_av as int,
                new_lk as int,
                old(self).accounts()[trader_id].positions@.insert(symbol_id, new_pos as i64),
            );
        }
        true
    }

    /// `settle_fill`, after which, when applied, the fill's price becomes
    /// the reference price of the volatility band.
    pub fn settle_fill_v2(&mut self, trader_id: u32, side: Side, order_price: i64, fill_price: i64, fill_qty: u32, symbol_id: u32) -> (r: bool)
        requires
            old(self).wf(),
        ensures
            final(self).wf(),
            final(self).banned() == old(self).banned(),
            final(self).cfg() == old(self).cfg(),
            r == (old(self).accounts().contains_key(trader_id) && settle_fits(
                old(self).accounts()[trader_id],
                side,
                order_price,
                fill_price,
                fill_qty,
                symbol_id,
            )),
            !r ==> final(self).accounts() == old(self).accounts() && final(self).reference() == old(self).reference(),
            r ==> {
                let a = old(self).accounts()[trader_id];
                let b = after_settle(side, a.available_balance as int, a.locked_margin as int, order_price as int, fill_price as int, fill_qty as int);
                let p = position_after(side, position_in(a.positions@, symbol_id) as int, fill_qty as int);
                &&& account_updated(old(self).accounts(), final(self).accounts(), trader_id, b.0, b.1, a.positions@.insert(symbol_id, p as i64))
                &&& final(self).reference() == Some(fill_price)
            },
            ledger_of(final(self).accounts()) == settle_view(
                ledger_of(old(self).accounts()),
                trader_id,
                side,
                order_price,
                fill_price,
                fill_qty,
                symbol_id,
            ),
    {
        let applied = self.settle_fill(trader_id, side, order_price, fill_price, fill_qty, symbol_id);
        if applied {
            self.reference_price = Some(fill_price);
        }
        applied
    }

    /// Releases the margin of `unfilled_qty` units locked at `order_price`
    /// (a cancelled remainder). Applied, and `true` returned, when the
    /// trader has an account whose locked margin covers a non-negative
    /// amount; otherwise nothing changes.
    pub fn unlock_margin(&mut self, trader_id: u32, order_price: i64, unfilled_qty: u32) -> (r: bool)
        requires
            old(self).wf(),
        ensures
            final(self).wf(),
            final(self).banned() == old(self).banned(),
            final(self).reference() == old(self).reference(),
            final(self).cfg() == old(self).cfg(),
            r == (old(self).accounts().contains_key(trader_id) && 0 <= notional(order_price as int, unfilled_qty as int)
                <= old(self).accounts()[trader_id].locked_margin),
            !r ==> final(self).accounts() == old(self).accounts(),
            r ==> {
                let a = old(self).accounts()[trader_id];
                let b = after_unlock(a.available_balance as int, a.locked_margin as int, order_price as int, unfilled_qty as int);
                account_updated(old(self).accounts(), final(self).accounts(), trader_id, b.0, b.1, a.positions@)
            },
            ledger_of(final(self).accounts()) == unlock_view(ledger_of(old(self).accounts()), trader_id, order_price, unfilled_qty),
    {
        let a0 = match self.accounts.get(&trader_id) {
            None => {
                return false;
            },
            Some(a) => a,
        };
        let amount = notional_wide(order_price, unfilled_qty);
        if amount < 0 || amount > a0.locked_margin as i128 {
            return false;
        }
        let av0 = a0.available_balance;
        let lk0 = a0.locked_margin;
        let mut a = copy_account(a0);
        a.locked_margin = (lk0 as i128 - amount) as i64;
        a.available_balance = (av0 as i128 + amount) as i64;
        self.put_account(trader_id, a);
        proof {
            lemma_updated_ledger(
                old(self).accounts(),
                self.accounts(),
                trader_id,
                av0 + amount,
                lk0 - amount,
                old(self).accounts()[trader_id].positions@,
            );
        }
        true
    }
}


/// One step of an account's margin lifecycle.
#[derive(Debug, Clone, Copy, PartialEq, Eq, Structural)]
pub enum MarginEvent {
    Lock { price: i64, qty: u32 },
    Settle { side: Side, order_price: i64, fill_price: i64, qty: u32 },
    Unlock { price: i64, qty: u32 },
}

/// Balances (available, locked) after one event.
pub open spec fn apply_event(b: (int, int), e: MarginEvent) -> (int, int) {
    match e {
        MarginEvent::Lock { price, qty } => after_lock(b.0, b.1, notional(price as int, qty as int)),
        MarginEvent::Settle { side, order_price, fill_price, qty } => after_settle(
            side,
            b.0,
            b.1,
            order_price as int,
            fill_price as int,
            qty as int,
        ),
        MarginEvent::Unlock { price, qty } => after_unlock(b.0, b.1, price as int, qty as int),
    }
}

/// Balances after a sequence of events, in order.
pub open spec fn apply_events(b: (int, int), evs: Seq<MarginEvent>) -> (int, int)
    decreases evs.len(),
{
    if evs.len() == 0 {
        b
    } else {
        apply_event(apply_events(b, evs.drop_last()), evs.last())
    }
}

/// Cash that leaves (negative) or enters (positive) the account: a buy fill
/// pays its notional, a sell fill receives it; locks and unlocks move none.
pub open spec fn cash_flow(e: MarginEvent) -> int {
    match e {
        MarginEvent::Settle { side, fill_price, qty, .. } => match side {
            Side::Buy => -notional(fill_price as int, qty as int),
            Side::Sell => notional(fill_price as int, qty as int),
        },
        _ => 0,
    }
}

pub open spec fn total_cash_flow(evs: Seq<MarginEvent>) -> int
    decreases evs.len(),
{
    if evs.len() == 0 {
        0
    } else {
        total_cash_flow(evs.drop_last()) + cash_flow(evs.last())
    }
}

/// Change of locked margin by one event.
pub open spec fn lock_delta(e: MarginEvent) -> int {
    match e {
        MarginEvent::Lock { price, qty } => notional(price as int, qty as int),
        MarginEvent::Settle { order_price, qty, .. } => -notional(order_price as int, qty as int),
        MarginEvent::Unlock { price, qty } => -notional(price as int, qty as int),
    }
}

pub open spec fn total_lock_delta(evs: Seq<MarginEvent>) -> int
    decreases evs.len(),
{
    if evs.len() == 0 {
        0
    } else {
        total_lock_delta(evs.drop_last()) + lock_delta(evs.last())
    }
}

/// Units bought (positive) or sold (negative) by one event.
pub open spec fn position_delta(e: MarginEvent) -> int {
    match e {
        MarginEvent::Settle { side, qty, .. } => position_after(side, 0, qty as int),
        _ => 0,
    }
}

pub open spec fn total_position_delta(evs: Seq<MarginEvent>) -> int
    decreases evs.len(),
{
    if evs.len() == 0 {
        0
    } else {
        total_position_delta(evs.drop_last()) + position_delta(evs.last())
    }
}

/// Every fill of the sequence executes at `mark`.
pub open spec fn fills_at(evs: Seq<MarginEvent>, mark: i64) -> bool {
    forall|i: int| 0 <= i < evs.len() ==> (#[trigger] evs[i] matches MarginEvent::Settle { fill_price, .. } ==> fill_price == mark)
}

/// Equity conservation: over any sequence of locks, settlements and
/// unlocks, available plus locked changes by exactly the cash that fills
/// paid or received, and locked margin by exactly what was locked minus what
/// was released. So once every open order is settled or cancelled, locked
/// margin is back where it started.
pub proof fn lemma_equity_conservation(b: (int, int), evs: Seq<MarginEvent>)
    ensures
        apply_events(b, evs).0 + apply_events(b, evs).1 == b.0 + b.1 + total_cash_flow(evs),
        apply_events(b, evs).1 == b.1 + total_lock_delta(evs),
    decreases evs.len(),
{
    if evs.len() > 0 {
        lemma_equity_conservation(b, evs.drop_last());
    }
}

/// With every fill at one price `mark`, equity counted with the position at
/// that mark is conserved: available + locked + mark * (position change)
/// equals the starting available + locked.
pub proof fn lemma_marked_equity_conserved(b: (int, int), evs: Seq<MarginEvent>, mark: i64)
    requires
        fills_at(evs, mark),
    ensures
        apply_events(b, evs).0 + apply_events(b, evs).1 + mark * total_position_delta(evs) == b.0 + b.1,
    decreases evs.len(),
{
    if evs.len() > 0 {
        let p = evs.drop_last();
        assert forall|i: int| 0 <= i < p.len() implies (#[trigger] p[i] matches MarginEvent::Settle { fill_price, .. }
            ==> fill_price == mark) by {
            assert(p[i] == evs[i]);
        }
        lemma_marked_equity_conserved(b, p, mark);
        lemma_equity_conservation(b, evs);
        lemma_equity_conservation(b, p);
        let e = evs.last();
        assert(e == evs[evs.len() - 1]);
        match e {
            MarginEvent::Settle { side, fill_price, qty, .. } => {
                assert(mark * total_position_delta(evs) == mark * total_position_delta(p) + mark * position_delta(e))
                    by (nonlinear_arith)
                    requires
                        total_position_delta(evs) == total_position_delta(p) + position_delta(e),
                ;
                assert(mark * position_delta(e) == -cash_flow(e)) by (nonlinear_arith)
                    requires
                        fill_price == mark,
                        position_delta(e) == (if side == Side::Buy { qty as int } else { -(qty as int) }),
                        cash_flow(e) == (if side == Side::Buy { -(fill_price * qty) } else { fill_price * qty }),
                ;
            },
            _ => {},
        }
    }
}

/// A buy that locks `lock_qty` at `price`, fills `fill_qty` of it at
/// `fill_price`, and has the rest cancelled leaves nothing locked and the
/// account short of exactly `fill_price * fill_qty`.
pub proof fn lemma_partial_fill_then_cancel(initial: int, price: int, lock_qty: int, fill_price: int, fill_qty: int)
    requires
        0 <= fill_qty <= lock_qty,
    ensures
        ({
            let l = after_lock(initial, 0, notional(price, lock_qty));
            let s = after_settle(Side::Buy, l.0, l.1, price, fill_price, fill_qty);
            let u = after_unlock(s.0, s.1, price, lock_qty - fill_qty);
            &&& u.0 == initial - fill_price * fill_qty
            &&& u.1 == 0
        }),
{
    assert(price * lock_qty - price * fill_qty - price * (lock_qty - fill_qty) == 0) by (nonlinear_arith);
}


/// An account as the ledger sees it: (available, locked, positions, realized PnL).
pub type AccountView = (i64, i64, Map<u32, i64>, i64);

pub open spec fn account_view(a: Account) -> AccountView {
    (a.available_balance, a.locked_margin, a.positions@, a.realized_pnl)
}

/// The ledger: every account's view by trader id.
pub open spec fn ledger_of(accounts: Map<u32, Account>) -> Map<u32, AccountView> {
    accounts.map_values(|a: Account| account_view(a))
}

pub open spec fn settle_fits_view(a: AccountView, side: Side, order_price: i64, fill_price: i64, qty: u32, symbol_id: u32) -> bool {
    let b = after_settle(side, a.0 as int, a.1 as int, order_price as int, fill_price as int, qty as int);
    let p = position_after(side, position_in(a.2, symbol_id) as int, qty as int);
    &&& account_ok(b.0, b.1)
    &&& i64::MIN <= p <= i64::MAX
    &&& 0 <= notional(order_price as int, qty as int)
}

/// The ledger after `settle_fill`.
pub open spec fn settle_view(
    l: Map<u32, AccountView>,
    t: u32,
    side: Side,
    order_price: i64,
    fill_price: i64,
    qty: u32,
    symbol_id: u32,
) -> Map<u32, AccountView> {
    if l.contains_key(t) && settle_fits_view(l[t], side, order_price, fill_price, qty, symbol_id) {
        let a = l[t];
        let b = after_settle(side, a.0 as int, a.1 as int, order_price as int, fill_price as int, qty as int);
        let p = position_after(side, position_in(a.2, symbol_id) as int, qty as int);
        l.insert(t, (b.0 as i64, b.1 as i64, a.2.insert(symbol_id, p as i64), a.3))
    } else {
        l
    }
}

/// The ledger after locking `amount` for `t`.
pub open spec fn lock_view(l: Map<u32, AccountView>, t: u32, amount: i64) -> Map<u32, AccountView> {
    let a = l[t];
    l.insert(t, ((a.0 - amount) as i64, (a.1 + amount) as i64, a.2, a.3))
}

/// The ledger after `unlock_margin`.
pub open spec fn unlock_view(l: Map<u32, AccountView>, t: u32, order_price: i64, qty: u32) -> Map<u32, AccountView> {
    if l.contains_key(t) && 0 <= notional(order_price as int, qty as int) <= l[t].1 {
        let a = l[t];
        let b = after_unlock(a.0 as int, a.1 as int, order_price as int, qty as int);
        l.insert(t, (b.0 as i64, b.1 as i64, a.2, a.3))
    } else {
        l
    }
}

/// An account update seen through the ledger.
pub proof fn lemma_updated_ledger(
    old: Map<u32, Account>,
    new: Map<u32, Account>,
    t: u32,
    available: int,
    locked: int,
    positions: Map<u32, i64>,
)
    requires
        account_updated(old, new, t, available, locked, positions),
        new[t].available_balance == available,
        new[t].locked_margin == locked,
    ensures
        ledger_of(new) == ledger_of(old).insert(
            t,
            (available as i64, locked as i64, positions, if old.contains_key(t) { old[t].realized_pnl } else { 0 }),
        ),
{
    assert(ledger_of(new) =~= ledger_of(old).insert(
        t,
        (available as i64, locked as i64, positions, if old.contains_key(t) { old[t].realized_pnl } else { 0 }),
    ));
}


impl Default for Guardian {
    /// `Guardian::new()`.
    fn default() -> (r: Guardian)
        ensures
            r.wf(),
            r.accounts() == Map::<u32, Account>::empty(),
            r.banned() == Set::<u32>::empty(),
            r.reference() is None,
            r.cfg().volatility_band.band_pct == 10_000_000,
            r.cfg().volatility_band.min_band_abs == 100_000_000,
            r.cfg().max_order_qty == 1_000_000,
            r.cfg().allow_short_selling,
    {
        Self::new()
    }
}


/// The ledger after a deposit of `amount` to `t`: applied, creating the
/// account when absent, exactly when the account stays within its invariant.
pub open spec fn deposit_view(l: Map<u32, AccountView>, t: u32, amount: i64) -> Map<u32, AccountView> {
    let a: AccountView = if l.contains_key(t) { l[t] } else { (0i64, 0i64, Map::<u32, i64>::empty(), 0i64) };
    if account_ok(a.0 + amount, a.1 as int) {
        l.insert(t, ((a.0 + amount) as i64, a.1, a.2, a.3))
    } else {
        l
    }
}

} // verus!
