use vstd::prelude::*;
use crate::side::Side;

verus! {

/// A resting order. `order_id` is engine-assigned; `ts` is the deterministic
/// tick at insertion.
#[derive(Debug, Clone, Copy, PartialEq, Eq, Structural)]
pub struct Order {
    pub trader_id: u32,
    pub order_id: u64,
    pub price: i64,
    pub qty: u32,
    pub ts: u64,
}

/// The FIFO queue of orders resting at one price.
#[derive(Debug)]
pub struct PriceLevel {
    pub price: i64,
    pub orders: Vec<Order>,
}

/// One aggregated level of an L2 snapshot.
#[derive(Debug, Clone, Copy, PartialEq, Eq, Structural)]
pub struct L2Level {
    pub price: i64,
    pub qty: u64,
    pub order_count: usize,
}

/// A price level as the contracts see it: its price and its FIFO.
pub type LevelView = (i64, Seq<Order>);

/// `a` is a strictly better price than `b` on this side of the book:
/// higher for bids, lower for asks.
pub open spec fn better(is_bid: bool, a: i64, b: i64) -> bool {
    if is_bid {
        a > b
    } else {
        a < b
    }
}

/// Executable form of `better`.
pub fn is_better(is_bid: bool, a: i64, b: i64) -> (r: bool)
    ensures
        r == better(is_bid, a, b),
{
    if is_bid {
        a > b
    } else {
        a < b
    }
}

/// All orders of a side in priority order: best level first, FIFO within.
pub open spec fn flatten(v: Seq<LevelView>) -> Seq<Order>
    decreases v.len(),
{
    if v.len() == 0 {
        Seq::empty()
    } else {
        v[0].1 + flatten(v.drop_first())
    }
}

/// Sum of the quantities of a sequence of orders.
pub open spec fn sum_qty(s: Seq<Order>) -> nat
    decreases s.len(),
{
    if s.len() == 0 {
        0
    } else {
        s[0].qty as nat + sum_qty(s.drop_first())
    }
}

/// Levels strictly ordered best first, none empty, every order at its
/// level's price with a positive quantity.
pub open spec fn levels_wf(v: Seq<LevelView>, is_bid: bool) -> bool {
    &&& forall|i: int, j: int| 0 <= i < j < v.len() ==> better(is_bid, #[trigger] v[i].0, #[trigger] v[j].0)
    &&& forall|i: int| 0 <= i < v.len() ==> (#[trigger] v[i]).1.len() > 0
    &&& forall|i: int, k: int|
        0 <= i < v.len() && 0 <= k < v[i].1.len() ==> (#[trigger] v[i].1[k]).price == v[i].0 && v[i].1[k].qty > 0
}

/// Number of leading levels whose price is strictly better than `p`.
pub open spec fn count_better(v: Seq<LevelView>, p: i64, is_bid: bool) -> nat
    decreases v.len(),
{
    if v.len() > 0 && better(is_bid, v[0].0, p) {
        1 + count_better(v.drop_first(), p, is_bid)
    } else {
        0
    }
}

/// The levels after `o` has been appended to the FIFO at its price, the level
/// being created where it is absent.
pub open spec fn insert_level(v: Seq<LevelView>, o: Order, is_bid: bool) -> Seq<LevelView> {
    let i = count_better(v, o.price, is_bid) as int;
    if i < v.len() && v[i].0 == o.price {
        v.update(i, (o.price, v[i].1.push(o)))
    } else {
        v.insert(i, (o.price, seq![o]))
    }
}

pub proof fn lemma_sum_concat(a: Seq<Order>, b: Seq<Order>)
    ensures
        sum_qty(a + b) == sum_qty(a) + sum_qty(b),
    decreases a.len(),
{
    if a.len() == 0 {
        assert(a + b =~= b);
    } else {
        assert((a + b).drop_first() =~= a.drop_first() + b);
        lemma_sum_concat(a.drop_first(), b);
    }
}

pub proof fn lemma_flatten_concat(a: Seq<LevelView>, b: Seq<LevelView>)
    ensures
        flatten(a + b) == flatten(a) + flatten(b),
    decreases a.len(),
{
    if a.len() == 0 {
        assert(a + b =~= b);
        assert(flatten(a) + flatten(b) =~= flatten(b));
    } else {
        assert((a + b).drop_first() =~= a.drop_first() + b);
        lemma_flatten_concat(a.drop_first(), b);
        assert(flatten(a + b) =~= flatten(a) + flatten(b));
    }
}

proof fn lemma_count_better(v: Seq<LevelView>, p: i64, is_bid: bool)
    ensures
        count_better(v, p, is_bid) <= v.len(),
        forall|j: int| 0 <= j < count_better(v, p, is_bid) ==> better(is_bid, #[trigger] v[j].0, p),
        count_better(v, p, is_bid) < v.len() ==> !better(is_bid, v[count_better(v, p, is_bid) as int].0, p),
    decreases v.len(),
{
    if v.len() > 0 && better(is_bid, v[0].0, p) {
        lemma_count_better(v.drop_first(), p, is_bid);
        assert forall|j: int| 0 <= j < count_better(v, p, is_bid) implies better(is_bid, #[trigger] v[j].0, p) by {
            if j > 0 {
                assert(v[j] == v.drop_first()[j - 1]);
            }
        }
    }
}

proof fn lemma_count_better_is(v: Seq<LevelView>, p: i64, is_bid: bool, i: int)
    requires
        0 <= i <= v.len(),
        forall|j: int| 0 <= j < i ==> better(is_bid, #[trigger] v[j].0, p),
        i < v.len() ==> !better(is_bid, v[i].0, p),
    ensures
        count_better(v, p, is_bid) == i,
    decreases v.len(),
{
    if i > 0 {
        assert(better(is_bid, v[0].0, p));
        assert forall|j: int| 0 <= j < i - 1 implies better(is_bid, #[trigger] v.drop_first()[j].0, p) by {
            assert(v.drop_first()[j] == v[j + 1]);
        }
        lemma_count_better_is(v.drop_first(), p, is_bid, i - 1);
    }
}

/// Flattening a level sequence with one level replaced or inserted.
proof fn lemma_flatten_split(v: Seq<LevelView>, i: int)
    requires
        0 <= i <= v.len(),
    ensures
        flatten(v) == flatten(v.subrange(0, i)) + flatten(v.subrange(i, v.len() as int)),
{
    assert(v =~= v.subrange(0, i) + v.subrange(i, v.len() as int));
    lemma_flatten_concat(v.subrange(0, i), v.subrange(i, v.len() as int));
}

proof fn lemma_flatten_cons(x: LevelView, rest: Seq<LevelView>)
    ensures
        flatten(seq![x] + rest) == x.1 + flatten(rest),
{
    assert((seq![x] + rest).drop_first() =~= rest);
}

proof fn lemma_insert_level(v: Seq<LevelView>, o: Order, is_bid: bool)
    requires
        levels_wf(v, is_bid),
        o.qty > 0,
    ensures
        levels_wf(insert_level(v, o, is_bid), is_bid),
        sum_qty(flatten(insert_level(v, o, is_bid))) == sum_qty(flatten(v)) + o.qty,
{
    lemma_count_better(v, o.price, is_bid);
    let i = count_better(v, o.price, is_bid) as int;
    let n = v.len() as int;
    let pre = v.subrange(0, i);
    let post = v.subrange(i, n);
    lemma_flatten_split(v, i);
    lemma_sum_concat(flatten(pre), flatten(post));
    let w = insert_level(v, o, is_bid);
    if i < n && v[i].0 == o.price {
        let x = (o.price, v[i].1.push(o));
        assert(post =~= seq![v[i]] + v.subrange(i + 1, n));
        lemma_flatten_cons(v[i], v.subrange(i + 1, n));
        assert(w =~= pre + (seq![x] + v.subrange(i + 1, n)));
        lemma_flatten_concat(pre, seq![x] + v.subrange(i + 1, n));
        lemma_flatten_cons(x, v.subrange(i + 1, n));
        lemma_sum_concat(flatten(pre), flatten(seq![x] + v.subrange(i + 1, n)));
        lemma_sum_concat(v[i].1, flatten(v.subrange(i + 1, n)));
        lemma_sum_concat(x.1, flatten(v.subrange(i + 1, n)));
        lemma_sum_concat(v[i].1, seq![o]);
        assert(x.1 =~= v[i].1 + seq![o]);
        assert(seq![o].drop_first() =~= Seq::<Order>::empty());
        reveal_with_fuel(sum_qty, 2);
        assert(sum_qty(seq![o]) == o.qty);
        assert(flatten(post) == v[i].1 + flatten(v.subrange(i + 1, n)));
        assert(flatten(w) == flatten(pre) + (x.1 + flatten(v.subrange(i + 1, n))));
        assert forall|a: int, k: int| 0 <= a < w.len() && 0 <= k < w[a].1.len() implies (#[trigger] w[a].1[k]).price
            == w[a].0 && w[a].1[k].qty > 0 by {
            if a == i && k == v[i].1.len() {
            } else {
                assert(w[a].1[k] == v[a].1[k]);
            }
        }
    } else {
        let x = (o.price, seq![o]);
        assert(w == v.insert(i, x));
        assert(w =~= pre + (seq![x] + post));
        lemma_flatten_concat(pre, seq![x] + post);
        lemma_flatten_cons(x, post);
        lemma_sum_concat(seq![o], flatten(post));
        lemma_sum_concat(flatten(pre), seq![o] + flatten(post));
        assert(seq![o].drop_first() =~= Seq::<Order>::empty());
        reveal_with_fuel(sum_qty, 2);
        assert(sum_qty(seq![o]) == o.qty);
        assert forall|a: int, b: int| 0 <= a < b < w.len() implies better(is_bid, #[trigger] w[a].0, #[trigger] w[b].0) by {
            if a < i && b == i {
            } else if a == i {
                assert(w[b] == v[b - 1]);
                assert(better(is_bid, v[i].0, v[b - 1].0) || b - 1 == i);
            } else if a < i && b < i {
            } else if a < i {
                assert(w[b] == v[b - 1]);
            } else {
                assert(w[a] == v[a - 1]);
                assert(w[b] == v[b - 1]);
            }
        }
        assert forall|a: int, k: int| 0 <= a < w.len() && 0 <= k < w[a].1.len() implies (#[trigger] w[a].1[k]).price
            == w[a].0 && w[a].1[k].qty > 0 by {
            if a < i {
            } else if a == i {
            } else {
                assert(w[a] == v[a - 1]);
            }
        }
        assert forall|a: int| 0 <= a < w.len() implies (#[trigger] w[a]).1.len() > 0 by {
            if a > i {
                assert(w[a] == v[a - 1]);
            }
        }
    }
}

/// One side of the book: price levels best first, with the total quantity
/// resting on the side.
#[derive(Debug)]
pub struct BookSide {
    pub is_bid: bool,
    pub levels: Vec<PriceLevel>,
    pub total_qty: u64,
}

pub open spec fn level_view(l: PriceLevel) -> LevelView {
    (l.price, l.orders@)
}

impl BookSide {
    pub open spec fn view_levels(&self) -> Seq<LevelView> {
        self.levels@.map_values(|l: PriceLevel| level_view(l))
    }

    /// All resting orders of this side in priority order.
    pub open spec fn orders(&self) -> Seq<Order> {
        flatten(self.view_levels())
    }

    /// No level is empty, levels are strictly ordered best first, and
    /// `total_qty` is the sum of the quantities of all resting orders.
    pub open spec fn wf(&self) -> bool {
        &&& levels_wf(self.view_levels(), self.is_bid)
        &&& self.total_qty as nat == sum_qty(self.orders())
    }

    /// An empty side: bids when `is_bid`, asks otherwise.
    pub fn new(is_bid: bool) -> (r: BookSide)
        ensures
            r.wf(),
            r.is_bid == is_bid,
            r.view_levels().len() == 0,
            r.orders().len() == 0,
    {
        let r = BookSide { is_bid, levels: Vec::new(), total_qty: 0 };
        assert(r.view_levels() =~= Seq::<LevelView>::empty());
        r
    }

    /// The best price: highest bid or lowest ask.
    pub fn best(&self) -> (r: Option<i64>)
        requires
            self.wf(),
        ensures
            self.view_levels().len() == 0 ==> r is None,
            self.view_levels().len() > 0 ==> r == Some(self.view_levels()[0].0),
            self.orders().len() > 0 ==> r == Some(self.orders()[0].price),
            self.orders().len() == 0 ==> r is None,
    {
        proof { self.lemma_front(); }
        if self.levels.len() == 0 {
            None
        } else {
            Some(self.levels[0].price)
        }
    }

    proof fn lemma_front(&self)
        requires
            self.wf(),
        ensures
            self.view_levels().len() == 0 <==> self.orders().len() == 0,
            self.view_levels().len() > 0 ==> self.orders()[0] == self.view_levels()[0].1[0],
            self.view_levels().len() > 0 ==> self.orders()[0].price == self.view_levels()[0].0,
    {
        let v = self.view_levels();
        if v.len() == 0 {
            assert(self.orders() =~= Seq::<Order>::empty());
        } else {
            assert(v[0].1.len() > 0);
        }
    }

    /// Appends `o` to the FIFO at its price, creating the level if absent.
    pub fn insert(&mut self, o: Order)
        requires
            old(self).wf(),
            o.qty > 0,
            old(self).total_qty + o.qty <= u64::MAX,
        ensures
            final(self).wf(),
            final(self).is_bid == old(self).is_bid,
            final(self).view_levels() == insert_level(old(self).view_levels(), o, old(self).is_bid),
            final(self).total_qty == old(self).total_qty + o.qty,
    {
        let ghost v = self.view_levels();
        let mut i: usize = 0;
        while i < self.levels.len() && is_better(self.is_bid, self.levels[i].price, o.price)
            invariant
                v == self.view_levels(),
                i <= v.len(),
                forall|j: int| 0 <= j < i ==> better(self.is_bid, #[trigger] v[j].0, o.price),
            decreases v.len() - i,
        {
            i = i + 1;
        }
        proof {
            lemma_count_better_is(v, o.price, self.is_bid, i as int);
            lemma_insert_level(v, o, self.is_bid);
        }
        if i < self.levels.len() && self.levels[i].price == o.price {
            let mut lvl = self.levels.remove(i);
            lvl.orders.push(o);
            self.levels.insert(i, lvl);
        } else {
            let mut orders: Vec<Order> = Vec::new();
            orders.push(o);
            self.levels.insert(i, PriceLevel { price: o.price, orders });
        }
        assert(self.view_levels() =~= insert_level(v, o, self.is_bid));
        self.total_qty = self.total_qty + o.qty as u64;
    }
}


/// Orders that do not belong to trader `t`.
pub open spec fn not_of_trader(t: u32) -> spec_fn(Order) -> bool {
    |o: Order| o.trader_id != t
}

/// Orders that belong to trader `t`.
pub open spec fn of_trader(t: u32) -> spec_fn(Order) -> bool {
    |o: Order| o.trader_id == t
}

pub open spec fn order_id_of(o: Order) -> u64 {
    o.order_id
}

pub proof fn lemma_filter_push(s: Seq<Order>, x: Order, pred: spec_fn(Order) -> bool)
    ensures
        s.push(x).filter(pred) == (if pred(x) { s.filter(pred).push(x) } else { s.filter(pred) }),
{
    reveal(Seq::filter);
    assert(s.push(x).drop_last() =~= s);
}

/// Filtering keeps orders that all sit at one price with positive quantity.
proof fn lemma_filter_at_price(s: Seq<Order>, pred: spec_fn(Order) -> bool, p: i64)
    requires
        forall|a: int| 0 <= a < s.len() ==> (#[trigger] s[a]).price == p && s[a].qty > 0,
    ensures
        forall|a: int| 0 <= a < s.filter(pred).len() ==> (#[trigger] s.filter(pred)[a]).price == p && s.filter(pred)[a].qty > 0,
    decreases s.len(),
{
    if s.len() == 0 {
        reveal(Seq::filter);
    } else {
        let q = s.drop_last();
        assert(q.push(s.last()) =~= s);
        lemma_filter_at_price(q, pred, p);
        lemma_filter_push(q, s.last(), pred);
    }
}

proof fn lemma_sum_push(s: Seq<Order>, x: Order)
    ensures
        sum_qty(s.push(x)) == sum_qty(s) + x.qty,
{
    lemma_sum_concat(s, seq![x]);
    assert(s.push(x) =~= s + seq![x]);
    reveal_with_fuel(sum_qty, 2);
    assert(seq![x].drop_first() =~= Seq::<Order>::empty());
}

proof fn lemma_sum_filter_le(s: Seq<Order>, pred: spec_fn(Order) -> bool)
    ensures
        sum_qty(s.filter(pred)) <= sum_qty(s),
    decreases s.len(),
{
    if s.len() > 0 {
        let p = s.drop_last();
        assert(p.push(s.last()) =~= s);
        lemma_sum_filter_le(p, pred);
        lemma_filter_push(p, s.last(), pred);
        lemma_sum_push(p, s.last());
        if pred(s.last()) {
            lemma_sum_push(p.filter(pred), s.last());
        }
    } else {
        reveal(Seq::filter);
    }
}

proof fn lemma_sum_prefix_le(s: Seq<Order>, k: int)
    requires
        0 <= k <= s.len(),
    ensures
        sum_qty(s.subrange(0, k)) <= sum_qty(s),
{
    assert(s =~= s.subrange(0, k) + s.subrange(k, s.len() as int));
    lemma_sum_concat(s.subrange(0, k), s.subrange(k, s.len() as int));
}

proof fn lemma_flatten_push(v: Seq<LevelView>, x: LevelView)
    ensures
        flatten(v.push(x)) == flatten(v) + x.1,
{
    assert(v.push(x) =~= v + seq![x]);
    lemma_flatten_concat(v, seq![x]);
    lemma_flatten_cons(x, Seq::empty());
    assert(seq![x] + Seq::<LevelView>::empty() =~= seq![x]);
    assert(flatten(Seq::<LevelView>::empty()) =~= Seq::<Order>::empty());
    assert(x.1 + Seq::<Order>::empty() =~= x.1);
}

/// The orders of one level are part of the side's total.
proof fn lemma_level_sum_le(v: Seq<LevelView>, i: int)
    requires
        0 <= i < v.len(),
    ensures
        sum_qty(v[i].1) <= sum_qty(flatten(v)),
{
    lemma_flatten_split(v, i);
    let post = v.subrange(i, v.len() as int);
    assert(post =~= seq![v[i]] + v.subrange(i + 1, v.len() as int));
    lemma_flatten_cons(v[i], v.subrange(i + 1, v.len() as int));
    lemma_sum_concat(flatten(v.subrange(0, i)), flatten(post));
    lemma_sum_concat(v[i].1, flatten(v.subrange(i + 1, v.len() as int)));
}

proof fn lemma_wf_drop_first(v: Seq<LevelView>, is_bid: bool)
    requires
        levels_wf(v, is_bid),
        v.len() > 0,
    ensures
        levels_wf(v.drop_first(), is_bid),
{
    let w = v.drop_first();
    assert forall|i: int, j: int| 0 <= i < j < w.len() implies better(is_bid, #[trigger] w[i].0, #[trigger] w[j].0) by {
        assert(w[i] == v[i + 1] && w[j] == v[j + 1]);
    }
    assert forall|i: int| 0 <= i < w.len() implies (#[trigger] w[i]).1.len() > 0 by {
        assert(w[i] == v[i + 1]);
    }
    assert forall|i: int, k: int| 0 <= i < w.len() && 0 <= k < w[i].1.len() implies (#[trigger] w[i].1[k]).price
        == w[i].0 && w[i].1[k].qty > 0 by {
        assert(w[i] == v[i + 1]);
    }
}

impl BookSide {
    /// The first order in priority order.
    pub fn front(&self) -> (r: Option<Order>)
        requires
            self.wf(),
        ensures
            self.orders().len() == 0 ==> r is None,
            self.orders().len() > 0 ==> r == Some(self.orders()[0]),
    {
        proof { self.lemma_front(); }
        if self.levels.len() == 0 {
            None
        } else {
            Some(self.levels[0].orders[0])
        }
    }

    /// Removes and returns the first order in priority order; an emptied
    /// level goes with it.
    pub fn pop_front(&mut self) -> (r: Order)
        requires
            old(self).wf(),
            old(self).orders().len() > 0,
        ensures
            final(self).wf(),
            final(self).is_bid == old(self).is_bid,
            r == old(self).orders()[0],
            final(self).orders() == old(self).orders().drop_first(),
            final(self).total_qty == old(self).total_qty - r.qty,
    {
        let ghost v = self.view_levels();
        proof {
            self.lemma_front();
            assert(flatten(v) == v[0].1 + flatten(v.drop_first()));
            lemma_wf_drop_first(v, self.is_bid);
        }
        let mut lvl = self.levels.remove(0);
        let o = lvl.orders.remove(0);
        if lvl.orders.len() > 0 {
            self.levels.insert(0, lvl);
            proof {
                let w = self.view_levels();
                assert(w =~= v.update(0, (v[0].0, v[0].1.drop_first())));
                assert(w.drop_first() =~= v.drop_first());
                assert(flatten(w) =~= flatten(v).drop_first());
                assert forall|i: int, j: int| 0 <= i < j < w.len() implies better(self.is_bid, #[trigger] w[i].0, #[trigger] w[j].0) by {
                    assert(w[i].0 == v[i].0 && w[j].0 == v[j].0);
                }
                assert forall|i: int, k: int| 0 <= i < w.len() && 0 <= k < w[i].1.len() implies (#[trigger] w[i].1[k]).price
                    == w[i].0 && w[i].1[k].qty > 0 by {
                    if i == 0 {
                        assert(w[i].1[k] == v[0].1[k + 1]);
                    }
                }
            }
        } else {
            proof {
                assert(self.view_levels() =~= v.drop_first());
                assert(v[0].1 =~= seq![o]);
                assert(flatten(v.drop_first()) =~= flatten(v).drop_first());
            }
        }
        self.total_qty = self.total_qty - o.qty as u64;
        o
    }

    /// Takes `q` units off the first order, which keeps its place.
    pub fn reduce_front(&mut self, q: u32)
        requires
            old(self).wf(),
            old(self).orders().len() > 0,
            0 < q < old(self).orders()[0].qty,
        ensures
            final(self).wf(),
            final(self).is_bid == old(self).is_bid,
            final(self).orders() == old(self).orders().update(
                0,
                Order { qty: (old(self).orders()[0].qty - q) as u32, ..old(self).orders()[0] },
            ),
            final(self).total_qty == old(self).total_qty - q,
    {
        let ghost v = self.view_levels();
        proof {
            self.lemma_front();
            assert(flatten(v) == v[0].1 + flatten(v.drop_first()));
        }
        let ghost lv = self.levels@;
        let mut lvl = self.levels.remove(0);
        let mut o = lvl.orders.remove(0);
        o.qty = o.qty - q;
        lvl.orders.insert(0, o);
        assert(lvl.orders@ =~= v[0].1.update(0, o));
        self.levels.insert(0, lvl);
        assert(self.levels@ =~= lv.update(0, lvl));
        proof {
            let w = self.view_levels();
            assert(w =~= v.update(0, (v[0].0, v[0].1.update(0, o))));
            assert(w.drop_first() =~= v.drop_first());
            assert(flatten(w) =~= flatten(v).update(0, o));
            assert forall|i: int, j: int| 0 <= i < j < w.len() implies better(self.is_bid, #[trigger] w[i].0, #[trigger] w[j].0) by {
                assert(w[i].0 == v[i].0 && w[j].0 == v[j].0);
            }
            assert forall|i: int, k: int| 0 <= i < w.len() && 0 <= k < w[i].1.len() implies (#[trigger] w[i].1[k]).price
                == w[i].0 && w[i].1[k].qty > 0 by {
                if i == 0 && k > 0 {
                    assert(w[i].1[k] == v[0].1[k]);
                }
            }
            let f = flatten(v);
            assert(flatten(w).drop_first() =~= f.drop_first());
        }
        self.total_qty = self.total_qty - q as u64;
    }

    /// Up to `depth` levels from the best outward, each with its aggregated
    /// quantity and number of orders.
    pub fn l2_snapshot(&self, depth: usize) -> (r: Vec<L2Level>)
        requires
            self.wf(),
        ensures
            snapshot_of(r@, self.view_levels(), depth),
    {
        let ghost v = self.view_levels();
        let mut out: Vec<L2Level> = Vec::new();
        let mut i: usize = 0;
        while i < self.levels.len() && i < depth
            invariant
                v == self.view_levels(),
                self.wf(),
                i <= v.len(),
                i <= depth,
                out@.len() == i,
                forall|a: int|
                    0 <= a < i ==> (#[trigger] out@[a]).price == v[a].0 && out@[a].qty as nat == sum_qty(v[a].1)
                        && out@[a].order_count as nat == v[a].1.len(),
            decreases v.len() - i,
        {
            let lvl = &self.levels[i];
            let ghost s = v[i as int].1;
            proof { lemma_level_sum_le(v, i as int); }
            let mut qty: u64 = 0;
            let mut k: usize = 0;
            while k < lvl.orders.len()
                invariant
                    s == lvl.orders@,
                    s == v[i as int].1,
                    sum_qty(s) <= self.total_qty,
                    k <= s.len(),
                    qty as nat == sum_qty(s.subrange(0, k as int)),
                decreases s.len() - k,
            {
                proof {
                    assert(s.subrange(0, k as int + 1) =~= s.subrange(0, k as int).push(s[k as int]));
                    lemma_sum_push(s.subrange(0, k as int), s[k as int]);
                    lemma_sum_prefix_le(s, k as int + 1);
                }
                qty = qty + lvl.orders[k].qty as u64;
                k = k + 1;
            }
            assert(s.subrange(0, s.len() as int) =~= s);
            out.push(L2Level { price: lvl.price, qty, order_count: lvl.orders.len() });
            i = i + 1;
        }
        out
    }
}


impl BookSide {
    /// Removes every order of trader `t`, dropping emptied levels; returns
    /// the removed order ids in priority order.
    pub fn cancel_all_for_trader(&mut self, t: u32) -> (r: Vec<u64>)
        requires
            old(self).wf(),
        ensures
            final(self).wf(),
            final(self).is_bid == old(self).is_bid,
            final(self).orders() == old(self).orders().filter(not_of_trader(t)),
            r@ == old(self).orders().filter(of_trader(t)).map_values(|o: Order| order_id_of(o)),
    {
        let ghost v = self.view_levels();
        let ghost n = v.len() as int;
        let mut kept_levels: Vec<PriceLevel> = Vec::new();
        let mut ids: Vec<u64> = Vec::new();
        let mut total: u64 = 0;
        let mut i: usize = 0;
        while i < self.levels.len()
            invariant
                v == self.view_levels(),
                n == v.len(),
                self.wf(),
                i <= n,
                levels_wf(kept_levels@.map_values(|l: PriceLevel| level_view(l)), self.is_bid),
                forall|a: int, j: int|
                    0 <= a < kept_levels@.len() && i <= j < n ==> better(
                        self.is_bid,
                        #[trigger] kept_levels@[a].price,
                        #[trigger] v[j].0,
                    ),
                flatten(kept_levels@.map_values(|l: PriceLevel| level_view(l))) == flatten(v.subrange(0, i as int)).filter(
                    not_of_trader(t),
                ),
                ids@ == flatten(v.subrange(0, i as int)).filter(of_trader(t)).map_values(|o: Order| order_id_of(o)),
                total as nat == sum_qty(flatten(v.subrange(0, i as int)).filter(not_of_trader(t))),
            decreases n - i,
        {
            let ghost done = flatten(v.subrange(0, i as int));
            let ghost s = v[i as int].1;
            proof {
                assert(v.subrange(0, i as int + 1) =~= v.subrange(0, i as int).push(v[i as int]));
                lemma_flatten_push(v.subrange(0, i as int), v[i as int]);
                lemma_flatten_split(v, i as int + 1);
                lemma_sum_concat(flatten(v.subrange(0, i as int + 1)), flatten(v.subrange(i as int + 1, n)));
            }
            let lvl = &self.levels[i];
            let mut kept: Vec<Order> = Vec::new();
            let mut k: usize = 0;
            while k < lvl.orders.len()
                invariant
                    s == lvl.orders@,
                    s == v[i as int].1,
                    sum_qty(done + s) <= self.total_qty,
                    k <= s.len(),
                    forall|a: int| 0 <= a < s.len() ==> (#[trigger] s[a]).price == v[i as int].0 && s[a].qty > 0,
                    kept@ == s.subrange(0, k as int).filter(not_of_trader(t)),
                    ids@ == (done + s.subrange(0, k as int)).filter(of_trader(t)).map_values(|o: Order| order_id_of(o)),
                    total as nat == sum_qty(done.filter(not_of_trader(t))) + sum_qty(kept@),
                decreases s.len() - k,
            {
                let o = lvl.orders[k];
                proof {
                    let pre = s.subrange(0, k as int);
                    assert(s.subrange(0, k as int + 1) =~= pre.push(o));
                    assert(done + s.subrange(0, k as int + 1) =~= (done + pre).push(o));
                    lemma_filter_push(pre, o, not_of_trader(t));
                    lemma_filter_push(done + pre, o, of_trader(t));
                    lemma_sum_push(kept@, o);
                    vstd::seq::Seq::filter_distributes_over_add(done, pre.push(o), not_of_trader(t));
                    vstd::seq::Seq::filter_distributes_over_add(done + pre.push(o), s.subrange(k as int + 1, s.len() as int), not_of_trader(t));
                    assert(done + s =~= (done + pre.push(o)) + s.subrange(k as int + 1, s.len() as int));
                    lemma_sum_filter_le(done + s, not_of_trader(t));
                    lemma_sum_concat(done.filter(not_of_trader(t)), pre.push(o).filter(not_of_trader(t)));
                    lemma_sum_concat((done + pre.push(o)).filter(not_of_trader(t)), s.subrange(k as int + 1, s.len() as int).filter(not_of_trader(t)));
                }
                if o.trader_id == t {
                    ids.push(o.order_id);
                    proof {
                        assert(ids@ =~= (done + s.subrange(0, k as int + 1)).filter(of_trader(t)).map_values(|o: Order| order_id_of(o)));
                    }
                } else {
                    kept.push(o);
                    total = total + o.qty as u64;
                    proof {
                        assert(ids@ =~= (done + s.subrange(0, k as int + 1)).filter(of_trader(t)).map_values(|o: Order| order_id_of(o)));
                    }
                }
                k = k + 1;
            }
            proof {
                assert(s.subrange(0, s.len() as int) =~= s);
                vstd::seq::Seq::filter_distributes_over_add(done, s, not_of_trader(t));
                lemma_sum_concat(done.filter(not_of_trader(t)), s.filter(not_of_trader(t)));
            }
            if kept.len() > 0 {
                let ghost kl = kept_levels@;
                let ghost kv = kl.map_values(|l: PriceLevel| level_view(l));
                kept_levels.push(PriceLevel { price: lvl.price, orders: kept });
                proof {
                    let kv2 = kept_levels@.map_values(|l: PriceLevel| level_view(l));
                    assert(kv2 =~= kv.push((v[i as int].0, s.filter(not_of_trader(t)))));
                    lemma_flatten_push(kv, (v[i as int].0, s.filter(not_of_trader(t))));
                    let f = s.filter(not_of_trader(t));
                    lemma_filter_at_price(s, not_of_trader(t), v[i as int].0);
                    assert forall|a: int, b: int| 0 <= a < b < kv2.len() implies better(self.is_bid, #[trigger] kv2[a].0, #[trigger] kv2[b].0) by {
                        if b == kv.len() {
                            assert(kv2[a].0 == kl[a].price);
                        } else {
                            assert(kv2[a] == kv[a] && kv2[b] == kv[b]);
                        }
                    }
                    assert forall|a: int| 0 <= a < kv2.len() implies (#[trigger] kv2[a]).1.len() > 0 by {
                        if a < kv.len() {
                            assert(kv2[a] == kv[a]);
                        }
                    }
                    assert forall|a: int, k: int| 0 <= a < kv2.len() && 0 <= k < kv2[a].1.len() implies (#[trigger] kv2[a].1[k]).price
                        == kv2[a].0 && kv2[a].1[k].qty > 0 by {
                        if a < kv.len() {
                            assert(kv2[a] == kv[a]);
                        }
                    }
                    assert forall|a: int, j: int| 0 <= a < kept_levels@.len() && i + 1 <= j < n implies better(
                        self.is_bid,
                        #[trigger] kept_levels@[a].price,
                        #[trigger] v[j].0,
                    ) by {
                        if a < kl.len() {
                            assert(kept_levels@[a] == kl[a]);
                        }
                    }
                }
            } else {
                proof {
                    assert(s.filter(not_of_trader(t)) =~= Seq::<Order>::empty());
                    assert(done + Seq::<Order>::empty() =~= done);
                    assert(done.filter(not_of_trader(t)) + Seq::<Order>::empty() =~= done.filter(not_of_trader(t)));
                    assert(sum_qty(Seq::<Order>::empty()) == 0);
                }
            }
            i = i + 1;
        }
        proof {
            assert(v.subrange(0, n) =~= v);
        }
        self.levels = kept_levels;
        self.total_qty = total;
        ids
    }

    /// Drops every level.
    pub fn clear(&mut self)
        ensures
            final(self).wf(),
            final(self).is_bid == old(self).is_bid,
            final(self).view_levels().len() == 0,
            final(self).orders().len() == 0,
    {
        self.levels = Vec::new();
        self.total_qty = 0;
        assert(self.view_levels() =~= Seq::<LevelView>::empty());
    }
}


/// Every order id on a side lies in `[1, n)`, and every price is positive.
pub open spec fn ids_below_prices_positive(s: Seq<Order>, n: u64) -> bool {
    forall|k: int| 0 <= k < s.len() ==> 1 <= (#[trigger] s[k]).order_id < n && s[k].price > 0
}

/// The two sides of the book, the next order id to assign and the price of
/// the most recent fill.
#[derive(Debug)]
pub struct OrderBook {
    pub bids: BookSide,
    pub asks: BookSide,
    pub next_order_id: u64,
    pub last_trade_price: Option<i64>,
}

impl OrderBook {
    /// Both sides well formed, ids already handed out are below
    /// `next_order_id`, and prices, including the last trade's, are positive.
    pub open spec fn wf(&self) -> bool {
        &&& self.bids.wf()
        &&& self.asks.wf()
        &&& self.bids.is_bid
        &&& !self.asks.is_bid
        &&& self.next_order_id >= 1
        &&& ids_below_prices_positive(self.bids.orders(), self.next_order_id)
        &&& ids_below_prices_positive(self.asks.orders(), self.next_order_id)
        &&& (self.last_trade_price matches Some(p) ==> p > 0)
    }

    /// An empty book whose first order id is 1.
    pub fn new() -> (r: OrderBook)
        ensures
            r.wf(),
            r.bids.orders().len() == 0,
            r.asks.orders().len() == 0,
            r.bids.view_levels().len() == 0,
            r.asks.view_levels().len() == 0,
            r.next_order_id == 1,
            r.last_trade_price is None,
    {
        OrderBook { bids: BookSide::new(true), asks: BookSide::new(false), next_order_id: 1, last_trade_price: None }
    }

    /// Hands out the next order id.
    pub fn next_order_id(&mut self) -> (r: u64)
        requires
            old(self).next_order_id < u64::MAX,
        ensures
            r == old(self).next_order_id,
            final(self).next_order_id == old(self).next_order_id + 1,
            final(self).bids == old(self).bids,
            final(self).asks == old(self).asks,
            final(self).last_trade_price == old(self).last_trade_price,
    {
        let id = self.next_order_id;
        self.next_order_id = id + 1;
        id
    }

    /// Highest bid price.
    pub fn best_bid(&self) -> (r: Option<i64>)
        requires
            self.wf(),
        ensures
            self.bids.orders().len() == 0 ==> r is None,
            self.bids.orders().len() > 0 ==> r == Some(self.bids.orders()[0].price),
    {
        self.bids.best()
    }

    /// Lowest ask price.
    pub fn best_ask(&self) -> (r: Option<i64>)
        requires
            self.wf(),
        ensures
            self.asks.orders().len() == 0 ==> r is None,
            self.asks.orders().len() > 0 ==> r == Some(self.asks.orders()[0].price),
    {
        self.asks.best()
    }

    /// Up to `depth` levels of each side, best first: (bids, asks).
    pub fn l2_snapshot(&self, depth: usize) -> (r: (Vec<L2Level>, Vec<L2Level>))
        requires
            self.wf(),
        ensures
            snapshot_of(r.0@, self.bids.view_levels(), depth),
            snapshot_of(r.1@, self.asks.view_levels(), depth),
    {
        (self.bids.l2_snapshot(depth), self.asks.l2_snapshot(depth))
    }

    /// Empties both sides and resets the order id counter and last trade price.
    pub fn clear(&mut self)
        ensures
            final(self).wf(),
            final(self).bids.orders().len() == 0,
            final(self).asks.orders().len() == 0,
            final(self).bids.view_levels().len() == 0,
            final(self).asks.view_levels().len() == 0,
            final(self).next_order_id == 1,
            final(self).last_trade_price is None,
    {
        self.bids = BookSide::new(true);
        self.asks = BookSide::new(false);
        self.next_order_id = 1;
        self.last_trade_price = None;
    }

    /// Removes every order of trader `t` from both sides; returns their ids,
    /// bids first, each side in priority order.
    pub fn cancel_all_for_trader(&mut self, t: u32) -> (r: Vec<u64>)
        requires
            old(self).wf(),
        ensures
            final(self).wf(),
            final(self).next_order_id == old(self).next_order_id,
            final(self).last_trade_price == old(self).last_trade_price,
            final(self).bids.orders() == old(self).bids.orders().filter(not_of_trader(t)),
            final(self).asks.orders() == old(self).asks.orders().filter(not_of_trader(t)),
            r@ == old(self).bids.orders().filter(of_trader(t)).map_values(|o: Order| order_id_of(o))
                + old(self).asks.orders().filter(of_trader(t)).map_values(|o: Order| order_id_of(o)),
    {
        let mut ids = self.bids.cancel_all_for_trader(t);
        let mut more = self.asks.cancel_all_for_trader(t);
        ids.append(&mut more);
        proof {
            lemma_filter_keeps(old(self).bids.orders(), not_of_trader(t), self.next_order_id);
            lemma_filter_keeps(old(self).asks.orders(), not_of_trader(t), self.next_order_id);
        }
        ids
    }
}

/// `r` lists the first `depth` levels of `v` with their aggregates.
pub open spec fn snapshot_of(r: Seq<L2Level>, v: Seq<LevelView>, depth: usize) -> bool {
    &&& r.len() == if depth < v.len() { depth as int } else { v.len() as int }
    &&& forall|i: int|
        0 <= i < r.len() ==> (#[trigger] r[i]).price == v[i].0 && r[i].qty as nat == sum_qty(v[i].1)
            && r[i].order_count as nat == v[i].1.len()
}

proof fn lemma_filter_keeps(s: Seq<Order>, pred: spec_fn(Order) -> bool, n: u64)
    requires
        ids_below_prices_positive(s, n),
    ensures
        ids_below_prices_positive(s.filter(pred), n),
    decreases s.len(),
{
    if s.len() == 0 {
        reveal(Seq::filter);
    } else {
        let q = s.drop_last();
        assert(q.push(s.last()) =~= s);
        lemma_filter_keeps(q, pred, n);
        lemma_filter_push(q, s.last(), pred);
    }
}


/// Inserting an order whose id is below `n` and whose price is positive keeps
/// every id of the side below `n` and every price positive.
pub proof fn lemma_insert_level_ids(v: Seq<LevelView>, o: Order, is_bid: bool, n: u64)
    requires
        ids_below_prices_positive(flatten(v), n),
        1 <= o.order_id < n,
        o.price > 0,
    ensures
        ids_below_prices_positive(flatten(insert_level(v, o, is_bid)), n),
{
    lemma_count_better(v, o.price, is_bid);
    let i = count_better(v, o.price, is_bid) as int;
    let nn = v.len() as int;
    let pre = v.subrange(0, i);
    let post = v.subrange(i, nn);
    lemma_flatten_split(v, i);
    let fp = flatten(pre);
    let fpost = flatten(post);
    assert forall|k: int| 0 <= k < fp.len() implies 1 <= (#[trigger] fp[k]).order_id < n && fp[k].price > 0 by {
        assert(fp[k] == flatten(v)[k]);
    }
    assert forall|k: int| 0 <= k < fpost.len() implies 1 <= (#[trigger] fpost[k]).order_id < n && fpost[k].price > 0 by {
        assert(fpost[k] == flatten(v)[fp.len() + k]);
    }
    let w = insert_level(v, o, is_bid);
    if i < nn && v[i].0 == o.price {
        let x = (o.price, v[i].1.push(o));
        let rest = v.subrange(i + 1, nn);
        assert(post =~= seq![v[i]] + rest);
        lemma_flatten_cons(v[i], rest);
        assert(w =~= pre + (seq![x] + rest));
        lemma_flatten_concat(pre, seq![x] + rest);
        lemma_flatten_cons(x, rest);
        let fw = flatten(w);
        assert(fw =~= fp + (v[i].1.push(o) + flatten(rest)));
        assert forall|k: int| 0 <= k < fw.len() implies 1 <= (#[trigger] fw[k]).order_id < n && fw[k].price > 0 by {
            if k < fp.len() {
                assert(fw[k] == fp[k]);
            } else if k < fp.len() + v[i].1.len() {
                assert(fw[k] == fpost[k - fp.len()]);
            } else if k == fp.len() + v[i].1.len() {
            } else {
                assert(fw[k] == fpost[k - fp.len() - 1]);
            }
        }
    } else {
        let x = (o.price, seq![o]);
        assert(w == v.insert(i, x));
        assert(w =~= pre + (seq![x] + post));
        lemma_flatten_concat(pre, seq![x] + post);
        lemma_flatten_cons(x, post);
        let fw = flatten(w);
        assert(fw =~= fp + (seq![o] + fpost));
        assert forall|k: int| 0 <= k < fw.len() implies 1 <= (#[trigger] fw[k]).order_id < n && fw[k].price > 0 by {
            if k < fp.len() {
                assert(fw[k] == fp[k]);
            } else if k == fp.len() {
            } else {
                assert(fw[k] == fpost[k - fp.len() - 1]);
            }
        }
    }
}

impl OrderBook {
    /// The side on which an order of `side` rests.
    pub open spec fn own_side(&self, side: Side) -> BookSide {
        match side {
            Side::Buy => self.bids,
            Side::Sell => self.asks,
        }
    }

    /// The side that an order of `side` trades against.
    pub open spec fn opposite_side(&self, side: Side) -> BookSide {
        match side {
            Side::Buy => self.asks,
            Side::Sell => self.bids,
        }
    }
}


/// Every order of a well-formed side has a positive quantity.
pub proof fn lemma_flatten_qty_positive(v: Seq<LevelView>, is_bid: bool)
    requires
        levels_wf(v, is_bid),
    ensures
        forall|k: int| 0 <= k < flatten(v).len() ==> (#[trigger] flatten(v)[k]).qty > 0,
    decreases v.len(),
{
    if v.len() > 0 {
        lemma_wf_drop_first(v, is_bid);
        lemma_flatten_qty_positive(v.drop_first(), is_bid);
        let f = flatten(v);
        assert forall|k: int| 0 <= k < f.len() implies (#[trigger] f[k]).qty > 0 by {
            if k < v[0].1.len() {
                assert(f[k] == v[0].1[k]);
            } else {
                assert(f[k] == flatten(v.drop_first())[k - v[0].1.len()]);
            }
        }
    }
}


/// On a well-formed side the aggregate `total_qty` is the sum of the
/// quantities of all its orders, and no price level is empty.
pub proof fn lemma_side_invariants(side: &BookSide)
    requires
        side.wf(),
    ensures
        side.total_qty as nat == sum_qty(side.orders()),
        forall|i: int| 0 <= i < side.view_levels().len() ==> (#[trigger] side.view_levels()[i]).1.len() >= 1,
{
}


proof fn lemma_flatten_empty(v: Seq<LevelView>, is_bid: bool)
    requires
        levels_wf(v, is_bid),
        v.len() > 0,
    ensures
        flatten(v).len() > 0,
        flatten(v)[0] == v[0].1[0],
        flatten(v) == v[0].1 + flatten(v.drop_first()),
{
    assert(v[0].1.len() > 0);
}

/// Well-formed levels are determined by their orders in priority order.
pub proof fn lemma_levels_determined(v1: Seq<LevelView>, v2: Seq<LevelView>, is_bid: bool)
    requires
        levels_wf(v1, is_bid),
        levels_wf(v2, is_bid),
        flatten(v1) == flatten(v2),
    ensures
        v1 == v2,
    decreases v1.len() + v2.len(),
{
    if v1.len() == 0 || v2.len() == 0 {
        if v1.len() > 0 {
            lemma_flatten_empty(v1, is_bid);
            assert(flatten(v2) =~= Seq::<Order>::empty());
        }
        if v2.len() > 0 {
            lemma_flatten_empty(v2, is_bid);
            assert(flatten(v1) =~= Seq::<Order>::empty());
        }
        assert(v1 =~= v2);
    } else {
        lemma_flatten_empty(v1, is_bid);
        lemma_flatten_empty(v2, is_bid);
        let f = flatten(v1);
        let a = v1[0].1.len();
        let b = v2[0].1.len();
        assert(f[0].price == v1[0].0);
        assert(f[0].price == v2[0].0);
        if a < b {
            assert(f[a as int] == v2[0].1[a as int]);
            assert(f[a as int] == flatten(v1.drop_first())[0]);
            lemma_wf_drop_first(v1, is_bid);
            lemma_flatten_empty(v1.drop_first(), is_bid);
            assert(v1.drop_first()[0] == v1[1]);
            assert(better(is_bid, v1[0].0, v1[1].0));
            assert(false);
        }
        if b < a {
            assert(f[b as int] == v1[0].1[b as int]);
            assert(f[b as int] == flatten(v2.drop_first())[0]);
            lemma_wf_drop_first(v2, is_bid);
            lemma_flatten_empty(v2.drop_first(), is_bid);
            assert(v2.drop_first()[0] == v2[1]);
            assert(better(is_bid, v2[0].0, v2[1].0));
            assert(false);
        }
        assert(v1[0].1 =~= f.subrange(0, a as int));
        assert(v2[0].1 =~= f.subrange(0, a as int));
        assert(flatten(v1.drop_first()) =~= f.subrange(a as int, f.len() as int));
        assert(flatten(v2.drop_first()) =~= f.subrange(a as int, f.len() as int));
        lemma_wf_drop_first(v1, is_bid);
        lemma_wf_drop_first(v2, is_bid);
        lemma_levels_determined(v1.drop_first(), v2.drop_first(), is_bid);
        assert(v1 =~= seq![v1[0]] + v1.drop_first());
        assert(v2 =~= seq![v2[0]] + v2.drop_first());
    }
}


/// The well-formed levels whose orders, in priority order, are `s`.
pub open spec fn regroup(s: Seq<Order>, is_bid: bool) -> Seq<LevelView> {
    choose|v: Seq<LevelView>| levels_wf(v, is_bid) && flatten(v) == s
}

/// Well-formed levels are the regrouping of their own orders.
pub proof fn lemma_regroup(v: Seq<LevelView>, is_bid: bool)
    requires
        levels_wf(v, is_bid),
    ensures
        regroup(flatten(v), is_bid) == v,
{
    let w = regroup(flatten(v), is_bid);
    assert(levels_wf(w, is_bid) && flatten(w) == flatten(v));
    lemma_levels_determined(w, v, is_bid);
}


impl BookSide {
    /// The aggregate of a well-formed side is the sum over its levels' orders.
    pub proof fn lemma_front_sum(&self)
        requires
            self.wf(),
        ensures
            self.total_qty as nat == sum_qty(flatten(self.view_levels())),
    {
    }
}

} // verus!
