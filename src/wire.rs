pub mod msg_type;
pub mod order_type;
pub mod tif;

use vstd::prelude::*;
use crate::codec::{le_bytes, le_value, push_le, read_le, lemma_le_bytes_len, lemma_le_round_trip, lemma_pow256_values};
use crate::fixed_point::{Price, display_price, nat_digits, push_nat_digits};
use crate::matching::Fill;
use crate::orderbook::L2Level;
use crate::side::{Side, side_byte, side_of_byte};

verus! {

/// Header of every wire message, 8 bytes:
/// `[2: msg_length][1: msg_type][1: version][4: sequence_num]`.
#[derive(Debug, Clone, Copy, PartialEq, Eq, Structural)]
pub struct MessageHeader {
    pub msg_length: u16,
    pub msg_type: u8,
    pub version: u8,
    pub sequence_num: u32,
}

/// Inbound order entry, 36 bytes: header, `[4: trader_id][8: client_order_id]
/// [8: price][4: quantity][1: side][1: order_type][1: time_in_force][1: pad]`.
#[derive(Debug, Clone, Copy, PartialEq, Eq, Structural)]
pub struct NewOrder {
    pub header: MessageHeader,
    pub trader_id: u32,
    pub client_order_id: u64,
    pub price: i64,
    pub quantity: u32,
    pub side: u8,
    pub order_type: u8,
    pub time_in_force: u8,
    pub _padding: u8,
}

/// Cancel of one resting order, 20 bytes: header, `[4: trader_id][8: target_order_id]`.
#[derive(Debug, Clone, Copy, PartialEq, Eq, Structural)]
pub struct OrderCancel {
    pub header: MessageHeader,
    pub trader_id: u32,
    pub target_order_id: u64,
}

/// Outbound trade notice, 48 bytes: header, `[8: trade_id][8: price]
/// [4: quantity][4: buy_trader_id][4: sell_trader_id][8: timestamp_ns][4: pad]`.
#[derive(Debug, Clone, Copy, PartialEq, Eq, Structural)]
pub struct TradeUpdate {
    pub header: MessageHeader,
    pub trade_id: u64,
    pub price: i64,
    pub quantity: u32,
    pub buy_trader_id: u32,
    pub sell_trader_id: u32,
    pub timestamp_ns: u64,
    pub _padding: u32,
}

pub const NEW_ORDER_SIZE: usize = 36;

pub const ORDER_CANCEL_SIZE: usize = 20;

pub const TRADE_UPDATE_SIZE: usize = 48;

pub open spec fn header_bytes(h: MessageHeader) -> Seq<u8> {
    le_bytes(h.msg_length as nat, 2) + seq![h.msg_type, h.version] + le_bytes(h.sequence_num as nat, 4)
}

pub open spec fn new_order_bytes(o: NewOrder) -> Seq<u8> {
    header_bytes(o.header) + le_bytes(o.trader_id as nat, 4) + le_bytes(o.client_order_id as nat, 8) + le_bytes(
        o.price as u64 as nat,
        8,
    ) + le_bytes(o.quantity as nat, 4) + seq![o.side, o.order_type, o.time_in_force, o._padding]
}

pub open spec fn order_cancel_bytes(c: OrderCancel) -> Seq<u8> {
    header_bytes(c.header) + le_bytes(c.trader_id as nat, 4) + le_bytes(c.target_order_id as nat, 8)
}

pub open spec fn trade_update_bytes(t: TradeUpdate) -> Seq<u8> {
    header_bytes(t.header) + le_bytes(t.trade_id as nat, 8) + le_bytes(t.price as u64 as nat, 8) + le_bytes(
        t.quantity as nat,
        4,
    ) + le_bytes(t.buy_trader_id as nat, 4) + le_bytes(t.sell_trader_id as nat, 4) + le_bytes(
        t.timestamp_ns as nat,
        8,
    ) + le_bytes(t._padding as nat, 4)
}

/// The order that 36 bytes encode.
pub open spec fn new_order_of(b: Seq<u8>) -> NewOrder {
    NewOrder {
        header: MessageHeader {
            msg_length: le_value(b.subrange(0, 2)) as u16,
            msg_type: b[2],
            version: b[3],
            sequence_num: le_value(b.subrange(4, 8)) as u32,
        },
        trader_id: le_value(b.subrange(8, 12)) as u32,
        client_order_id: le_value(b.subrange(12, 20)) as u64,
        price: le_value(b.subrange(20, 28)) as u64 as i64,
        quantity: le_value(b.subrange(28, 32)) as u32,
        side: b[32],
        order_type: b[33],
        time_in_force: b[34],
        _padding: b[35],
    }
}

/// Decoding the bytes of an order gives the order back.
pub proof fn lemma_new_order_round_trip(o: NewOrder)
    ensures
        new_order_bytes(o).len() == 36,
        new_order_of(new_order_bytes(o)) == o,
{
    lemma_pow256_values();
    lemma_le_bytes_len(o.header.msg_length as nat, 2);
    lemma_le_bytes_len(o.header.sequence_num as nat, 4);
    lemma_le_bytes_len(o.trader_id as nat, 4);
    lemma_le_bytes_len(o.client_order_id as nat, 8);
    lemma_le_bytes_len(o.price as u64 as nat, 8);
    lemma_le_bytes_len(o.quantity as nat, 4);
    lemma_le_round_trip(o.header.msg_length as nat, 2);
    lemma_le_round_trip(o.header.sequence_num as nat, 4);
    lemma_le_round_trip(o.trader_id as nat, 4);
    lemma_le_round_trip(o.client_order_id as nat, 8);
    lemma_le_round_trip(o.price as u64 as nat, 8);
    lemma_le_round_trip(o.quantity as nat, 4);
    let b = new_order_bytes(o);
    assert(b.subrange(0, 2) =~= le_bytes(o.header.msg_length as nat, 2));
    assert(b.subrange(4, 8) =~= le_bytes(o.header.sequence_num as nat, 4));
    assert(b.subrange(8, 12) =~= le_bytes(o.trader_id as nat, 4));
    assert(b.subrange(12, 20) =~= le_bytes(o.client_order_id as nat, 8));
    assert(b.subrange(20, 28) =~= le_bytes(o.price as u64 as nat, 8));
    assert(b.subrange(28, 32) =~= le_bytes(o.quantity as nat, 4));
    let p = o.price;
    assert(((p as u64) as i64) == p) by (bit_vector);
    assert(new_order_of(b) =~= o);
}

fn push_header(out: &mut Vec<u8>, h: &MessageHeader)
    ensures
        final(out)@ == old(out)@ + header_bytes(*h),
{
    push_le(out, h.msg_length as u64, 2);
    out.push(h.msg_type);
    out.push(h.version);
    push_le(out, h.sequence_num as u64, 4);
    assert(final(out)@ =~= old(out)@ + header_bytes(*h));
}

impl MessageHeader {
    /// A version-1 header.
    fn for_message(msg_length: u16, msg_type: u8, sequence_num: u32) -> (r: MessageHeader)
        ensures
            r == (MessageHeader { msg_length, msg_type, version: 1, sequence_num }),
    {
        MessageHeader { msg_length, msg_type, version: 1, sequence_num }
    }
}

impl NewOrder {
    /// A new-order message with a filled-in header.
    pub fn new(
        sequence_num: u32,
        trader_id: u32,
        client_order_id: u64,
        price: Price,
        quantity: u32,
        side: Side,
        order_type_val: u8,
        time_in_force: u8,
    ) -> (r: NewOrder)
        ensures
            r == (NewOrder {
                header: MessageHeader { msg_length: 36, msg_type: msg_type::NEW_ORDER, version: 1, sequence_num },
                trader_id,
                client_order_id,
                price: price@,
                quantity,
                side: side_byte(side),
                order_type: order_type_val,
                time_in_force,
                _padding: 0,
            }),
    {
        NewOrder {
            header: MessageHeader::for_message(NEW_ORDER_SIZE as u16, msg_type::NEW_ORDER, sequence_num),
            trader_id,
            client_order_id,
            price: price.raw(),
            quantity,
            side: side.as_u8(),
            order_type: order_type_val,
            time_in_force,
            _padding: 0,
        }
    }

    /// The side that the side byte names, if any.
    pub fn side_enum(&self) -> (r: Option<Side>)
        ensures
            r == side_of_byte(self.side),
    {
        match self.side {
            1 => Some(Side::Buy),
            2 => Some(Side::Sell),
            _ => None,
        }
    }

    /// The price as a fixed-point value.
    pub fn price_fixed(&self) -> (r: Price)
        ensures
            r@ == self.price,
    {
        Price::new(self.price)
    }

    /// The 36 wire bytes.
    pub fn to_bytes(&self) -> (r: Vec<u8>)
        ensures
            r@ == new_order_bytes(*self),
            r@.len() == 36,
    {
        let mut out: Vec<u8> = Vec::new();
        push_header(&mut out, &self.header);
        push_le(&mut out, self.trader_id as u64, 4);
        push_le(&mut out, self.client_order_id, 8);
        push_le(&mut out, self.price as u64, 8);
        push_le(&mut out, self.quantity as u64, 4);
        out.push(self.side);
        out.push(self.order_type);
        out.push(self.time_in_force);
        out.push(self._padding);
        proof { lemma_new_order_round_trip(*self); }
        assert(out@ =~= new_order_bytes(*self));
        out
    }

    /// The order that the first 36 bytes encode; `None` when there are fewer.
    pub fn from_bytes(b: &Vec<u8>) -> (r: Option<NewOrder>)
        ensures
            b@.len() < 36 ==> r is None,
            b@.len() >= 36 ==> r == Some(new_order_of(b@.subrange(0, 36))),
    {
        if b.len() < NEW_ORDER_SIZE {
            return None;
        }
        proof {
            lemma_pow256_values();
            crate::codec::lemma_le_value_bound(b@.subrange(0, 2));
            crate::codec::lemma_le_value_bound(b@.subrange(4, 8));
            crate::codec::lemma_le_value_bound(b@.subrange(8, 12));
            crate::codec::lemma_le_value_bound(b@.subrange(28, 32));
            let w = b@.subrange(0, 36);
            assert(w.subrange(0, 2) =~= b@.subrange(0, 2));
            assert(w.subrange(4, 8) =~= b@.subrange(4, 8));
            assert(w.subrange(8, 12) =~= b@.subrange(8, 12));
            assert(w.subrange(12, 20) =~= b@.subrange(12, 20));
            assert(w.subrange(20, 28) =~= b@.subrange(20, 28));
            assert(w.subrange(28, 32) =~= b@.subrange(28, 32));
        }
        Some(
            NewOrder {
                header: MessageHeader {
                    msg_length: read_le(b, 0, 2) as u16,
                    msg_type: b[2],
                    version: b[3],
                    sequence_num: read_le(b, 4, 4) as u32,
                },
                trader_id: read_le(b, 8, 4) as u32,
                client_order_id: read_le(b, 12, 8),
                price: read_le(b, 20, 8) as i64,
                quantity: read_le(b, 28, 4) as u32,
                side: b[32],
                order_type: b[33],
                time_in_force: b[34],
                _padding: b[35],
            },
        )
    }
}

impl OrderCancel {
    /// A cancel message with a filled-in header.
    pub fn new(sequence_num: u32, trader_id: u32, target_order_id: u64) -> (r: OrderCancel)
        ensures
            r == (OrderCancel {
                header: MessageHeader { msg_length: 20, msg_type: msg_type::ORDER_CANCEL, version: 1, sequence_num },
                trader_id,
                target_order_id,
            }),
    {
        OrderCancel {
            header: MessageHeader::for_message(ORDER_CANCEL_SIZE as u16, msg_type::ORDER_CANCEL, sequence_num),
            trader_id,
            target_order_id,
        }
    }

    /// The 20 wire bytes.
    pub fn to_bytes(&self) -> (r: Vec<u8>)
        ensures
            r@ == order_cancel_bytes(*self),
            r@.len() == 20,
    {
        let mut out: Vec<u8> = Vec::new();
        push_header(&mut out, &self.header);
        push_le(&mut out, self.trader_id as u64, 4);
        push_le(&mut out, self.target_order_id, 8);
        proof {
            lemma_le_bytes_len(self.header.msg_length as nat, 2);
            lemma_le_bytes_len(self.header.sequence_num as nat, 4);
            lemma_le_bytes_len(self.trader_id as nat, 4);
            lemma_le_bytes_len(self.target_order_id as nat, 8);
        }
        assert(out@ =~= order_cancel_bytes(*self));
        out
    }
}

impl TradeUpdate {
    /// A trade notice with a filled-in header.
    pub fn new(
        sequence_num: u32,
        trade_id: u64,
        price: Price,
        quantity: u32,
        buy_trader_id: u32,
        sell_trader_id: u32,
        timestamp_ns: u64,
    ) -> (r: TradeUpdate)
        ensures
            r == (TradeUpdate {
                header: MessageHeader { msg_length: 48, msg_type: msg_type::TRADE_UPDATE, version: 1, sequence_num },
                trade_id,
                price: price@,
                quantity,
                buy_trader_id,
                sell_trader_id,
                timestamp_ns,
                _padding: 0,
            }),
    {
        TradeUpdate {
            header: MessageHeader::for_message(TRADE_UPDATE_SIZE as u16, msg_type::TRADE_UPDATE, sequence_num),
            trade_id,
            price: price.raw(),
            quantity,
            buy_trader_id,
            sell_trader_id,
            timestamp_ns,
            _padding: 0,
        }
    }

    /// The price as a fixed-point value.
    pub fn price_fixed(&self) -> (r: Price)
        ensures
            r@ == self.price,
    {
        Price::new(self.price)
    }

    /// The 48 wire bytes.
    pub fn to_bytes(&self) -> (r: Vec<u8>)
        ensures
            r@ == trade_update_bytes(*self),
            r@.len() == 48,
    {
        let mut out: Vec<u8> = Vec::new();
        push_header(&mut out, &self.header);
        push_le(&mut out, self.trade_id, 8);
        push_le(&mut out, self.price as u64, 8);
        push_le(&mut out, self.quantity as u64, 4);
        push_le(&mut out, self.buy_trader_id as u64, 4);
        push_le(&mut out, self.sell_trader_id as u64, 4);
        push_le(&mut out, self.timestamp_ns, 8);
        push_le(&mut out, self._padding as u64, 4);
        proof {
            lemma_le_bytes_len(self.header.msg_length as nat, 2);
            lemma_le_bytes_len(self.header.sequence_num as nat, 4);
            lemma_le_bytes_len(self.trade_id as nat, 8);
            lemma_le_bytes_len(self.price as u64 as nat, 8);
            lemma_le_bytes_len(self.quantity as nat, 4);
            lemma_le_bytes_len(self.buy_trader_id as nat, 4);
            lemma_le_bytes_len(self.sell_trader_id as nat, 4);
            lemma_le_bytes_len(self.timestamp_ns as nat, 8);
            lemma_le_bytes_len(self._padding as nat, 4);
        }
        assert(out@ =~= trade_update_bytes(*self));
        out
    }
}


/// Size of one fill record.
pub const FILL_RECORD_SIZE: usize = 40;

/// Size of one L2 level record.
pub const L2_LEVEL_SIZE: usize = 16;

/// A fill as 40 bytes: `[8: maker_order_id][8: taker_order_id]
/// [4: maker_trader_id][4: taker_trader_id][8: price][4: qty][4: zero]`.
pub open spec fn fill_record(f: Fill) -> Seq<u8> {
    le_bytes(f.maker_order_id as nat, 8) + le_bytes(f.taker_order_id as nat, 8) + le_bytes(f.maker_trader_id as nat, 4)
        + le_bytes(f.taker_trader_id as nat, 4) + le_bytes(f.price as u64 as nat, 8) + le_bytes(f.qty as nat, 4)
        + le_bytes(0, 4)
}

/// An L2 level as 16 bytes: `[8: price][4: qty, low 32 bits][4: order_count, low 32 bits]`.
pub open spec fn l2_record(l: L2Level) -> Seq<u8> {
    le_bytes(l.price as u64 as nat, 8) + le_bytes(l.qty as nat, 4) + le_bytes(l.order_count as nat, 4)
}

/// Records laid end to end.
pub open spec fn fill_records(fills: Seq<Fill>) -> Seq<u8>
    decreases fills.len(),
{
    if fills.len() == 0 {
        Seq::empty()
    } else {
        fill_records(fills.drop_last()) + fill_record(fills.last())
    }
}

pub open spec fn l2_records(levels: Seq<L2Level>) -> Seq<u8>
    decreases levels.len(),
{
    if levels.len() == 0 {
        Seq::empty()
    } else {
        l2_records(levels.drop_last()) + l2_record(levels.last())
    }
}

/// The fill records of `fills`, in order.
pub fn serialize_fills(fills: &Vec<Fill>) -> (r: Vec<u8>)
    ensures
        r@ == fill_records(fills@),
{
    let mut buf: Vec<u8> = Vec::new();
    let mut i: usize = 0;
    assert(fills@.subrange(0, 0) =~= Seq::<Fill>::empty());
    while i < fills.len()
        invariant
            i <= fills@.len(),
            buf@ == fill_records(fills@.subrange(0, i as int)),
        decreases fills@.len() - i,
    {
        let f = fills[i];
        push_le(&mut buf, f.maker_order_id, 8);
        push_le(&mut buf, f.taker_order_id, 8);
        push_le(&mut buf, f.maker_trader_id as u64, 4);
        push_le(&mut buf, f.taker_trader_id as u64, 4);
        push_le(&mut buf, f.price as u64, 8);
        push_le(&mut buf, f.qty as u64, 4);
        push_le(&mut buf, 0, 4);
        proof {
            let next = fills@.subrange(0, i as int + 1);
            assert(next.drop_last() =~= fills@.subrange(0, i as int));
            assert(next.last() == f);
        }
        assert(buf@ =~= fill_records(fills@.subrange(0, i as int + 1)));
        i = i + 1;
    }
    assert(fills@.subrange(0, fills@.len() as int) =~= fills@);
    buf
}

/// The L2 records of `levels`, in order; quantities and counts keep their
/// low 32 bits.
pub fn serialize_l2_levels(levels: &Vec<L2Level>) -> (r: Vec<u8>)
    ensures
        r@ == l2_records(levels@),
{
    let mut buf: Vec<u8> = Vec::new();
    let mut i: usize = 0;
    assert(levels@.subrange(0, 0) =~= Seq::<L2Level>::empty());
    while i < levels.len()
        invariant
            i <= levels@.len(),
            buf@ == l2_records(levels@.subrange(0, i as int)),
        decreases levels@.len() - i,
    {
        let l = levels[i];
        push_le(&mut buf, l.price as u64, 8);
        push_le(&mut buf, l.qty, 4);
        push_le(&mut buf, l.order_count as u64, 4);
        proof {
            let next = levels@.subrange(0, i as int + 1);
            assert(next.drop_last() =~= levels@.subrange(0, i as int));
            assert(next.last() == l);
        }
        assert(buf@ =~= l2_records(levels@.subrange(0, i as int + 1)));
        i = i + 1;
    }
    assert(levels@.subrange(0, levels@.len() as int) =~= levels@);
    buf
}


/// The name of the side a byte stands for; an unknown byte reads as "Buy".
pub open spec fn side_text(b: u8) -> Seq<char> {
    if b == 2 {
        seq!['S', 'e', 'l', 'l']
    } else {
        seq!['B', 'u', 'y']
    }
}

impl NewOrder {
    /// `NewOrder[seq=.., trader=.., side=.., price=.., qty=..]`, the price
    /// in its decimal form.
    pub fn to_string(&self) -> (r: String)
        ensures
            r@ == "NewOrder[seq="@ + nat_digits(self.header.sequence_num as nat) + ", trader="@ + nat_digits(
                self.trader_id as nat,
            ) + ", side="@ + side_text(self.side) + ", price="@ + display_price(self.price) + ", qty="@
                + nat_digits(self.quantity as nat) + "]"@,
    {
        let mut out = String::new();
        assert(out@ =~= Seq::<char>::empty());
        out.append("NewOrder[seq=");
        push_nat_digits(&mut out, self.header.sequence_num as u64);
        out.append(", trader=");
        push_nat_digits(&mut out, self.trader_id as u64);
        out.append(", side=");
        let side = match self.side_enum() {
            Some(s) => s,
            None => Side::Buy,
        };
        let side_name = side.to_string();
        out.append(side_name.as_str());
        out.append(", price=");
        let price = self.price_fixed().to_string();
        out.append(price.as_str());
        out.append(", qty=");
        push_nat_digits(&mut out, self.quantity as u64);
        out.append("]");
        assert(out@ =~= "NewOrder[seq="@ + nat_digits(self.header.sequence_num as nat) + ", trader="@ + nat_digits(
            self.trader_id as nat,
        ) + ", side="@ + side_text(self.side) + ", price="@ + display_price(self.price) + ", qty="@ + nat_digits(
            self.quantity as nat,
        ) + "]"@);
        out
    }
}

impl TradeUpdate {
    /// `Trade[id=.., price=.., qty=.., buyer=.., seller=..]`, the price in
    /// its decimal form.
    pub fn to_string(&self) -> (r: String)
        ensures
            r@ == "Trade[id="@ + nat_digits(self.trade_id as nat) + ", price="@ + display_price(self.price)
                + ", qty="@ + nat_digits(self.quantity as nat) + ", buyer="@ + nat_digits(self.buy_trader_id as nat)
                + ", seller="@ + nat_digits(self.sell_trader_id as nat) + "]"@,
    {
        let mut out = String::new();
        assert(out@ =~= Seq::<char>::empty());
        out.append("Trade[id=");
        push_nat_digits(&mut out, self.trade_id);
        out.append(", price=");
        let price = self.price_fixed().to_string();
        out.append(price.as_str());
        out.append(", qty=");
        push_nat_digits(&mut out, self.quantity as u64);
        out.append(", buyer=");
        push_nat_digits(&mut out, self.buy_trader_id as u64);
        out.append(", seller=");
        push_nat_digits(&mut out, self.sell_trader_id as u64);
        out.append("]");
        assert(out@ =~= "Trade[id="@ + nat_digits(self.trade_id as nat) + ", price="@ + display_price(self.price)
            + ", qty="@ + nat_digits(self.quantity as nat) + ", buyer="@ + nat_digits(self.buy_trader_id as nat)
            + ", seller="@ + nat_digits(self.sell_trader_id as nat) + "]"@);
        out
    }
}

} // verus!
