use vstd::prelude::*;

verus! {

/// Wire message types.
pub const NEW_ORDER: u8 = 0x01;

pub const ORDER_CANCEL: u8 = 0x02;

pub const EXECUTION_REPORT: u8 = 0x10;

pub const MARKET_DATA_BBO: u8 = 0x20;

pub const TRADE_UPDATE: u8 = 0x30;

pub const KILL_SWITCH: u8 = 0xFF;

} // verus!
