use vstd::prelude::*;

verus! {

/// Journal message types. 0 marks the tail and is never written.
pub const NEW_ORDER: u8 = 0x01;

pub const ORDER_CANCEL: u8 = 0x02;

pub const ADD_FUNDS: u8 = 0x10;

pub const ADMIN_HALT: u8 = 0xFF;

} // verus!
