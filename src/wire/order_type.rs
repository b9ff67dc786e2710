use vstd::prelude::*;

verus! {

/// Order types.
pub const LIMIT: u8 = 1;

pub const MARKET: u8 = 2;

} // verus!
