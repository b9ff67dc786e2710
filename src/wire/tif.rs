use vstd::prelude::*;

verus! {

/// Good till cancel: rests until cancelled.
pub const GTC: u8 = 1;

/// Immediate or cancel: fill what is possible, cancel the rest.
pub const IOC: u8 = 2;

/// Fill or kill: fill everything or reject.
pub const FOK: u8 = 3;

} // verus!
