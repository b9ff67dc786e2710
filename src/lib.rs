//! Core of a single-instrument central limit order book exchange: fixed-point
//! prices, a price-time priority book and matching engine, a pre-trade risk
//! guardian with two-phase margin, and a CRC-protected write-ahead journal
//! over a memory-mapped region, replayable into identical state.

pub mod codec;
pub mod exchange;
pub mod fixed_point;
pub mod journal;
pub mod journal_msg_type;
pub mod matching;
pub mod orderbook;
pub mod risk;
pub mod side;
pub mod wire;

pub use exchange::{ExchangeError, ExchangeResult, NexusExchange};
pub use fixed_point::{Price, Quantity, SCALE};
pub use journal::{JournalEntry, JournalHeader, Sentinel, WalError, JOURNAL_HEADER_SIZE};
pub use matching::{Fill, MatchResult, MatchingEngine, RejectReason, RiskConfig};
pub use orderbook::{BookSide, L2Level, Order, OrderBook, PriceLevel};
pub use risk::{Account, Guardian, GuardianConfig, GuardianReject, MarginEvent, VolatilityBandConfig};
pub use side::Side;
pub use wire::{msg_type, order_type, tif, MessageHeader, NewOrder, OrderCancel, TradeUpdate};
