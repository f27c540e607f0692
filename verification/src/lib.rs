//! An order-book custody-and-matching engine for a decentralized exchange.
//!
//! The engine owns per-account asset balances, a store of open orders keyed by
//! a monotonically increasing counter, and two derived indexes (by trading
//! pair and by owner) that support position-based pagination.  Deposits,
//! withdrawals, order placement, cancellation and taking are deterministic,
//! atomic per call, and emit exactly one structured event per successful
//! mutation.  Every operation carries a contract that pins down the resulting
//! balances, order set, indexes and event log.

pub mod types;
pub mod model;
pub mod engine;
pub mod indexes;
pub mod matching;
pub mod queries;
pub mod boundary;
pub mod laws;
