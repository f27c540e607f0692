//! Core data types of the engine: identifiers, orders, errors and events.

use vstd::prelude::*;

verus! {

/// A party holding balances and orders.  Accounts are opaque fixed-width
/// identifiers; equality is by value.
pub type AccountId = u64;

/// A fungible token class, identified by a plain 32-bit unsigned integer on
/// the engine side.
pub type AssetId = u32;

/// Whether an order advertises itself as a buy or a sell.  The tag is
/// descriptive only: settlement always moves the offered amount from maker to
/// taker and the requested amount from taker to maker.
#[allow(non_camel_case_types)]
#[derive(Clone, Copy, PartialEq, Eq, Structural, Debug)]
pub enum OrderType {
    BUY,
    SELL,
}

/// An engine-side order record.  `counter` is globally unique, assigned at
/// creation and never reused; `timestamp` is the logical creation time (the
/// engine uses the order counter itself as its logical clock, which is
/// monotone across creations).  Amounts are fixed at creation: the engine
/// settles orders fully or not at all.
#[derive(Clone, Copy, Debug)]
pub struct WrapperOrder {
    pub counter: u64,
    pub address: AccountId,
    pub pair: (AssetId, AssetId),
    pub timestamp: u64,
    pub order_type: OrderType,
    pub amount_offered: u128,
    pub amount_requested: u128,
}

/// Every way an engine call can fail.  All errors are terminal for the
/// current call: the engine commits no partial state change on any of them.
#[derive(Clone, Copy, PartialEq, Eq, Structural, Debug)]
pub enum DexError {
    /// A zero or otherwise disallowed quantity was supplied.
    InvalidAmount,
    /// The ledger cannot cover a requested debit.
    InsufficientBalance,
    /// No live order has the given id.
    NotFound,
    /// Cancellation was requested by an account other than the owner.
    NotOwner,
    /// The taker of an order is its own maker.
    SelfTrade,
    /// A pagination index lies beyond the current live count.
    IndexOutOfRange,
    /// A tagged identifier could not be reduced to the engine's plain form.
    UnsupportedIdentifier,
}

/// Notification of a completed deposit.
#[derive(Clone, Copy, Debug)]
pub struct Deposit {
    pub asset_id: AssetId,
    pub amount: u128,
}

/// Notification of a completed withdrawal.
#[derive(Clone, Copy, Debug)]
pub struct Withdraw {
    pub asset_id: AssetId,
    pub amount: u128,
}

/// Notification of a newly created order.
#[derive(Clone, Copy, Debug)]
pub struct OrderCreated {
    pub asset_id_1: AssetId,
    pub asset_id_2: AssetId,
    pub offered_amount: u128,
    pub requested_amount: u128,
    pub order_type: OrderType,
}

/// Notification of a canceled order.
#[derive(Clone, Copy, Debug)]
pub struct OrderCanceled {
    pub counter: u64,
}

/// Notification of a taken (fully settled) order.
#[derive(Clone, Copy, Debug)]
pub struct OrderTaken {
    pub counter: u64,
}

/// A structured notification, appended to the engine's event log exactly once
/// per successful mutating call and never on failure.
#[derive(Clone, Copy, Debug)]
pub enum Event {
    Deposit(Deposit),
    Withdraw(Withdraw),
    OrderCreated(OrderCreated),
    OrderCanceled(OrderCanceled),
    OrderTaken(OrderTaken),
}

} // verus!
