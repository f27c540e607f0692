//! The identifier boundary: a tagged identifier type as richer hosts use it,
//! its explicit reduction to the engine's plain 32-bit form, and the tagging
//! of engine-side order records into the externally facing shape.

use vstd::prelude::*;
use crate::types::{AccountId, AssetId, DexError, OrderType, WrapperOrder};

verus! {

/// A variant-tagged asset identifier as a surrounding host may carry it.
/// The engine itself only understands the `U32` variant; every other tag is
/// rejected explicitly rather than silently defaulted.
#[derive(Clone, Debug)]
pub enum Id {
    U8(u8),
    U16(u16),
    U32(u32),
    U64(u64),
    U128(u128),
    Bytes(Vec<u8>),
}

/// The reduction of a tagged identifier: the payload of a `U32` tag, and
/// `UnsupportedIdentifier` for every other variant.
pub open spec fn spec_reduce_id(id: Id) -> Result<AssetId, DexError> {
    match id {
        Id::U32(v) => Ok(v),
        _ => Err(DexError::UnsupportedIdentifier),
    }
}

/// Reduces a tagged identifier to the engine's plain form, rejecting every
/// tag that cannot be reduced losslessly.
pub fn reduce_id(id: &Id) -> (r: Result<AssetId, DexError>)
    ensures
        r == spec_reduce_id(*id),
{
    match id {
        Id::U32(v) => Ok(*v),
        _ => Err(DexError::UnsupportedIdentifier),
    }
}

/// An externally facing order record: the engine-side record with its pair
/// expressed as tagged identifiers.
#[derive(Debug)]
pub struct Order {
    pub counter: u64,
    pub address: AccountId,
    pub pair: (Id, Id),
    pub timestamp: u64,
    pub order_type: OrderType,
    pub amount_offered: u128,
    pub amount_requested: u128,
}

/// The tagged form of an engine-side order: every field carried over, the
/// pair wrapped in `U32` tags.
pub open spec fn spec_tag_order(w: WrapperOrder) -> Order {
    Order {
        counter: w.counter,
        address: w.address,
        pair: (Id::U32(w.pair.0), Id::U32(w.pair.1)),
        timestamp: w.timestamp,
        order_type: w.order_type,
        amount_offered: w.amount_offered,
        amount_requested: w.amount_requested,
    }
}

/// Converts an engine-side order into the externally facing tagged form.
pub fn tag_order(w: &WrapperOrder) -> (r: Order)
    ensures
        r == spec_tag_order(*w),
{
    Order {
        counter: w.counter,
        address: w.address,
        pair: (Id::U32(w.pair.0), Id::U32(w.pair.1)),
        timestamp: w.timestamp,
        order_type: w.order_type,
        amount_offered: w.amount_offered,
        amount_requested: w.amount_requested,
    }
}

} // verus!
