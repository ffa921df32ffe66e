//! Scalar types shared by the whole engine: assets, sides, order kinds,
//! statuses, prices, trades and the failure taxonomy.

use vstd::prelude::*;

verus! {

use crate::model::TradingPair;

/// An order or trade quantity, in whole base-asset units.
pub type Long = u64;

/// Milliseconds since the Unix epoch.
pub type TimestampMillis = u128;

/// An opaque 128-bit order identifier.
pub type OrderId = u128;

/// An asset tag. A trading pair is an ordered pair of these.
#[derive(Eq, PartialEq, Structural, Copy, Clone, Hash, Debug)]
pub enum Asset {
    BTC,
    ETH,
    USDT,
    USDC,
    DOT,
}

/// The side of the book an order belongs to.
#[derive(Eq, PartialEq, Structural, Copy, Clone, Debug)]
pub enum OrderSide {
    Bid,
    Ask,
}

/// The side a given order crosses against: the other one.
pub open spec fn opposite(side: OrderSide) -> OrderSide {
    match side {
        OrderSide::Bid => OrderSide::Ask,
        OrderSide::Ask => OrderSide::Bid,
    }
}

/// The kind of an order. `Stop` is reserved and not supported by the
/// matcher.
#[derive(Eq, PartialEq, Structural, Copy, Clone, Debug)]
pub enum OrderType {
    Market,
    Limit,
    Stop,
}

/// Lifecycle status carried by events and trades.
#[derive(Eq, PartialEq, Structural, Copy, Clone, Debug)]
pub enum OrderStatus {
    Created,
    Filled,
    PartialFill,
    Canceled,
    Rejected,
    Expired,
}

/// An exact decimal price, held as a count of fixed-size decimal
/// subunits ("atoms") of the price asset. All books share one global
/// atom size, so prices compare and subtract as plain integers and the
/// engine never rounds. Binary floating point is never used.
#[derive(Eq, PartialEq, Structural, Copy, Clone, Hash, Debug)]
pub struct Price {
    pub atoms: u64,
}

impl Price {
    pub fn from_atoms(atoms: u64) -> (p: Self)
        ensures
            p.atoms == atoms,
    {
        Self { atoms }
    }
}

/// An immutable execution record. Two trades are emitted per crossing,
/// one for each counterparty.
#[derive(PartialEq, Eq, Structural, Copy, Clone, Debug)]
pub struct Trade {
    pub orderid: OrderId,
    pub side: OrderSide,
    pub price: Price,
    pub status: OrderStatus,
    pub quantity: Long,
    pub timestamp: Long,
}

/// Everything that can go wrong while handling a request.
#[derive(PartialEq, Eq, Clone, Debug)]
pub enum Failure {
    /// Exclusive access to the book map could not be acquired. The
    /// router holds the books behind `&mut self`, an exclusion that
    /// always succeeds, so it never returns this; the variant is
    /// reserved for non-blocking acquisition policies.
    EngineOverCapacity,
    /// The order's trading pair does not match the targeted book.
    InvalidOrderForBook,
    /// A cancel named an id that no resting order has.
    OrderNotFound(OrderId),
    /// No book is configured for the requested trading pair.
    BookNotFound(TradingPair),
    /// The request is well formed but violates policy.
    OrderRejected(String),
    /// Reserved order kinds, such as `Stop`.
    UnsupportedOperation(String),
    /// The pair's order asset equals its price asset.
    InvalidTradingPair(String),
}

} // verus!
