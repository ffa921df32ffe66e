//! The data model: live orders, their priority keys, trading pairs and
//! lifecycle events.

use vstd::prelude::*;

verus! {

use vstd::string::StringExecFns;

use crate::pqueue::KeyIndx;
use crate::types::{Asset, Failure, Long, OrderId, OrderSide, OrderStatus, OrderType, Price,
    TimestampMillis};

/// A live intent to trade.
#[derive(PartialEq, Eq, Structural, Copy, Clone, Debug)]
pub struct Order {
    pub orderid: OrderId,
    pub price: Price,
    pub quantity: Long,
    pub side: OrderSide,
    pub order_type: OrderType,
    pub timestamp: TimestampMillis,
    pub trading_pair: TradingPair,
}

impl Order {
    /// The priority-ordering projection of this order. The key omits the
    /// quantity, so in-place quantity changes never disturb queue order.
    pub open spec fn key(self) -> OrderKey {
        OrderKey {
            orderid: self.orderid,
            price: self.price,
            side: self.side,
            timestamp: self.timestamp,
        }
    }

    pub fn to_key(&self) -> (k: OrderKey)
        ensures
            k == self.key(),
    {
        OrderKey {
            orderid: self.orderid,
            price: self.price,
            side: self.side,
            timestamp: self.timestamp,
        }
    }
}

/// An ordered pair (order asset, price asset); the book index and
/// routing key. A valid pair holds two distinct assets.
#[derive(PartialEq, Eq, Structural, Copy, Clone, Hash, Debug)]
pub struct TradingPair {
    pub order_asset: Asset,
    pub price_asset: Asset,
}

impl TradingPair {
    pub fn from(order_asset: Asset, price_asset: Asset) -> (p: Self)
        ensures
            p.order_asset == order_asset,
            p.price_asset == price_asset,
    {
        Self { order_asset, price_asset }
    }

    /// A pair is rejected exactly when its two assets coincide.
    pub fn validate(&self) -> (r: Option<Failure>)
        ensures
            match r {
                Some(f) => self.order_asset == self.price_asset
                    && (f matches Failure::InvalidTradingPair(_)),
                None => self.order_asset != self.price_asset,
            },
    {
        if self.order_asset == self.price_asset {
            return Some(Failure::InvalidTradingPair(
                String::from_str("Trading pair must be different for price and order asset type"),
            ));
        }
        None
    }
}

/// A lifecycle notification for a single order.
#[derive(Debug)]
pub struct Event {
    pub status: OrderStatus,
    pub orderid: OrderId,
    pub at_price: String,
}

impl Default for Event {
    fn default() -> (e: Self)
        ensures
            e.status == OrderStatus::Canceled,
            e.orderid == 0,
            e.at_price@ == ""@,
    {
        Self { status: OrderStatus::Canceled, orderid: 0, at_price: String::from_str("") }
    }
}

/// The priority key stored in the order queues: everything the ordering
/// relation reads, and nothing the matcher mutates.
#[derive(PartialEq, Eq, Structural, Copy, Clone, Debug)]
pub struct OrderKey {
    pub orderid: OrderId,
    pub price: Price,
    pub side: OrderSide,
    pub timestamp: TimestampMillis,
}

/// The strict price-time priority relation on keys: `a` strictly
/// outranks `b`. On the bid side a higher price wins, on the ask side a
/// lower price wins; at equal prices the earlier timestamp wins; full
/// price-time ties are broken by id so that the relation is a total
/// order. Keys of different sides never share a queue; they are ranked
/// by side only so that the relation stays total.
pub open spec fn key_above(a: OrderKey, b: OrderKey) -> bool {
    if a.side != b.side {
        a.side == OrderSide::Bid
    } else if a.price.atoms != b.price.atoms {
        match a.side {
            OrderSide::Bid => a.price.atoms > b.price.atoms,
            OrderSide::Ask => a.price.atoms < b.price.atoms,
        }
    } else if a.timestamp != b.timestamp {
        a.timestamp < b.timestamp
    } else {
        a.orderid < b.orderid
    }
}

impl KeyIndx for OrderKey {
    /// Non-strict priority: `self` outranks or equals `other`.
    open spec fn prio_geq(self, other: Self) -> bool {
        self == other || key_above(self, other)
    }

    proof fn prio_total(a: Self, b: Self) {
    }

    proof fn prio_trans(a: Self, b: Self, c: Self) {
    }

    fn takes_priority(&self, other: &Self) -> (r: bool) {
        if self.side != other.side {
            self.side == OrderSide::Bid
        } else if self.price.atoms != other.price.atoms {
            match self.side {
                OrderSide::Bid => self.price.atoms > other.price.atoms,
                OrderSide::Ask => self.price.atoms < other.price.atoms,
            }
        } else if self.timestamp != other.timestamp {
            self.timestamp < other.timestamp
        } else {
            self.orderid <= other.orderid
        }
    }

    fn key_eq(&self, other: &Self) -> (r: bool) {
        self.orderid == other.orderid && self.price.atoms == other.price.atoms
            && self.side == other.side && self.timestamp == other.timestamp
    }
}

} // verus!
