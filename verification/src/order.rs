//! Order types and the events that clients submit.
//!
//! Prices are fixed-point integers (price * 10^8) and quantities are counts of
//! base units, so every computation on them is integer arithmetic.

use vstd::prelude::*;

verus! {

/// Unique order identifier; the engine uses the event's sequence number.
#[derive(Debug, Clone, Copy, PartialEq, Eq, PartialOrd, Ord, Hash, Structural)]
pub struct OrderId(pub u64);

/// Side of an order: bid (buy) or ask (sell).
#[derive(Debug, Clone, Copy, PartialEq, Eq, Hash, Structural)]
pub enum Side {
    /// Buy order
    Bid,
    /// Sell order
    Ask,
}

impl Side {
    /// The other side of the book.
    pub fn opposite(self) -> (r: Side)
        ensures
            r == (match self {
                Side::Bid => Side::Ask,
                Side::Ask => Side::Bid,
            }),
    {
        match self {
            Side::Bid => Side::Ask,
            Side::Ask => Side::Bid,
        }
    }

    /// The label under which the side is shown: `BID` or `ASK`.
    pub fn label(self) -> (r: &'static str)
        ensures
            self == Side::Bid ==> r@ == "BID"@,
            self == Side::Ask ==> r@ == "ASK"@,
    {
        match self {
            Side::Bid => "BID",
            Side::Ask => "ASK",
        }
    }
}

/// Fixed-point price: the price times 10^8.
#[derive(Debug, Clone, Copy, PartialEq, Eq, PartialOrd, Ord, Hash, Structural)]
pub struct Price(pub u64);

/// Order quantity in base units.
#[derive(Debug, Clone, Copy, PartialEq, Eq, PartialOrd, Ord, Structural)]
pub struct Quantity(pub u64);

/// An order: the quantity it was entered with and what is left of it.
#[derive(Debug, Clone, Copy)]
pub struct Order {
    /// Unique order identifier
    pub id: OrderId,
    /// Order side (bid or ask)
    pub side: Side,
    /// Limit price
    pub price: Price,
    /// Order quantity
    pub quantity: Quantity,
    /// Remaining quantity available for matching
    pub remaining: Quantity,
    /// Sequence number for time priority
    pub sequence: u64,
    /// Timestamp (nanoseconds since the sequencer started)
    pub timestamp_ns: u64,
}

/// The order `o` with `remaining` set to `r`, every other field kept.
pub open spec fn with_remaining(o: Order, r: u64) -> Order {
    Order {
        id: o.id,
        side: o.side,
        price: o.price,
        quantity: o.quantity,
        remaining: Quantity(r),
        sequence: o.sequence,
        timestamp_ns: o.timestamp_ns,
    }
}

/// A fresh order: nothing of it has been filled yet.
pub open spec fn new_order(
    id: OrderId,
    side: Side,
    price: Price,
    quantity: Quantity,
    sequence: u64,
    timestamp_ns: u64,
) -> Order {
    Order { id, side, price, quantity, remaining: quantity, sequence, timestamp_ns }
}

impl Order {
    /// Create a new order whose remaining quantity is its whole quantity.
    pub fn new(
        id: OrderId,
        side: Side,
        price: Price,
        quantity: Quantity,
        sequence: u64,
        timestamp_ns: u64,
    ) -> (r: Self)
        ensures
            r == new_order(id, side, price, quantity, sequence, timestamp_ns),
    {
        Order { id, side, price, quantity, remaining: quantity, sequence, timestamp_ns }
    }

    /// Whether nothing remains of the order.
    pub fn is_filled(&self) -> (r: bool)
        ensures
            r == (self.remaining.0 == 0),
    {
        self.remaining.0 == 0
    }

    /// Whether some quantity remains.
    pub fn is_live(&self) -> (r: bool)
        ensures
            r == (self.remaining.0 > 0),
    {
        self.remaining.0 > 0
    }

    /// Reduce the remaining quantity by `amount`, stopping at zero.
    pub fn reduce_remaining(&mut self, amount: Quantity)
        ensures
            *final(self) == with_remaining(
                *old(self),
                if old(self).remaining.0 >= amount.0 {
                    (old(self).remaining.0 - amount.0) as u64
                } else {
                    0u64
                },
            ),
    {
        self.remaining = Quantity(self.remaining.0.saturating_sub(amount.0));
    }
}

/// A trade between a resting order (maker) and an incoming one (taker).
#[derive(Debug, Clone, Copy)]
pub struct Fill {
    pub maker_id: OrderId,
    pub taker_id: OrderId,
    pub price: Price,
    pub quantity: Quantity,
}

/// An event submitted to the engine, before it is sequenced.
#[derive(Debug, Clone, Copy)]
pub enum OrderEvent {
    /// New limit order
    Limit { side: Side, price: Price, quantity: Quantity },
    /// Market order (fill immediately at the best available prices)
    Market { side: Side, quantity: Quantity },
    /// Cancel an existing order by its ID
    Cancel { order_id: OrderId },
    /// Modify an existing order (price and/or quantity)
    Modify { order_id: OrderId, new_price: Option<Price>, new_quantity: Option<Quantity> },
}

} // verus!
