//! Orders: the identity and terms of one trading intent, plus its
//! remaining quantity.

use vstd::prelude::*;

verus! {

/// The side of an order: buying or selling.
#[derive(Debug, Clone, Copy, PartialEq, Eq, Structural)]
pub enum OrderSide {
    Buy,
    Sell,
}

impl OrderSide {
    /// The side an incoming order matches against.
    pub open spec fn spec_opposite(self) -> OrderSide {
        match self {
            OrderSide::Buy => OrderSide::Sell,
            OrderSide::Sell => OrderSide::Buy,
        }
    }

    /// The side an incoming order matches against.
    pub fn opposite(self) -> (r: OrderSide)
        ensures
            r == self.spec_opposite(),
    {
        match self {
            OrderSide::Buy => OrderSide::Sell,
            OrderSide::Sell => OrderSide::Buy,
        }
    }
}

/// Whether an order demands a price (limit) or takes any price (market).
#[derive(Debug, Clone, Copy, PartialEq, Eq, Structural)]
pub enum OrderType {
    Market,
    Limit,
}

/// One trading intent. `quantity` is the remaining, not the original,
/// size: the matching loop decrements it on each fill.
#[derive(Debug, Clone, Copy)]
pub struct Order {
    pub id: u64,
    pub order_type: OrderType,
    pub side: OrderSide,
    /// Present exactly for limit orders.
    pub price: Option<u64>,
    pub quantity: u64,
    /// Sequence number breaking ties among orders at one price; the
    /// engine assigns ids in submission order, so the id serves.
    pub timestamp: u64,
}

impl Order {
    /// A market order never carries a price; a limit order always does.
    pub open spec fn wf(self) -> bool {
        self.price is Some <==> self.order_type == OrderType::Limit
    }

    /// An order the book may hold: a limit order with quantity left.
    pub open spec fn restable(self) -> bool {
        &&& self.wf()
        &&& self.order_type == OrderType::Limit
        &&& self.quantity > 0
    }

    pub fn new(id: u64, order_type: OrderType, side: OrderSide, price: Option<u64>, quantity: u64) -> (r: Order)
        requires
            price is Some <==> order_type == OrderType::Limit,
            quantity > 0,
        ensures
            r == (Order { id, order_type, side, price, quantity, timestamp: id }),
            r.wf(),
    {
        Order { id, order_type, side, price, quantity, timestamp: id }
    }
}

} // verus!
