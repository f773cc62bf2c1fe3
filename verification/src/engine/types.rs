//! The records that every other part of the engine exchanges.

use vstd::prelude::*;

verus! {

/// The ticks that make one unit of price.
pub const PRICE_SCALE: i64 = 10_000;

/// The lots that make one unit of quantity.
pub const QUANTITY_SCALE: u64 = 10_000;

/// How an order is priced.
#[derive(Clone, Copy, Debug, PartialEq, Eq, Structural)]
pub enum OrderType {
    /// Executes against the best available opposite prices, without a limit.
    Market,
    /// Executes only at its limit price or better.
    Limit,
}

/// The side of the book an order belongs to.
#[derive(Clone, Copy, Debug, PartialEq, Eq, Structural)]
pub enum Side {
    Buy,
    Sell,
}

/// An order, before or after the book has given it an identity.
///
/// `price` is in ticks and is meaningful for limit orders; `quantity` is the
/// number of lots still unfilled.
#[derive(Clone, Copy, Debug, PartialEq, Eq, Structural)]
pub struct Order {
    pub id: u64,
    pub side: Side,
    pub order_type: OrderType,
    pub price: Option<i64>,
    pub quantity: u64,
}

/// One crossing of an incoming order with a resting order.
#[derive(Clone, Copy, Debug, PartialEq, Eq, Structural)]
pub struct Trade {
    pub buy_order_id: u64,
    pub sell_order_id: u64,
    pub price: i64,
    pub quantity: u64,
}

impl Side {
    /// The side an order of this side trades against.
    pub open spec fn spec_opposite(self) -> Side {
        match self {
            Side::Buy => Side::Sell,
            Side::Sell => Side::Buy,
        }
    }

    /// The side an order of this side trades against.
    #[verifier::when_used_as_spec(spec_opposite)]
    pub fn opposite(self) -> (other: Side)
        ensures
            other == self.spec_opposite(),
    {
        match self {
            Side::Buy => Side::Sell,
            Side::Sell => Side::Buy,
        }
    }
}

} // verus!
