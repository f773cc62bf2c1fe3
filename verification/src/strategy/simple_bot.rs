//! A trader that submits orders at random round a fixed price.

use rand::rngs::ThreadRng;
use rand::Rng;
use vstd::prelude::*;
use crate::engine::types::{Order, OrderType, Side, PRICE_SCALE, QUANTITY_SCALE};

verus! {

/// The lowest price, in ticks, that the trader names: 98 units.
pub const LOWEST_PRICE: i64 = 98 * PRICE_SCALE;

/// The price, in ticks, below which the trader's prices stay: 102 units.
pub const PRICE_BOUND: i64 = 102 * PRICE_SCALE;

/// The smallest quantity, in lots, that the trader asks for: half a unit.
pub const SMALLEST_QUANTITY: u64 = QUANTITY_SCALE / 2;

/// The quantity, in lots, below which the trader's quantities stay: 2 units.
pub const QUANTITY_BOUND: u64 = 2 * QUANTITY_SCALE;

/// A trader without state that makes up orders at random.
pub struct RandomTraderBot;

/// rand's handle to the random number generator of the current thread. Its
/// state is not looked into.
#[verifier::external_type_specification]
#[verifier::external_body]
pub struct ExThreadRng(ThreadRng);

/// rand's `thread_rng` hands out the generator of the current thread.
/// Nothing is claimed of it.
pub assume_specification[ rand::thread_rng ]() -> (rng: ThreadRng);

/// A random bool, each value as likely as the other.
///
/// Calls rand's `Rng::gen::<bool>`. Nothing is claimed of the value.
#[verifier::external_body]
fn random_flag(rng: &mut ThreadRng) -> bool {
    rng.gen::<bool>()
}

/// A random integer from `low` up to, but not including, `high`.
///
/// Calls rand's `Rng::gen_range` with the range `low..high`. It panics on an
/// empty range, which `requires` leaves out, and returns a value of the
/// range.
#[verifier::external_body]
fn random_between(rng: &mut ThreadRng, low: i64, high: i64) -> (drawn: i64)
    requires
        low < high,
    ensures
        low <= drawn < high,
{
    rng.gen_range(low..high)
}

/// A random bool that is true in `numerator` of `denominator` cases.
///
/// Calls rand's `Rng::gen_ratio`. It panics on a denominator of zero and on
/// a numerator above the denominator, which `requires` leaves out. Nothing
/// is claimed of the value.
#[verifier::external_body]
fn random_ratio(rng: &mut ThreadRng, numerator: u32, denominator: u32) -> bool
    requires
        0 < denominator,
        numerator <= denominator,
{
    rng.gen_ratio(numerator, denominator)
}

/// The order that the trader makes of four draws: the side, a price, a
/// quantity, and whether it is a limit order. Only a limit order carries the
/// price.
pub open spec fn order_of_draws(order_id: u64, buy: bool, price: i64, quantity: u64, limit: bool) -> Order {
    Order {
        id: order_id,
        side: if buy {
            Side::Buy
        } else {
            Side::Sell
        },
        order_type: if limit {
            OrderType::Limit
        } else {
            OrderType::Market
        },
        price: if limit {
            Some(price)
        } else {
            None
        },
        quantity,
    }
}

/// Whether the trader can have made the order: a limit order at a price
/// from 98 units up to 102, or a market order without a price, for a
/// quantity from half a unit up to 2.
pub open spec fn is_bot_order(order: Order) -> bool {
    &&& SMALLEST_QUANTITY <= order.quantity < QUANTITY_BOUND
    &&& match order.order_type {
        OrderType::Limit => order.price matches Some(price) && LOWEST_PRICE <= price < PRICE_BOUND,
        OrderType::Market => order.price is None,
    }
}

impl RandomTraderBot {
    /// The order that the trader makes of four draws.
    pub fn order_from_draws(order_id: u64, buy: bool, price: i64, quantity: u64, limit: bool) -> (order:
        Order)
        ensures
            order == order_of_draws(order_id, buy, price, quantity, limit),
    {
        Order {
            id: order_id,
            side: if buy {
                Side::Buy
            } else {
                Side::Sell
            },
            order_type: if limit {
                OrderType::Limit
            } else {
                OrderType::Market
            },
            price: if limit {
                Some(price)
            } else {
                None
            },
            quantity,
        }
    }

    /// Makes up an order under the given identity: either side with equal
    /// chance, a limit order in seven cases of ten and a market order
    /// otherwise, with a price and a quantity drawn evenly from the trader's
    /// ranges.
    pub fn generate_order(order_id: u64) -> (order: Order)
        ensures
            order.id == order_id,
            is_bot_order(order),
    {
        let mut rng = rand::thread_rng();
        let buy = random_flag(&mut rng);
        let price = random_between(&mut rng, LOWEST_PRICE, PRICE_BOUND);
        let quantity = random_between(&mut rng, SMALLEST_QUANTITY as i64, QUANTITY_BOUND as i64);
        let limit = random_ratio(&mut rng, 7, 10);
        Self::order_from_draws(order_id, buy, price, quantity as u64, limit)
    }
}

} // verus!
