//! The mathematical model of the book and of matching.
//!
//! One side of the book is a map from a price to the queue of orders resting
//! at that price, oldest first. Matching is defined on that model alone; the
//! executable book is proved to follow it.

use vstd::prelude::*;
use crate::engine::types::{Order, OrderType, Side, Trade};

verus! {

/// One side of the book: each price level with its queue, oldest order first.
pub type Levels = Map<i64, Seq<Order>>;

/// Whether price `a` is at least as good as price `b` for a level of resting
/// `side` orders: asks improve downwards, bids improve upwards.
pub open spec fn no_worse(side: Side, a: i64, b: i64) -> bool {
    match side {
        Side::Sell => a <= b,
        Side::Buy => a >= b,
    }
}

/// Whether `price` is the best level of a side of resting `side` orders: the
/// lowest ask or the highest bid.
pub open spec fn is_best(levels: Levels, side: Side, price: i64) -> bool {
    &&& levels.contains_key(price)
    &&& forall|p: i64| levels.contains_key(p) ==> no_worse(side, price, p)
}

/// Whether the side has a best level at all.
pub open spec fn has_best(levels: Levels, side: Side) -> bool {
    exists|p: i64| is_best(levels, side, p)
}

/// The best level of a side that has one.
pub open spec fn best_price(levels: Levels, side: Side) -> i64
    recommends
        has_best(levels, side),
{
    choose|p: i64| is_best(levels, side, p)
}

/// Whether the incoming order is willing to trade at a resting level's price.
/// A market order always is; a limit buy is when its limit is at or above the
/// level, a limit sell when it is at or below; a limit order without a price
/// never is.
pub open spec fn crosses(incoming: Order, level_price: i64) -> bool {
    match incoming.order_type {
        OrderType::Market => true,
        OrderType::Limit => match incoming.price {
            Some(limit) => match incoming.side {
                Side::Buy => limit >= level_price,
                Side::Sell => limit <= level_price,
            },
            None => false,
        },
    }
}

/// The price level at which an order rests: its own limit price, and zero for
/// an order that carries none or is a market order.
pub open spec fn resting_price(order: Order) -> i64 {
    match order.order_type {
        OrderType::Market => 0,
        OrderType::Limit => match order.price {
            Some(limit) => limit,
            None => 0,
        },
    }
}

/// The smaller of two quantities.
pub open spec fn smaller(a: u64, b: u64) -> u64 {
    if a <= b {
        a
    } else {
        b
    }
}

/// The order with another unfilled quantity.
pub open spec fn with_quantity(order: Order, quantity: u64) -> Order {
    Order { quantity, ..order }
}

/// The record of `quantity` lots of `incoming` crossing with `resting` at the
/// resting order's level.
pub open spec fn trade_between(incoming: Order, resting: Order, price: i64, quantity: u64) -> Trade {
    match incoming.side {
        Side::Buy => Trade { buy_order_id: incoming.id, sell_order_id: resting.id, price, quantity },
        Side::Sell => Trade { buy_order_id: resting.id, sell_order_id: incoming.id, price, quantity },
    }
}

/// The identity of the resting party of a trade that an order of
/// `incoming_side` caused.
pub open spec fn resting_id(trade: Trade, incoming_side: Side) -> u64 {
    match incoming_side {
        Side::Buy => trade.sell_order_id,
        Side::Sell => trade.buy_order_id,
    }
}

/// The identity of the incoming party of a trade that an order of
/// `incoming_side` caused.
pub open spec fn incoming_id(trade: Trade, incoming_side: Side) -> u64 {
    match incoming_side {
        Side::Buy => trade.buy_order_id,
        Side::Sell => trade.sell_order_id,
    }
}

/// The side after `fill` lots were taken from the oldest order at `price`:
/// a partly filled order keeps the front of its queue, a filled one leaves,
/// and a level whose queue empties leaves with it.
pub open spec fn fill_front(levels: Levels, price: i64, fill: u64) -> Levels
    recommends
        levels.contains_key(price),
        levels[price].len() > 0,
        fill <= levels[price][0].quantity,
{
    let queue = levels[price];
    let front = queue[0];
    if fill < front.quantity {
        levels.insert(price, queue.update(0, with_quantity(front, (front.quantity - fill) as u64)))
    } else if queue.len() > 1 {
        levels.insert(price, queue.subrange(1, queue.len() as int))
    } else {
        levels.remove(price)
    }
}

/// Whether the incoming order can trade now: it has quantity left, the
/// opposite side has a best level, the order crosses it, and an order with
/// quantity stands at the front of that level.
pub open spec fn can_match(levels: Levels, incoming: Order) -> bool {
    let side = incoming.side.opposite();
    let price = best_price(levels, side);
    &&& incoming.quantity > 0
    &&& has_best(levels, side)
    &&& crosses(incoming, price)
    &&& levels[price].len() > 0
    &&& levels[price][0].quantity > 0
}

/// What matching leaves: the opposite side, the trades in the order in which
/// they happened, and the incoming order's unfilled quantity.
pub struct Matched {
    pub levels: Levels,
    pub trades: Seq<Trade>,
    pub remaining: u64,
}

/// Matching an incoming order against the opposite side of the book.
///
/// As long as the order can trade, it takes from the oldest order of the best
/// opposite level the smaller of the two quantities, at that level's price.
pub open spec fn match_orders(levels: Levels, incoming: Order) -> Matched
    decreases incoming.quantity,
{
    if can_match(levels, incoming) {
        let price = best_price(levels, incoming.side.opposite());
        let resting = levels[price][0];
        let fill = smaller(incoming.quantity, resting.quantity);
        let later = match_orders(
            fill_front(levels, price, fill),
            with_quantity(incoming, (incoming.quantity - fill) as u64),
        );
        Matched {
            levels: later.levels,
            trades: seq![trade_between(incoming, resting, price, fill)] + later.trades,
            remaining: later.remaining,
        }
    } else {
        Matched { levels, trades: Seq::empty(), remaining: incoming.quantity }
    }
}

/// The side after an order came to rest on it: at the back of the queue of
/// its price level, which is opened if it was not there. An order without
/// quantity does not rest.
pub open spec fn rest(levels: Levels, order: Order) -> Levels {
    let price = resting_price(order);
    if order.quantity == 0 {
        levels
    } else if levels.contains_key(price) {
        levels.insert(price, levels[price].push(order))
    } else {
        levels.insert(price, seq![order])
    }
}

/// Whether `order` may stand in the queue at `price` on a side of `side`
/// orders of a book whose next identity is `next_id`.
pub open spec fn rests_at(order: Order, side: Side, price: i64, next_id: u64) -> bool {
    &&& order.side == side
    &&& order.quantity > 0
    &&& order.id < next_id
    &&& resting_price(order) == price
}

/// A price level is well formed when it holds at least one order, each of
/// them rests there rightly, and they stand in the order of their arrival.
pub open spec fn well_formed_level(queue: Seq<Order>, side: Side, price: i64, next_id: u64) -> bool {
    &&& queue.len() > 0
    &&& forall|i: int| 0 <= i < queue.len() ==> rests_at(#[trigger] queue[i], side, price, next_id)
    &&& forall|i: int, j: int| 0 <= i < j < queue.len() ==> queue[i].id < queue[j].id
}

/// A side is well formed when it has finitely many levels and each is well
/// formed.
pub open spec fn well_formed_side(levels: Levels, side: Side, next_id: u64) -> bool {
    &&& levels.dom().finite()
    &&& forall|p: i64| #[trigger]
        levels.contains_key(p) ==> well_formed_level(levels[p], side, p, next_id)
}

/// The lots that a sequence of trades moved.
pub open spec fn traded_quantity(trades: Seq<Trade>) -> nat
    decreases trades.len(),
{
    if trades.len() == 0 {
        0
    } else {
        trades[0].quantity as nat + traded_quantity(trades.subrange(1, trades.len() as int))
    }
}

/// The lots that rest in one queue.
pub open spec fn queue_quantity(queue: Seq<Order>) -> nat
    decreases queue.len(),
{
    if queue.len() == 0 {
        0
    } else {
        queue[0].quantity as nat + queue_quantity(queue.subrange(1, queue.len() as int))
    }
}

/// The lots that rest on one side of the book.
pub open spec fn side_quantity(levels: Levels) -> nat
    decreases levels.dom().len(),
    when levels.dom().finite()
{
    if levels.dom().len() == 0 {
        0
    } else {
        let price = levels.dom().choose();
        queue_quantity(levels[price]) + side_quantity(levels.remove(price))
    }
}

/// The levels at whose price the incoming order is willing to trade.
pub open spec fn crossing_levels(levels: Levels, incoming: Order) -> Levels {
    Map::new(|p: i64| levels.contains_key(p) && crosses(incoming, p), |p: i64| levels[p])
}

/// The queue at a price, which is empty where the side has no such level.
pub open spec fn queue_at(levels: Levels, price: i64) -> Seq<Order> {
    if levels.contains_key(price) {
        levels[price]
    } else {
        Seq::empty()
    }
}

/// Whether the trade could have been made against `order`: it names the
/// order as its resting party and moves some, and no more than all, of its
/// quantity.
pub open spec fn trade_takes_from(trade: Trade, order: Order, incoming_side: Side) -> bool {
    &&& resting_id(trade, incoming_side) == order.id
    &&& 0 < trade.quantity <= order.quantity
}

/// Whether the trade was made against an order resting on `levels`, at the
/// price of that order's level.
pub open spec fn trade_hits(levels: Levels, trade: Trade, incoming_side: Side) -> bool {
    &&& levels.contains_key(trade.price)
    &&& exists|i: int|
        0 <= i < levels[trade.price].len() && trade_takes_from(
            trade,
            #[trigger] levels[trade.price][i],
            incoming_side,
        )
}

/// Whether `after` is what matching can leave of the queue `before`: some
/// of the oldest orders are gone, the others stand as they stood, and only
/// the one now at the front may have lost part of its quantity.
pub open spec fn is_rest_of_queue(after: Seq<Order>, before: Seq<Order>) -> bool {
    let gone = before.len() - after.len();
    &&& after.len() <= before.len()
    &&& forall|i: int|
        0 < i < after.len() ==> #[trigger] after[i] == before[gone + i]
    &&& after.len() > 0 ==> {
        &&& after[0] == with_quantity(before[gone], after[0].quantity)
        &&& 0 < after[0].quantity <= before[gone].quantity
    }
}

/// The book as a value: both sides and the identity that the next order gets.
pub struct BookView {
    pub bids: Levels,
    pub asks: Levels,
    pub next_id: u64,
}

/// What one submission yields: the book after it and the trades it caused.
pub struct Submitted {
    pub book: BookView,
    pub trades: Seq<Trade>,
}

impl BookView {
    /// The book without orders, whose first order gets the identity 1.
    pub open spec fn empty() -> BookView {
        BookView { bids: Map::empty(), asks: Map::empty(), next_id: 1 }
    }

    /// Both sides are well formed.
    pub open spec fn well_formed(self) -> bool {
        &&& well_formed_side(self.bids, Side::Buy, self.next_id)
        &&& well_formed_side(self.asks, Side::Sell, self.next_id)
    }

    /// The side that holds the resting orders of `side`.
    pub open spec fn side(self, side: Side) -> Levels {
        match side {
            Side::Buy => self.bids,
            Side::Sell => self.asks,
        }
    }

    /// The lots that rest in the book, on both sides together.
    pub open spec fn resting_quantity(self) -> nat {
        side_quantity(self.bids) + side_quantity(self.asks)
    }

    /// The order as the book takes it in: under the book's next identity.
    pub open spec fn admitted(self, order: Order) -> Order {
        Order { id: self.next_id, ..order }
    }

    /// Submitting an order: it gets the next identity, is matched against the
    /// opposite side, and what is left of it comes to rest on its own side.
    pub open spec fn submit(self, order: Order) -> Submitted
        recommends
            self.next_id < u64::MAX,
    {
        let incoming = self.admitted(order);
        let matched = match_orders(self.side(order.side.opposite()), incoming);
        let own = rest(self.side(order.side), with_quantity(incoming, matched.remaining));
        let next_id = (self.next_id + 1) as u64;
        Submitted {
            book: match order.side {
                Side::Buy => BookView { bids: own, asks: matched.levels, next_id },
                Side::Sell => BookView { bids: matched.levels, asks: own, next_id },
            },
            trades: matched.trades,
        }
    }

    /// The book after a sequence of submissions, the first order first.
    pub open spec fn submit_all(self, orders: Seq<Order>) -> BookView
        decreases orders.len(),
    {
        if orders.len() == 0 {
            self
        } else {
            self.submit_all(orders.drop_last()).submit(orders.last()).book
        }
    }
}

} // verus!
