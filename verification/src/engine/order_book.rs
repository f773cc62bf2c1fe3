//! The order book: two sides of resting orders and the matching of each
//! incoming order against them.

use std::collections::BTreeMap;
use std::collections::VecDeque;
use vstd::prelude::*;
use crate::engine::laws::{
    lemma_best_is_unique, lemma_fill_front_well_formed, lemma_rest_well_formed,
    lemma_well_formed_later,
};
use crate::engine::matching::{
    best_price, can_match, crosses, fill_front, has_best, is_best, match_orders, rest,
    resting_price, rests_at, smaller, trade_between, well_formed_level, well_formed_side,
    with_quantity, BookView, Levels,
};
use crate::engine::types::{Order, OrderType, Side, Trade};

verus! {

/// The book of one instrument.
///
/// Each side maps a price to the queue of orders resting there, oldest first.
/// `next_order_id` is the identity that the next submitted order gets.
pub struct OrderBook {
    pub buy_orders: BTreeMap<i64, VecDeque<Order>>,
    pub sell_orders: BTreeMap<i64, VecDeque<Order>>,
    pub next_order_id: u64,
}

/// The levels that one side of the book holds.
pub open spec fn levels_of(side: BTreeMap<i64, VecDeque<Order>>) -> Levels {
    Map::new(|p: i64| side@.contains_key(p), |p: i64| side@[p]@)
}

impl View for OrderBook {
    type V = BookView;

    open spec fn view(&self) -> BookView {
        BookView {
            bids: levels_of(self.buy_orders),
            asks: levels_of(self.sell_orders),
            next_id: self.next_order_id,
        }
    }
}

/// The lowest price that has a level, if any.
///
/// Calls `BTreeMap::first_key_value`, which returns the entry with the
/// minimum key of the map, and nothing for a map without entries.
#[verifier::external_body]
fn lowest_price(levels: &BTreeMap<i64, VecDeque<Order>>) -> (lowest: Option<i64>)
    ensures
        match lowest {
            Some(price) => levels@.contains_key(price) && forall|p: i64|
                levels@.contains_key(p) ==> price <= p,
            None => forall|p: i64| !levels@.contains_key(p),
        },
{
    match levels.first_key_value() {
        Some((price, _)) => Some(*price),
        None => None,
    }
}

/// The highest price that has a level, if any.
///
/// Calls `BTreeMap::last_key_value`, which returns the entry with the
/// maximum key of the map, and nothing for a map without entries.
#[verifier::external_body]
fn highest_price(levels: &BTreeMap<i64, VecDeque<Order>>) -> (highest: Option<i64>)
    ensures
        match highest {
            Some(price) => levels@.contains_key(price) && forall|p: i64|
                levels@.contains_key(p) ==> price >= p,
            None => forall|p: i64| !levels@.contains_key(p),
        },
{
    match levels.last_key_value() {
        Some((price, _)) => Some(*price),
        None => None,
    }
}

/// The best level of a side of resting `side` orders: the lowest ask or the
/// highest bid.
fn best_level(levels: &BTreeMap<i64, VecDeque<Order>>, side: Side) -> (best: Option<i64>)
    ensures
        best is Some <==> has_best(levels_of(*levels), side),
        best is Some ==> best->0 == best_price(levels_of(*levels), side),
{
    let best = match side {
        Side::Sell => lowest_price(levels),
        Side::Buy => highest_price(levels),
    };
    proof {
        let model = levels_of(*levels);
        match best {
            Some(price) => {
                assert(is_best(model, side, price));
                lemma_best_is_unique(model, side, price);
            },
            None => {
                assert forall|p: i64| !is_best(model, side, p) by {
                    assert(!model.contains_key(p));
                }
            },
        }
    }
    best
}

/// Whether the incoming order is willing to trade at a resting level's price.
fn willing(incoming: &Order, level_price: i64) -> (yes: bool)
    ensures
        yes == crosses(*incoming, level_price),
{
    match incoming.order_type {
        OrderType::Market => true,
        OrderType::Limit => match incoming.price {
            Some(limit) => match incoming.side {
                Side::Buy => limit >= level_price,
                Side::Sell => limit <= level_price,
            },
            None => false,
        },
    }
}

/// The level at which the incoming order trades next, if it can trade.
fn next_match(
    levels: &BTreeMap<i64, VecDeque<Order>>,
    incoming: &Order,
    Ghost(next_id): Ghost<u64>,
) -> (level: Option<i64>)
    requires
        well_formed_side(levels_of(*levels), incoming.side.opposite(), next_id),
    ensures
        level is Some <==> can_match(levels_of(*levels), *incoming),
        level is Some ==> level->0 == best_price(levels_of(*levels), incoming.side.opposite()),
{
    if incoming.quantity == 0 {
        return None;
    }
    match best_level(levels, incoming.side.opposite()) {
        Some(price) => {
            proof {
                let model = levels_of(*levels);
                assert(is_best(model, incoming.side.opposite(), price));
                assert(model.contains_key(price));
                assert(well_formed_level(model[price], incoming.side.opposite(), price, next_id));
                assert(rests_at(model[price][0], incoming.side.opposite(), price, next_id));
            }
            if willing(incoming, price) {
                Some(price)
            } else {
                None
            }
        },
        None => None,
    }
}

/// Takes up to `wanted` lots from the oldest order at `price` and returns
/// that order as it stood before.
fn take_front(levels: &mut BTreeMap<i64, VecDeque<Order>>, price: i64, wanted: u64) -> (resting:
    Order)
    requires
        levels_of(*old(levels)).contains_key(price),
        levels_of(*old(levels))[price].len() > 0,
    ensures
        resting == levels_of(*old(levels))[price][0],
        levels_of(*final(levels)) == fill_front(
            levels_of(*old(levels)),
            price,
            smaller(wanted, resting.quantity),
        ),
{
    let ghost before = levels_of(*levels);
    let mut queue = levels.remove(&price).unwrap();
    let resting = queue.pop_front().unwrap();
    let fill = if wanted <= resting.quantity {
        wanted
    } else {
        resting.quantity
    };
    if fill < resting.quantity {
        queue.push_front(Order { quantity: resting.quantity - fill, ..resting });
    }
    if queue.len() > 0 {
        proof {
            if fill < resting.quantity {
                assert(queue@ =~= before[price].update(
                    0,
                    with_quantity(resting, (resting.quantity - fill) as u64),
                ));
            }
        }
        levels.insert(price, queue);
    }
    assert(levels_of(*levels) =~= fill_front(before, price, fill));
    resting
}

/// The record of one crossing.
fn make_trade(incoming: &Order, resting: &Order, price: i64, quantity: u64) -> (trade: Trade)
    ensures
        trade == trade_between(*incoming, *resting, price, quantity),
{
    match incoming.side {
        Side::Buy => Trade {
            buy_order_id: incoming.id,
            sell_order_id: resting.id,
            price,
            quantity,
        },
        Side::Sell => Trade {
            buy_order_id: resting.id,
            sell_order_id: incoming.id,
            price,
            quantity,
        },
    }
}

/// Matches the incoming order against the opposite side as far as it
/// crosses. Returns the trades, in the order in which they happened, and the
/// quantity that is left of the incoming order.
fn match_against(
    levels: &mut BTreeMap<i64, VecDeque<Order>>,
    incoming: Order,
    Ghost(next_id): Ghost<u64>,
) -> (done: (Vec<Trade>, u64))
    requires
        well_formed_side(levels_of(*old(levels)), incoming.side.opposite(), next_id),
    ensures
        levels_of(*final(levels)) == match_orders(levels_of(*old(levels)), incoming).levels,
        done.0@ == match_orders(levels_of(*old(levels)), incoming).trades,
        done.1 == match_orders(levels_of(*old(levels)), incoming).remaining,
        well_formed_side(levels_of(*final(levels)), incoming.side.opposite(), next_id),
{
    let ghost start = levels_of(*levels);
    let mut taker = incoming;
    let mut trades: Vec<Trade> = Vec::new();
    let mut next = next_match(levels, &taker, Ghost(next_id));
    assert(trades@ + match_orders(start, incoming).trades =~= match_orders(start, incoming).trades);
    while next.is_some()
        invariant
            taker == with_quantity(incoming, taker.quantity),
            well_formed_side(levels_of(*levels), incoming.side.opposite(), next_id),
            next is Some <==> can_match(levels_of(*levels), taker),
            next is Some ==> next->0 == best_price(levels_of(*levels), incoming.side.opposite()),
            match_orders(start, incoming).levels == match_orders(levels_of(*levels), taker).levels,
            match_orders(start, incoming).trades == trades@ + match_orders(
                levels_of(*levels),
                taker,
            ).trades,
            match_orders(start, incoming).remaining == match_orders(
                levels_of(*levels),
                taker,
            ).remaining,
        decreases taker.quantity,
    {
        let price = next.unwrap();
        let ghost before = levels_of(*levels);
        let ghost earlier = trades@;
        let ghost taker_before = taker;
        let resting = take_front(levels, price, taker.quantity);
        let fill = if taker.quantity <= resting.quantity {
            taker.quantity
        } else {
            resting.quantity
        };
        trades.push(make_trade(&taker, &resting, price, fill));
        taker.quantity = taker.quantity - fill;
        proof {
            lemma_fill_front_well_formed(before, incoming.side.opposite(), next_id, price, fill);
            let later = match_orders(levels_of(*levels), taker);
            assert(taker == with_quantity(taker_before, (taker_before.quantity - fill) as u64));
            assert(match_orders(before, taker_before).trades == seq![
                trade_between(taker_before, resting, price, fill),
            ] + later.trades);
            assert(trades@ + later.trades =~= earlier + (seq![
                trade_between(taker_before, resting, price, fill),
            ] + later.trades));
        }
        next = next_match(levels, &taker, Ghost(next_id));
    }
    (trades, taker.quantity)
}

/// The price level at which an order rests.
fn resting_price_of(order: &Order) -> (price: i64)
    ensures
        price == resting_price(*order),
{
    match order.order_type {
        OrderType::Market => 0,
        OrderType::Limit => match order.price {
            Some(limit) => limit,
            None => 0,
        },
    }
}

/// Puts what is left of an order at the back of the queue of its price
/// level.
fn rest_order(levels: &mut BTreeMap<i64, VecDeque<Order>>, order: Order)
    ensures
        levels_of(*final(levels)) == rest(levels_of(*old(levels)), order),
{
    let ghost before = levels_of(*levels);
    if order.quantity > 0 {
        let price = resting_price_of(&order);
        let mut queue = match levels.remove(&price) {
            Some(queue) => queue,
            None => VecDeque::new(),
        };
        queue.push_back(order);
        proof {
            if !before.contains_key(price) {
                assert(queue@ =~= seq![order]);
            }
        }
        levels.insert(price, queue);
    }
    assert(levels_of(*levels) =~= rest(before, order));
}

/// Whether a queue may stand at `price` on a side of `side` orders.
fn level_is_well_formed(queue: &VecDeque<Order>, side: Side, price: i64, next_id: u64) -> (ok:
    bool)
    ensures
        ok == well_formed_level(queue@, side, price, next_id),
{
    if queue.len() == 0 {
        return false;
    }
    let mut i: usize = 0;
    while i < queue.len()
        invariant
            i <= queue@.len(),
            forall|k: int| 0 <= k < i ==> rests_at(#[trigger] queue@[k], side, price, next_id),
            forall|a: int, b: int| 0 <= a < b < i ==> queue@[a].id < queue@[b].id,
        decreases queue@.len() - i,
    {
        let order = queue[i];
        let rests = order.side == side && order.quantity > 0 && order.id < next_id
            && resting_price_of(&order) == price;
        if !rests {
            assert(!rests_at(queue@[i as int], side, price, next_id));
            return false;
        }
        if i > 0 {
            if queue[i - 1].id >= order.id {
                return false;
            }
        }
        i = i + 1;
    }
    true
}

/// Whether one side of the book is well formed.
fn side_is_well_formed(levels: &BTreeMap<i64, VecDeque<Order>>, side: Side, next_id: u64) -> (ok:
    bool)
    ensures
        ok == well_formed_side(levels_of(*levels), side, next_id),
{
    let mut unchecked = levels.clone();
    assert(levels_of(*levels).dom() =~= levels@.dom());
    loop
        invariant
            levels_of(*levels).dom().finite(),
            unchecked@.dom().finite(),
            forall|p: i64| #[trigger]
                unchecked@.contains_key(p) ==> levels@.contains_key(p) && unchecked@[p]
                    == levels@[p],
            forall|p: i64| #[trigger]
                levels@.contains_key(p) && !unchecked@.contains_key(p) ==> well_formed_level(
                    levels@[p]@,
                    side,
                    p,
                    next_id,
                ),
        decreases unchecked@.dom().len(),
    {
        match lowest_price(&unchecked) {
            Some(price) => {
                let queue = unchecked.remove(&price).unwrap();
                if !level_is_well_formed(&queue, side, price, next_id) {
                    assert(levels_of(*levels).contains_key(price));
                    return false;
                }
            },
            None => {
                assert forall|p: i64| #[trigger]
                    levels_of(*levels).contains_key(p) implies well_formed_level(
                    levels_of(*levels)[p],
                    side,
                    p,
                    next_id,
                ) by {
                    assert(levels@.contains_key(p) && !unchecked@.contains_key(p));
                }
                return true;
            },
        }
    }
}

impl OrderBook {
    /// Whether the book is well formed: no level is empty, every resting
    /// order has quantity, an identity that the book gave, and stands on its
    /// own side at its own price, and every queue is in the order of arrival.
    pub fn is_well_formed(&self) -> (ok: bool)
        ensures
            ok == self@.well_formed(),
    {
        side_is_well_formed(&self.buy_orders, Side::Buy, self.next_order_id) && side_is_well_formed(
            &self.sell_orders,
            Side::Sell,
            self.next_order_id,
        )
    }

    /// A book without orders, whose first order gets the identity 1.
    pub fn new() -> (book: OrderBook)
        ensures
            book@ == BookView::empty(),
            book@.well_formed(),
    {
        let book = OrderBook {
            buy_orders: BTreeMap::new(),
            sell_orders: BTreeMap::new(),
            next_order_id: 1,
        };
        assert(levels_of(book.buy_orders) =~= Map::empty());
        assert(levels_of(book.sell_orders) =~= Map::empty());
        book
    }

    /// Submits an order.
    ///
    /// The order gets the book's next identity, whatever identity it came
    /// with. It is matched against the opposite side as far as it crosses,
    /// and what is left of it comes to rest on its own side. Returns the
    /// trades in the order in which they happened.
    pub fn add_order(&mut self, order: Order) -> (trades: Vec<Trade>)
        requires
            old(self)@.well_formed(),
            old(self).next_order_id < u64::MAX,
        ensures
            final(self)@ == old(self)@.submit(order).book,
            trades@ == old(self)@.submit(order).trades,
            final(self)@.well_formed(),
    {
        let ghost before = self@;
        let mut incoming = order;
        incoming.id = self.next_order_id;
        self.next_order_id = self.next_order_id + 1;
        assert(incoming == before.admitted(order));
        match incoming.side {
            Side::Buy => {
                let (trades, remaining) = match_against(
                    &mut self.sell_orders,
                    incoming,
                    Ghost(incoming.id),
                );
                incoming.quantity = remaining;
                rest_order(&mut self.buy_orders, incoming);
                proof {
                    lemma_rest_well_formed(before.bids, incoming, self.next_order_id);
                    lemma_well_formed_later(
                        levels_of(self.sell_orders),
                        Side::Sell,
                        incoming.id,
                        self.next_order_id,
                    );
                }
                trades
            },
            Side::Sell => {
                let (trades, remaining) = match_against(
                    &mut self.buy_orders,
                    incoming,
                    Ghost(incoming.id),
                );
                incoming.quantity = remaining;
                rest_order(&mut self.sell_orders, incoming);
                proof {
                    lemma_rest_well_formed(before.asks, incoming, self.next_order_id);
                    lemma_well_formed_later(
                        levels_of(self.buy_orders),
                        Side::Buy,
                        incoming.id,
                        self.next_order_id,
                    );
                }
                trades
            },
        }
    }
}

} // verus!
