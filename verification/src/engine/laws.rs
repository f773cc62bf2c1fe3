//! What holds of matching and of every submission, proved on the model.

use vstd::prelude::*;
use vstd::set_lib::lemma_len_subset;
use crate::engine::matching::{
    best_price, can_match, crosses, crossing_levels, fill_front, has_best, incoming_id, is_best, is_rest_of_queue,
    match_orders, no_worse, queue_at, queue_quantity, rest, resting_id, resting_price, rests_at,
    side_quantity, smaller, trade_between, trade_hits, trade_takes_from, traded_quantity,
    well_formed_level, well_formed_side, with_quantity, BookView, Levels,
};
use crate::engine::types::{Order, OrderType, Side, Trade};

verus! {

/// A side has at most one best level.
pub proof fn lemma_best_is_unique(levels: Levels, side: Side, price: i64)
    requires
        is_best(levels, side, price),
    ensures
        has_best(levels, side),
        best_price(levels, side) == price,
{
    let chosen = best_price(levels, side);
    assert(is_best(levels, side, chosen));
    assert(no_worse(side, price, chosen));
    assert(no_worse(side, chosen, price));
}

/// A side that is well formed for one next identity is so for every later
/// one.
pub proof fn lemma_well_formed_later(levels: Levels, side: Side, next_id: u64, later_id: u64)
    requires
        well_formed_side(levels, side, next_id),
        next_id <= later_id,
    ensures
        well_formed_side(levels, side, later_id),
{
    assert forall|p: i64| #[trigger] levels.contains_key(p) implies well_formed_level(
        levels[p],
        side,
        p,
        later_id,
    ) by {
        let queue = levels[p];
        assert(well_formed_level(queue, side, p, next_id));
        assert forall|i: int| 0 <= i < queue.len() implies rests_at(
            #[trigger] queue[i],
            side,
            p,
            later_id,
        ) by {
            assert(rests_at(queue[i], side, p, next_id));
        }
    }
}

/// Taking from the front of a level leaves the side well formed.
pub proof fn lemma_fill_front_well_formed(
    levels: Levels,
    side: Side,
    next_id: u64,
    price: i64,
    fill: u64,
)
    requires
        well_formed_side(levels, side, next_id),
        levels.contains_key(price),
        fill <= levels[price][0].quantity,
    ensures
        well_formed_side(fill_front(levels, price, fill), side, next_id),
{
    let after = fill_front(levels, price, fill);
    let queue = levels[price];
    assert(well_formed_level(queue, side, price, next_id));
    assert(rests_at(queue[0], side, price, next_id));
    assert forall|p: i64| #[trigger] after.contains_key(p) implies well_formed_level(
        after[p],
        side,
        p,
        next_id,
    ) by {
        if p == price {
            let left = after[p];
            if fill < queue[0].quantity {
                assert forall|i: int| 0 <= i < left.len() implies rests_at(
                    #[trigger] left[i],
                    side,
                    p,
                    next_id,
                ) by {
                    assert(rests_at(queue[i], side, p, next_id));
                }
                assert forall|i: int, j: int| 0 <= i < j < left.len() implies left[i].id
                    < left[j].id by {
                    assert(queue[i].id < queue[j].id);
                }
            } else {
                assert forall|i: int| 0 <= i < left.len() implies rests_at(
                    #[trigger] left[i],
                    side,
                    p,
                    next_id,
                ) by {
                    assert(rests_at(queue[i + 1], side, p, next_id));
                }
                assert forall|i: int, j: int| 0 <= i < j < left.len() implies left[i].id
                    < left[j].id by {
                    assert(queue[i + 1].id < queue[j + 1].id);
                }
            }
        } else {
            assert(levels.contains_key(p));
        }
    }
}

/// An order that comes to rest under an identity above all those on its side
/// leaves the side well formed.
pub proof fn lemma_rest_well_formed(levels: Levels, order: Order, next_id: u64)
    requires
        well_formed_side(levels, order.side, order.id),
        order.id < next_id,
    ensures
        well_formed_side(rest(levels, order), order.side, next_id),
{
    let after = rest(levels, order);
    let price = resting_price(order);
    lemma_well_formed_later(levels, order.side, order.id, next_id);
    assert forall|p: i64| #[trigger] after.contains_key(p) implies well_formed_level(
        after[p],
        order.side,
        p,
        next_id,
    ) by {
        if order.quantity > 0 && p == price {
            let queue = after[p];
            if levels.contains_key(price) {
                let before = levels[price];
                assert(well_formed_level(before, order.side, price, order.id));
                assert(well_formed_level(before, order.side, price, next_id));
                assert forall|i: int| 0 <= i < queue.len() implies rests_at(
                    #[trigger] queue[i],
                    order.side,
                    p,
                    next_id,
                ) by {
                    if i < before.len() {
                        assert(rests_at(before[i], order.side, p, next_id));
                    }
                }
                assert forall|i: int, j: int| 0 <= i < j < queue.len() implies queue[i].id
                    < queue[j].id by {
                    assert(rests_at(before[i], order.side, p, order.id));
                    if j < before.len() {
                        assert(before[i].id < before[j].id);
                    }
                }
            }
        } else {
            assert(levels.contains_key(p));
        }
    }
}

/// Matching leaves the opposite side well formed.
pub proof fn lemma_match_well_formed(levels: Levels, incoming: Order, next_id: u64)
    requires
        well_formed_side(levels, incoming.side.opposite(), next_id),
    ensures
        well_formed_side(match_orders(levels, incoming).levels, incoming.side.opposite(), next_id),
    decreases incoming.quantity,
{
    if can_match(levels, incoming) {
        let side = incoming.side.opposite();
        let price = best_price(levels, side);
        let fill = smaller(incoming.quantity, levels[price][0].quantity);
        lemma_fill_front_well_formed(levels, side, next_id, price, fill);
        lemma_match_well_formed(
            fill_front(levels, price, fill),
            with_quantity(incoming, (incoming.quantity - fill) as u64),
            next_id,
        );
    }
}

/// The lots of a sequence of trades are those of its first trades and those
/// of the others.
pub proof fn lemma_traded_quantity_splits(trades: Seq<Trade>, k: int)
    requires
        0 <= k <= trades.len(),
    ensures
        traded_quantity(trades) == traded_quantity(trades.take(k)) + traded_quantity(
            trades.skip(k),
        ),
    decreases trades.len(),
{
    if k == 0 {
        assert(trades.take(0).len() == 0);
        assert(trades.skip(0) =~= trades);
    } else {
        let tail = trades.subrange(1, trades.len() as int);
        lemma_traded_quantity_splits(tail, k - 1);
        assert(tail.take(k - 1) =~= trades.take(k).subrange(1, k));
        assert(tail.skip(k - 1) =~= trades.skip(k));
    }
}

/// Lots are conserved on the incoming side: the lots traded and the lots
/// left of the incoming order are together the lots it came with, and a
/// trade never moves more than was left of the incoming order when it
/// happened.
pub proof fn lemma_incoming_quantity_conserved(levels: Levels, incoming: Order)
    ensures
        traded_quantity(match_orders(levels, incoming).trades) + match_orders(
            levels,
            incoming,
        ).remaining == incoming.quantity,
        forall|k: int|
            0 <= k < match_orders(levels, incoming).trades.len() ==> traded_quantity(
                match_orders(levels, incoming).trades.take(k),
            ) + (#[trigger] match_orders(levels, incoming).trades[k]).quantity
                <= incoming.quantity,
    decreases incoming.quantity,
{
    let matched = match_orders(levels, incoming);
    if can_match(levels, incoming) {
        let price = best_price(levels, incoming.side.opposite());
        let fill = smaller(incoming.quantity, levels[price][0].quantity);
        let later = match_orders(
            fill_front(levels, price, fill),
            with_quantity(incoming, (incoming.quantity - fill) as u64),
        );
        lemma_incoming_quantity_conserved(
            fill_front(levels, price, fill),
            with_quantity(incoming, (incoming.quantity - fill) as u64),
        );
        assert(matched.trades.subrange(1, matched.trades.len() as int) =~= later.trades);
    }
    assert forall|k: int| 0 <= k < matched.trades.len() implies traded_quantity(
        matched.trades.take(k),
    ) + (#[trigger] matched.trades[k]).quantity <= incoming.quantity by {
        lemma_traded_quantity_splits(matched.trades, k);
        let others = matched.trades.skip(k);
        assert(others[0] == matched.trades[k]);
    }
}

/// Every trade of a matching names the incoming order and an order that
/// rested on the opposite side, is made at the price of that order's level,
/// which the incoming order was willing to trade at, and moves no more than
/// the resting order held.
pub proof fn lemma_trades_follow_the_book(levels: Levels, incoming: Order, next_id: u64)
    requires
        well_formed_side(levels, incoming.side.opposite(), next_id),
    ensures
        forall|k: int|
            0 <= k < match_orders(levels, incoming).trades.len() ==> {
                let trade = #[trigger] match_orders(levels, incoming).trades[k];
                &&& incoming_id(trade, incoming.side) == incoming.id
                &&& crosses(incoming, trade.price)
                &&& trade_hits(levels, trade, incoming.side)
            },
    decreases incoming.quantity,
{
    let matched = match_orders(levels, incoming);
    if can_match(levels, incoming) {
        let side = incoming.side.opposite();
        let price = best_price(levels, side);
        assert(is_best(levels, side, price));
        let resting = levels[price][0];
        let fill = smaller(incoming.quantity, resting.quantity);
        let levels_after = fill_front(levels, price, fill);
        let incoming_after = with_quantity(incoming, (incoming.quantity - fill) as u64);
        let later = match_orders(levels_after, incoming_after);
        lemma_fill_front_well_formed(levels, side, next_id, price, fill);
        lemma_trades_follow_the_book(levels_after, incoming_after, next_id);
        assert(matched.trades == seq![trade_between(incoming, resting, price, fill)]
            + later.trades);
        assert forall|k: int| 0 <= k < matched.trades.len() implies {
            let trade = #[trigger] matched.trades[k];
            &&& incoming_id(trade, incoming.side) == incoming.id
            &&& crosses(incoming, trade.price)
            &&& trade_hits(levels, trade, incoming.side)
        } by {
            let trade = matched.trades[k];
            if k == 0 {
                assert(trade == trade_between(incoming, resting, price, fill));
                assert(trade_takes_from(trade, levels[price][0], incoming.side));
                assert(trade_hits(levels, trade, incoming.side));
            } else {
                assert(trade == later.trades[k - 1]);
                assert(incoming_id(trade, incoming_after.side) == incoming_after.id);
                assert(crosses(incoming_after, trade.price));
                assert(trade_hits(levels_after, trade, incoming.side));
                lemma_hit_after_fill(levels, price, fill, trade, incoming.side);
            }
        }
    }
}

/// A trade against an order that is left after a fill is a trade against
/// that order as it rested before the fill.
proof fn lemma_hit_after_fill(
    levels: Levels,
    price: i64,
    fill: u64,
    trade: Trade,
    incoming_side: Side,
)
    requires
        levels.contains_key(price),
        levels[price].len() > 0,
        fill <= levels[price][0].quantity,
        trade_hits(fill_front(levels, price, fill), trade, incoming_side),
    ensures
        trade_hits(levels, trade, incoming_side),
{
    let after = fill_front(levels, price, fill);
    let i = choose|i: int|
        0 <= i < after[trade.price].len() && trade_takes_from(
            trade,
            #[trigger] after[trade.price][i],
            incoming_side,
        );
    if trade.price == price {
        if fill < levels[price][0].quantity {
            assert(trade_takes_from(trade, levels[price][i], incoming_side));
        } else {
            assert(trade_takes_from(trade, levels[price][i + 1], incoming_side));
        }
    } else {
        assert(trade_takes_from(trade, levels[trade.price][i], incoming_side));
    }
}

/// What is left of what is left of a queue is left of the queue.
proof fn lemma_rest_of_queue_chains(last: Seq<Order>, middle: Seq<Order>, first: Seq<Order>)
    requires
        is_rest_of_queue(last, middle),
        is_rest_of_queue(middle, first),
    ensures
        is_rest_of_queue(last, first),
{
    let gone_late = middle.len() - last.len();
    let gone_early = first.len() - middle.len();
    assert forall|i: int| 0 < i < last.len() implies #[trigger] last[i] == first[gone_early
        + gone_late + i] by {
        assert(last[i] == middle[gone_late + i]);
        assert(middle[gone_late + i] == first[gone_early + (gone_late + i)]);
    }
    if last.len() > 0 {
        if gone_late > 0 {
            assert(middle[gone_late] == first[gone_early + gone_late]);
        }
    }
}

/// A fill leaves of each queue what matching can leave of it.
proof fn lemma_fill_front_keeps_order(
    levels: Levels,
    side: Side,
    next_id: u64,
    price: i64,
    fill: u64,
    at: i64,
)
    requires
        well_formed_side(levels, side, next_id),
        levels.contains_key(price),
        fill <= levels[price][0].quantity,
    ensures
        is_rest_of_queue(queue_at(fill_front(levels, price, fill), at), queue_at(levels, at)),
        at != price ==> queue_at(fill_front(levels, price, fill), at) == queue_at(levels, at),
{
    let queue = levels[price];
    assert(well_formed_level(queue, side, price, next_id));
    if levels.contains_key(at) {
        let before = levels[at];
        assert(well_formed_level(before, side, at, next_id));
        assert(rests_at(before[0], side, at, next_id));
        if at == price && fill >= queue[0].quantity && queue.len() > 1 {
            assert(rests_at(queue[1], side, price, next_id));
        }
    }
}

/// Within a level time decides: matching takes from each queue its oldest
/// orders first. What it leaves of a queue are the later arrivals in their
/// old order, and only the order now at the front may be partly filled, so a
/// partly filled order keeps its place. Matching opens no level.
pub proof fn lemma_queues_keep_their_order(
    levels: Levels,
    incoming: Order,
    next_id: u64,
    price: i64,
)
    requires
        well_formed_side(levels, incoming.side.opposite(), next_id),
    ensures
        is_rest_of_queue(
            queue_at(match_orders(levels, incoming).levels, price),
            queue_at(levels, price),
        ),
        match_orders(levels, incoming).levels.contains_key(price) ==> levels.contains_key(price),
    decreases incoming.quantity,
{
    let side = incoming.side.opposite();
    if can_match(levels, incoming) {
        let best = best_price(levels, side);
        assert(is_best(levels, side, best));
        let fill = smaller(incoming.quantity, levels[best][0].quantity);
        let levels_after = fill_front(levels, best, fill);
        let incoming_after = with_quantity(incoming, (incoming.quantity - fill) as u64);
        lemma_fill_front_well_formed(levels, side, next_id, best, fill);
        lemma_fill_front_keeps_order(levels, side, next_id, best, fill, price);
        lemma_queues_keep_their_order(levels_after, incoming_after, next_id, price);
        lemma_rest_of_queue_chains(
            queue_at(match_orders(levels, incoming).levels, price),
            queue_at(levels_after, price),
            queue_at(levels, price),
        );
    } else {
        if levels.contains_key(price) {
            assert(well_formed_level(levels[price], side, price, next_id));
            assert(rests_at(levels[price][0], side, price, next_id));
        }
    }
}

/// Between levels price decides: matching takes from a level only when
/// every level with a better price is used up.
pub proof fn lemma_better_levels_go_first(
    levels: Levels,
    incoming: Order,
    next_id: u64,
    price: i64,
    better: i64,
)
    requires
        well_formed_side(levels, incoming.side.opposite(), next_id),
        levels.contains_key(price),
        levels.contains_key(better),
        better != price,
        no_worse(incoming.side.opposite(), better, price),
        queue_at(match_orders(levels, incoming).levels, price) != queue_at(levels, price),
    ensures
        !match_orders(levels, incoming).levels.contains_key(better),
    decreases incoming.quantity,
{
    let side = incoming.side.opposite();
    if can_match(levels, incoming) {
        let best = best_price(levels, side);
        assert(is_best(levels, side, best));
        let fill = smaller(incoming.quantity, levels[best][0].quantity);
        let levels_after = fill_front(levels, best, fill);
        let incoming_after = with_quantity(incoming, (incoming.quantity - fill) as u64);
        lemma_fill_front_well_formed(levels, side, next_id, best, fill);
        assert(no_worse(side, best, better));
        assert(price != best);
        lemma_fill_front_keeps_order(levels, side, next_id, best, fill, price);
        if levels_after.contains_key(better) {
            lemma_better_levels_go_first(levels_after, incoming_after, next_id, price, better);
        } else {
            lemma_queues_keep_their_order(levels_after, incoming_after, next_id, better);
        }
    }
}

/// Trades happen in the order of priority: one at a better price before one
/// at a worse price, and of two at the same price the one against the order
/// that arrived first.
pub proof fn lemma_trades_in_priority_order(
    levels: Levels,
    incoming: Order,
    next_id: u64,
    i: int,
    j: int,
)
    requires
        well_formed_side(levels, incoming.side.opposite(), next_id),
        0 <= i < j < match_orders(levels, incoming).trades.len(),
    ensures
        ({
            let earlier = match_orders(levels, incoming).trades[i];
            let later = match_orders(levels, incoming).trades[j];
            &&& no_worse(incoming.side.opposite(), earlier.price, later.price)
            &&& earlier.price == later.price ==> resting_id(earlier, incoming.side) < resting_id(
                later,
                incoming.side,
            )
        }),
    decreases incoming.quantity,
{
    let side = incoming.side.opposite();
    let matched = match_orders(levels, incoming);
    assert(can_match(levels, incoming));
    let best = best_price(levels, side);
    assert(is_best(levels, side, best));
    let resting = levels[best][0];
    let fill = smaller(incoming.quantity, resting.quantity);
    let levels_after = fill_front(levels, best, fill);
    let incoming_after = with_quantity(incoming, (incoming.quantity - fill) as u64);
    let rest_of_it = match_orders(levels_after, incoming_after);
    lemma_fill_front_well_formed(levels, side, next_id, best, fill);
    assert(matched.trades == seq![trade_between(incoming, resting, best, fill)]
        + rest_of_it.trades);
    assert(matched.trades[j] == rest_of_it.trades[j - 1]);
    if i == 0 {
        let first = matched.trades[0];
        let second = matched.trades[j];
        lemma_trades_follow_the_book(levels_after, incoming_after, next_id);
        assert(trade_hits(levels_after, second, incoming.side));
        lemma_hit_after_fill(levels, best, fill, second, incoming.side);
        assert(levels.contains_key(second.price));
        if second.price == best {
            let at = choose|at: int|
                0 <= at < levels_after[best].len() && trade_takes_from(
                    second,
                    #[trigger] levels_after[best][at],
                    incoming.side,
                );
            assert(well_formed_level(levels[best], side, best, next_id));
            if fill < resting.quantity {
                assert(incoming_after.quantity == 0);
                assert(!can_match(levels_after, incoming_after));
            } else {
                assert(levels_after[best][at] == levels[best][at + 1]);
                assert(levels[best][0].id < levels[best][at + 1].id);
            }
        }
    } else {
        assert(matched.trades[i] == rest_of_it.trades[i - 1]);
        lemma_trades_in_priority_order(levels_after, incoming_after, next_id, i - 1, j - 1);
    }
}

/// A side with finitely many levels, and at least one, has a best level.
pub proof fn lemma_side_with_levels_has_best(levels: Levels, side: Side)
    requires
        levels.dom().finite(),
        exists|p: i64| levels.contains_key(p),
    ensures
        has_best(levels, side),
    decreases levels.dom().len(),
{
    let one = choose|p: i64| levels.contains_key(p);
    let others = levels.remove(one);
    if exists|p: i64| others.contains_key(p) {
        lemma_side_with_levels_has_best(others, side);
        let best_other = best_price(others, side);
        assert(is_best(others, side, best_other));
        if no_worse(side, one, best_other) {
            assert forall|p: i64| levels.contains_key(p) implies no_worse(side, one, p) by {
                if p != one {
                    assert(others.contains_key(p));
                    assert(no_worse(side, best_other, p));
                }
            }
            assert(is_best(levels, side, one));
        } else {
            assert forall|p: i64| levels.contains_key(p) implies no_worse(
                side,
                best_other,
                p,
            ) by {
                if p != one {
                    assert(others.contains_key(p));
                }
            }
            assert(is_best(levels, side, best_other));
        }
    } else {
        assert forall|p: i64| levels.contains_key(p) implies no_worse(side, one, p) by {
            if p != one {
                assert(others.contains_key(p));
            }
        }
        assert(is_best(levels, side, one));
    }
}

/// A market order with quantity trades whenever the opposite side holds a
/// level, whatever the price. Its first trade is with the oldest order of
/// the best opposite level, at that level's price, for the smaller of the
/// two quantities.
pub proof fn lemma_market_order_crosses(levels: Levels, incoming: Order, next_id: u64)
    requires
        well_formed_side(levels, incoming.side.opposite(), next_id),
        incoming.order_type == OrderType::Market,
        incoming.quantity > 0,
        exists|p: i64| levels.contains_key(p),
    ensures
        has_best(levels, incoming.side.opposite()),
        match_orders(levels, incoming).trades.len() > 0,
        ({
            let best = best_price(levels, incoming.side.opposite());
            let oldest = levels[best][0];
            match_orders(levels, incoming).trades[0] == trade_between(
                incoming,
                oldest,
                best,
                smaller(incoming.quantity, oldest.quantity),
            )
        }),
{
    let side = incoming.side.opposite();
    lemma_side_with_levels_has_best(levels, side);
    let best = best_price(levels, side);
    assert(is_best(levels, side, best));
    assert(well_formed_level(levels[best], side, best, next_id));
    assert(rests_at(levels[best][0], side, best, next_id));
    assert(can_match(levels, incoming));
}

/// An order that is willing to trade at a price is willing at every better
/// price.
pub proof fn lemma_crosses_better_prices(incoming: Order, price: i64, better: i64)
    requires
        crosses(incoming, price),
        no_worse(incoming.side.opposite(), better, price),
    ensures
        crosses(incoming, better),
{
}

/// Matching goes on as long as it can: it stops only when the incoming order
/// is filled or no level is left at which the order is willing to trade.
pub proof fn lemma_matching_is_exhaustive(levels: Levels, incoming: Order, next_id: u64)
    requires
        well_formed_side(levels, incoming.side.opposite(), next_id),
    ensures
        match_orders(levels, incoming).remaining == 0 || forall|p: i64| #[trigger]
            match_orders(levels, incoming).levels.contains_key(p) ==> !crosses(incoming, p),
    decreases incoming.quantity,
{
    let side = incoming.side.opposite();
    if can_match(levels, incoming) {
        let best = best_price(levels, side);
        assert(is_best(levels, side, best));
        let fill = smaller(incoming.quantity, levels[best][0].quantity);
        let incoming_after = with_quantity(incoming, (incoming.quantity - fill) as u64);
        lemma_fill_front_well_formed(levels, side, next_id, best, fill);
        let later = match_orders(fill_front(levels, best, fill), incoming_after);
        lemma_matching_is_exhaustive(fill_front(levels, best, fill), incoming_after, next_id);
        assert(match_orders(levels, incoming).levels == later.levels);
        assert(match_orders(levels, incoming).remaining == later.remaining);
        if later.remaining != 0 {
            assert forall|p: i64| #[trigger]
                match_orders(levels, incoming).levels.contains_key(p) implies !crosses(
                incoming,
                p,
            ) by {
                assert(later.levels.contains_key(p));
                assert(crosses(incoming_after, p) == crosses(incoming, p));
            }
        }
    } else if incoming.quantity > 0 {
        if exists|p: i64| levels.contains_key(p) {
            lemma_side_with_levels_has_best(levels, side);
            let best = best_price(levels, side);
            assert(is_best(levels, side, best));
            assert(well_formed_level(levels[best], side, best, next_id));
            assert(rests_at(levels[best][0], side, best, next_id));
            assert(!crosses(incoming, best));
            assert forall|p: i64| #[trigger] levels.contains_key(p) implies !crosses(
                incoming,
                p,
            ) by {
                if crosses(incoming, p) {
                    lemma_crosses_better_prices(incoming, p, best);
                }
            }
        }
    }
}

/// A market order goes on trading until it is filled or the opposite side is
/// used up.
pub proof fn lemma_market_order_sweeps(levels: Levels, incoming: Order, next_id: u64)
    requires
        well_formed_side(levels, incoming.side.opposite(), next_id),
        incoming.order_type == OrderType::Market,
    ensures
        match_orders(levels, incoming).remaining == 0 || forall|p: i64|
            !match_orders(levels, incoming).levels.contains_key(p),
{
    lemma_matching_is_exhaustive(levels, incoming, next_id);
    let left = match_orders(levels, incoming).levels;
    if match_orders(levels, incoming).remaining != 0 {
        assert forall|p: i64| !left.contains_key(p) by {
            if left.contains_key(p) {
                assert(crosses(incoming, p));
            }
        }
    }
}

/// A limit order never trades at a price worse than its limit: a buy at or
/// below it, a sell at or above it.
pub proof fn lemma_trades_within_limit(levels: Levels, incoming: Order, next_id: u64, k: int)
    requires
        well_formed_side(levels, incoming.side.opposite(), next_id),
        incoming.order_type == OrderType::Limit,
        0 <= k < match_orders(levels, incoming).trades.len(),
    ensures
        incoming.price is Some,
        incoming.side == Side::Buy ==> match_orders(levels, incoming).trades[k].price
            <= incoming.price->0,
        incoming.side == Side::Sell ==> match_orders(levels, incoming).trades[k].price
            >= incoming.price->0,
{
    lemma_trades_follow_the_book(levels, incoming, next_id);
    assert(crosses(incoming, match_orders(levels, incoming).trades[k].price));
}

/// A submission to a well-formed book leaves a well-formed book. No level
/// without an order exists after it, every resting order has quantity and
/// stands at its own price on its own side, and each queue is in the order
/// of arrival.
pub proof fn lemma_submit_well_formed(book: BookView, order: Order)
    requires
        book.well_formed(),
        book.next_id < u64::MAX,
    ensures
        book.submit(order).book.well_formed(),
{
    let incoming = book.admitted(order);
    let opposite = book.side(order.side.opposite());
    let own = book.side(order.side);
    let matched = match_orders(opposite, incoming);
    let next_id = (book.next_id + 1) as u64;
    lemma_match_well_formed(opposite, incoming, book.next_id);
    lemma_well_formed_later(matched.levels, order.side.opposite(), book.next_id, next_id);
    lemma_rest_well_formed(own, with_quantity(incoming, matched.remaining), next_id);
}

/// Each submission of a sequence moves the next identity on by one.
pub proof fn lemma_submit_all_next_id(book: BookView, orders: Seq<Order>)
    requires
        book.next_id + orders.len() <= u64::MAX,
    ensures
        book.submit_all(orders).next_id == book.next_id + orders.len(),
    decreases orders.len(),
{
    if orders.len() > 0 {
        lemma_submit_all_next_id(book, orders.drop_last());
    }
}

/// Every state that a sequence of submissions leads a well-formed book
/// through is well formed.
pub proof fn lemma_submit_all_well_formed(book: BookView, orders: Seq<Order>)
    requires
        book.well_formed(),
        book.next_id + orders.len() <= u64::MAX,
    ensures
        book.submit_all(orders).well_formed(),
    decreases orders.len(),
{
    if orders.len() > 0 {
        lemma_submit_all_well_formed(book, orders.drop_last());
        lemma_submit_all_next_id(book, orders.drop_last());
        lemma_submit_well_formed(book.submit_all(orders.drop_last()), orders.last());
    }
}

/// A submission uses up exactly one identity, the book's next one: each of
/// its trades names it as the incoming party and an older order as the
/// resting party, and what is left of the order rests under it at the back
/// of the queue at its price.
pub proof fn lemma_submit_assigns_next_id(book: BookView, order: Order)
    requires
        book.well_formed(),
        book.next_id < u64::MAX,
    ensures
        book.submit(order).book.next_id == book.next_id + 1,
        forall|k: int|
            0 <= k < book.submit(order).trades.len() ==> {
                let trade = #[trigger] book.submit(order).trades[k];
                &&& incoming_id(trade, order.side) == book.next_id
                &&& resting_id(trade, order.side) < book.next_id
            },
        ({
            let left = match_orders(
                book.side(order.side.opposite()),
                book.admitted(order),
            ).remaining;
            let queue = queue_at(book.submit(order).book.side(order.side), resting_price(order));
            left > 0 ==> queue.len() > 0 && queue.last() == with_quantity(
                book.admitted(order),
                left,
            )
        }),
{
    let incoming = book.admitted(order);
    let opposite = book.side(order.side.opposite());
    let trades = book.submit(order).trades;
    lemma_trades_follow_the_book(opposite, incoming, book.next_id);
    assert forall|k: int| 0 <= k < trades.len() implies {
        let trade = #[trigger] trades[k];
        &&& incoming_id(trade, order.side) == book.next_id
        &&& resting_id(trade, order.side) < book.next_id
    } by {
        let trade = trades[k];
        assert(trade_hits(opposite, trade, incoming.side));
        let at = choose|at: int|
            0 <= at < opposite[trade.price].len() && trade_takes_from(
                trade,
                #[trigger] opposite[trade.price][at],
                incoming.side,
            );
        assert(well_formed_level(
            opposite[trade.price],
            order.side.opposite(),
            trade.price,
            book.next_id,
        ));
        assert(rests_at(
            opposite[trade.price][at],
            order.side.opposite(),
            trade.price,
            book.next_id,
        ));
    }
}

/// The identities that a sequence of submissions uses are strictly
/// increasing, so none is used twice, whether or not the orders come to rest.
pub proof fn lemma_identities_increase(book: BookView, orders: Seq<Order>, i: int, j: int)
    requires
        book.next_id + orders.len() <= u64::MAX,
        0 <= i < j < orders.len(),
    ensures
        book.submit_all(orders.take(i)).admitted(orders[i]).id < book.submit_all(
            orders.take(j),
        ).admitted(orders[j]).id,
{
    lemma_submit_all_next_id(book, orders.take(i));
    lemma_submit_all_next_id(book, orders.take(j));
}

/// An order at the back of a queue adds its quantity to the queue's.
pub proof fn lemma_queue_quantity_push(queue: Seq<Order>, order: Order)
    ensures
        queue_quantity(queue.push(order)) == queue_quantity(queue) + order.quantity,
    decreases queue.len(),
{
    let longer = queue.push(order);
    let longer_tail = longer.subrange(1, longer.len() as int);
    if queue.len() == 0 {
        assert(longer_tail.len() == 0);
        assert(queue_quantity(longer_tail) == 0);
        assert(queue_quantity(longer) == longer[0].quantity + queue_quantity(longer_tail));
    } else {
        let tail = queue.subrange(1, queue.len() as int);
        lemma_queue_quantity_push(tail, order);
        assert(longer_tail =~= tail.push(order));
        assert(queue_quantity(longer) == longer[0].quantity + queue_quantity(longer_tail));
    }
}

/// The lots on a side are those of any one of its levels and those of the
/// others.
pub proof fn lemma_side_quantity_without(levels: Levels, price: i64)
    requires
        levels.dom().finite(),
        levels.contains_key(price),
    ensures
        side_quantity(levels) == queue_quantity(levels[price]) + side_quantity(
            levels.remove(price),
        ),
    decreases levels.dom().len(),
{
    let chosen = levels.dom().choose();
    assert(levels.dom().contains(price));
    assert(levels.dom().len() > 0);
    assert(levels.dom().contains(chosen));
    if chosen != price {
        let without_chosen = levels.remove(chosen);
        let without_price = levels.remove(price);
        lemma_side_quantity_without(without_chosen, price);
        lemma_side_quantity_without(without_price, chosen);
        assert(without_chosen.remove(price) =~= without_price.remove(chosen));
    }
}

/// The lots on a side after a level was set are those of the new queue and
/// those of the other levels.
pub proof fn lemma_side_quantity_with(levels: Levels, price: i64, queue: Seq<Order>)
    requires
        levels.dom().finite(),
    ensures
        side_quantity(levels.insert(price, queue)) == queue_quantity(queue) + side_quantity(
            levels.remove(price),
        ),
{
    lemma_side_quantity_without(levels.insert(price, queue), price);
    assert(levels.insert(price, queue).remove(price) =~= levels.remove(price));
}

/// A fill takes from the side exactly the lots filled.
pub proof fn lemma_fill_front_quantity(
    levels: Levels,
    side: Side,
    next_id: u64,
    price: i64,
    fill: u64,
)
    requires
        well_formed_side(levels, side, next_id),
        levels.contains_key(price),
        fill <= levels[price][0].quantity,
    ensures
        side_quantity(fill_front(levels, price, fill)) + fill == side_quantity(levels),
{
    let queue = levels[price];
    let tail = queue.subrange(1, queue.len() as int);
    assert(well_formed_level(queue, side, price, next_id));
    lemma_side_quantity_without(levels, price);
    assert(queue_quantity(queue) == queue[0].quantity + queue_quantity(tail));
    if fill < queue[0].quantity {
        let left = queue.update(0, with_quantity(queue[0], (queue[0].quantity - fill) as u64));
        lemma_side_quantity_with(levels, price, left);
        assert(left.subrange(1, left.len() as int) =~= tail);
        assert(queue_quantity(left) == left[0].quantity + queue_quantity(tail));
    } else if queue.len() > 1 {
        lemma_side_quantity_with(levels, price, tail);
    } else {
        assert(tail.len() == 0);
        assert(queue_quantity(tail) == 0);
    }
}

/// Lots are conserved on the resting side: the lots that matching takes
/// from the opposite side are exactly the lots traded.
pub proof fn lemma_resting_quantity_conserved(levels: Levels, incoming: Order, next_id: u64)
    requires
        well_formed_side(levels, incoming.side.opposite(), next_id),
    ensures
        side_quantity(match_orders(levels, incoming).levels) + traded_quantity(
            match_orders(levels, incoming).trades,
        ) == side_quantity(levels),
    decreases incoming.quantity,
{
    let matched = match_orders(levels, incoming);
    if can_match(levels, incoming) {
        let side = incoming.side.opposite();
        let price = best_price(levels, side);
        assert(is_best(levels, side, price));
        let fill = smaller(incoming.quantity, levels[price][0].quantity);
        let levels_after = fill_front(levels, price, fill);
        let incoming_after = with_quantity(incoming, (incoming.quantity - fill) as u64);
        lemma_fill_front_well_formed(levels, side, next_id, price, fill);
        lemma_fill_front_quantity(levels, side, next_id, price, fill);
        lemma_resting_quantity_conserved(levels_after, incoming_after, next_id);
        assert(matched.trades.subrange(1, matched.trades.len() as int) =~= match_orders(
            levels_after,
            incoming_after,
        ).trades);
    }
}

/// The levels that an order crosses make a well-formed side of their own.
proof fn lemma_crossing_levels_well_formed(levels: Levels, incoming: Order, next_id: u64)
    requires
        well_formed_side(levels, incoming.side.opposite(), next_id),
    ensures
        well_formed_side(crossing_levels(levels, incoming), incoming.side.opposite(), next_id),
{
    let crossing = crossing_levels(levels, incoming);
    lemma_len_subset(crossing.dom(), levels.dom());
    assert forall|p: i64| #[trigger] crossing.contains_key(p) implies well_formed_level(
        crossing[p],
        incoming.side.opposite(),
        p,
        next_id,
    ) by {
        assert(levels.contains_key(p));
    }
}

/// An order trades as many lots as it asks for, or all the lots that rest at
/// prices at which it is willing to trade, whichever is less.
pub proof fn lemma_trades_all_it_can(levels: Levels, incoming: Order, next_id: u64)
    requires
        well_formed_side(levels, incoming.side.opposite(), next_id),
    ensures
        traded_quantity(match_orders(levels, incoming).trades) == if incoming.quantity
            <= side_quantity(crossing_levels(levels, incoming)) {
            incoming.quantity as nat
        } else {
            side_quantity(crossing_levels(levels, incoming))
        },
    decreases incoming.quantity,
{
    let side = incoming.side.opposite();
    let matched = match_orders(levels, incoming);
    let crossing = crossing_levels(levels, incoming);
    lemma_crossing_levels_well_formed(levels, incoming, next_id);
    if can_match(levels, incoming) {
        let best = best_price(levels, side);
        assert(is_best(levels, side, best));
        let fill = smaller(incoming.quantity, levels[best][0].quantity);
        let levels_after = fill_front(levels, best, fill);
        let incoming_after = with_quantity(incoming, (incoming.quantity - fill) as u64);
        let later = match_orders(levels_after, incoming_after);
        lemma_fill_front_well_formed(levels, side, next_id, best, fill);
        lemma_trades_all_it_can(levels_after, incoming_after, next_id);
        assert(crossing.contains_key(best));
        assert forall|p: i64| crosses(incoming_after, p) == crosses(incoming, p) by {}
        assert(crossing_levels(levels_after, incoming_after) =~= fill_front(
            crossing,
            best,
            fill,
        ));
        lemma_fill_front_quantity(crossing, side, next_id, best, fill);
        assert(matched.trades.subrange(1, matched.trades.len() as int) =~= later.trades);
    } else if incoming.quantity > 0 {
        lemma_matching_is_exhaustive(levels, incoming, next_id);
        assert forall|p: i64| !crossing.contains_key(p) by {
            if levels.contains_key(p) {
                assert(matched.levels.contains_key(p));
            }
        }
        assert(crossing.dom() =~= Set::empty());
    }
}

/// An order that comes to rest adds its quantity to its side.
pub proof fn lemma_rest_quantity(levels: Levels, order: Order)
    requires
        levels.dom().finite(),
    ensures
        side_quantity(rest(levels, order)) == side_quantity(levels) + order.quantity,
{
    let price = resting_price(order);
    if order.quantity > 0 {
        if levels.contains_key(price) {
            lemma_side_quantity_without(levels, price);
            lemma_side_quantity_with(levels, price, levels[price].push(order));
            lemma_queue_quantity_push(levels[price], order);
        } else {
            lemma_side_quantity_with(levels, price, seq![order]);
            lemma_queue_quantity_push(Seq::empty(), order);
            assert(Seq::<Order>::empty().push(order) =~= seq![order]);
            assert(levels.remove(price) =~= levels);
        }
    }
}

/// Of the lots that an order brings, those that trade leave the book
/// together with as many resting lots, and the others come to rest. So the
/// lots in the book after a submission, and twice the lots traded, are the
/// lots in the book before it and the lots of the order.
pub proof fn lemma_submit_conserves_quantity(book: BookView, order: Order)
    requires
        book.well_formed(),
        book.next_id < u64::MAX,
    ensures
        book.submit(order).book.resting_quantity() + 2 * traded_quantity(
            book.submit(order).trades,
        ) == book.resting_quantity() + order.quantity,
{
    let incoming = book.admitted(order);
    let opposite = book.side(order.side.opposite());
    let own = book.side(order.side);
    let matched = match_orders(opposite, incoming);
    lemma_resting_quantity_conserved(opposite, incoming, book.next_id);
    lemma_incoming_quantity_conserved(opposite, incoming);
    lemma_rest_quantity(own, with_quantity(incoming, matched.remaining));
}

} // verus!
