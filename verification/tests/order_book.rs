use std::collections::VecDeque;

use matching_engine::engine::order_book::OrderBook;
use matching_engine::engine::types::{Order, OrderType, Side, Trade};

fn limit(side: Side, price: i64, quantity: u64) -> Order {
    Order { id: 0, side, order_type: OrderType::Limit, price: Some(price), quantity }
}

fn market(side: Side, quantity: u64) -> Order {
    Order { id: 0, side, order_type: OrderType::Market, price: None, quantity }
}

fn queue(orders: Vec<Order>) -> VecDeque<Order> {
    orders.into_iter().collect()
}

fn resting_lots(book: &OrderBook) -> u64 {
    let bids: u64 = book.buy_orders.values().flatten().map(|o| o.quantity).sum();
    let asks: u64 = book.sell_orders.values().flatten().map(|o| o.quantity).sum();
    bids + asks
}

fn traded_lots(trades: &[Trade]) -> u64 {
    trades.iter().map(|t| t.quantity).sum()
}

fn no_level_is_empty(book: &OrderBook) -> bool {
    book.buy_orders.values().all(|q| !q.is_empty())
        && book.sell_orders.values().all(|q| !q.is_empty())
}

#[test]
fn new_book_is_empty_and_starts_at_one() {
    let book = OrderBook::new();
    assert!(book.buy_orders.is_empty());
    assert!(book.sell_orders.is_empty());
    assert_eq!(book.next_order_id, 1);
}

#[test]
fn sell_limit_on_empty_book_rests() {
    let mut book = OrderBook::new();
    let trades = book.add_order(limit(Side::Sell, 101, 5));
    assert!(trades.is_empty());
    assert!(book.buy_orders.is_empty());
    assert_eq!(book.sell_orders.len(), 1);
    assert_eq!(
        book.sell_orders.get(&101),
        Some(&queue(vec![Order { id: 1, ..limit(Side::Sell, 101, 5) }]))
    );
}

#[test]
fn buy_limit_takes_part_of_resting_sell_at_its_price() {
    let mut book = OrderBook::new();
    book.add_order(limit(Side::Sell, 101, 5));
    let trades = book.add_order(limit(Side::Buy, 102, 3));
    assert_eq!(
        trades,
        vec![Trade { buy_order_id: 2, sell_order_id: 1, price: 101, quantity: 3 }]
    );
    assert_eq!(
        book.sell_orders.get(&101),
        Some(&queue(vec![Order { id: 1, ..limit(Side::Sell, 101, 2) }]))
    );
    assert_eq!(book.sell_orders.len(), 1);
    assert!(book.buy_orders.is_empty());
}

#[test]
fn buy_market_sweeps_and_rests_at_price_zero() {
    let mut book = OrderBook::new();
    book.add_order(limit(Side::Sell, 101, 5));
    book.add_order(limit(Side::Buy, 102, 3));
    let trades = book.add_order(market(Side::Buy, 10));
    assert_eq!(
        trades,
        vec![Trade { buy_order_id: 3, sell_order_id: 1, price: 101, quantity: 2 }]
    );
    assert!(book.sell_orders.is_empty());
    assert_eq!(book.buy_orders.len(), 1);
    assert_eq!(
        book.buy_orders.get(&0),
        Some(&queue(vec![Order { id: 3, ..market(Side::Buy, 8) }]))
    );
}

#[test]
fn older_order_at_a_level_trades_first() {
    let mut book = OrderBook::new();
    book.add_order(limit(Side::Sell, 100, 4));
    book.add_order(limit(Side::Sell, 100, 6));
    book.add_order(limit(Side::Sell, 100, 1));
    let trades = book.add_order(limit(Side::Buy, 100, 7));
    assert_eq!(
        trades,
        vec![
            Trade { buy_order_id: 4, sell_order_id: 1, price: 100, quantity: 4 },
            Trade { buy_order_id: 4, sell_order_id: 2, price: 100, quantity: 3 },
        ]
    );
    assert_eq!(
        book.sell_orders.get(&100),
        Some(&queue(vec![
            Order { id: 2, ..limit(Side::Sell, 100, 3) },
            Order { id: 3, ..limit(Side::Sell, 100, 1) },
        ]))
    );
}

#[test]
fn partly_filled_order_keeps_the_front() {
    let mut book = OrderBook::new();
    book.add_order(limit(Side::Buy, 50, 10));
    book.add_order(limit(Side::Buy, 50, 10));
    book.add_order(limit(Side::Sell, 50, 4));
    book.add_order(limit(Side::Buy, 50, 10));
    let trades = book.add_order(limit(Side::Sell, 50, 8));
    assert_eq!(
        trades,
        vec![
            Trade { buy_order_id: 1, sell_order_id: 5, price: 50, quantity: 6 },
            Trade { buy_order_id: 2, sell_order_id: 5, price: 50, quantity: 2 },
        ]
    );
    assert_eq!(
        book.buy_orders.get(&50),
        Some(&queue(vec![
            Order { id: 2, ..limit(Side::Buy, 50, 8) },
            Order { id: 4, ..limit(Side::Buy, 50, 10) },
        ]))
    );
}

#[test]
fn buy_takes_the_lowest_ask_first() {
    let mut book = OrderBook::new();
    book.add_order(limit(Side::Sell, 103, 1));
    book.add_order(limit(Side::Sell, 101, 1));
    book.add_order(limit(Side::Sell, 102, 1));
    let trades = book.add_order(limit(Side::Buy, 102, 5));
    assert_eq!(
        trades,
        vec![
            Trade { buy_order_id: 4, sell_order_id: 2, price: 101, quantity: 1 },
            Trade { buy_order_id: 4, sell_order_id: 3, price: 102, quantity: 1 },
        ]
    );
    assert_eq!(book.sell_orders.keys().copied().collect::<Vec<i64>>(), vec![103]);
    assert_eq!(
        book.buy_orders.get(&102),
        Some(&queue(vec![Order { id: 4, ..limit(Side::Buy, 102, 3) }]))
    );
}

#[test]
fn sell_takes_the_highest_bid_first() {
    let mut book = OrderBook::new();
    book.add_order(limit(Side::Buy, 97, 2));
    book.add_order(limit(Side::Buy, 99, 2));
    book.add_order(limit(Side::Buy, 98, 2));
    let trades = book.add_order(limit(Side::Sell, 98, 5));
    assert_eq!(
        trades,
        vec![
            Trade { buy_order_id: 2, sell_order_id: 4, price: 99, quantity: 2 },
            Trade { buy_order_id: 3, sell_order_id: 4, price: 98, quantity: 2 },
        ]
    );
    assert_eq!(book.buy_orders.keys().copied().collect::<Vec<i64>>(), vec![97]);
    assert_eq!(
        book.sell_orders.get(&98),
        Some(&queue(vec![Order { id: 4, ..limit(Side::Sell, 98, 1) }]))
    );
}

#[test]
fn limit_that_does_not_cross_rests_without_trades() {
    let mut book = OrderBook::new();
    book.add_order(limit(Side::Sell, 101, 5));
    let trades = book.add_order(limit(Side::Buy, 100, 5));
    assert!(trades.is_empty());
    assert_eq!(
        book.buy_orders.get(&100),
        Some(&queue(vec![Order { id: 2, ..limit(Side::Buy, 100, 5) }]))
    );
    assert_eq!(
        book.sell_orders.get(&101),
        Some(&queue(vec![Order { id: 1, ..limit(Side::Sell, 101, 5) }]))
    );
}

#[test]
fn limit_at_the_level_price_crosses() {
    let mut book = OrderBook::new();
    book.add_order(limit(Side::Buy, 100, 5));
    let trades = book.add_order(limit(Side::Sell, 100, 5));
    assert_eq!(
        trades,
        vec![Trade { buy_order_id: 1, sell_order_id: 2, price: 100, quantity: 5 }]
    );
    assert!(book.buy_orders.is_empty());
    assert!(book.sell_orders.is_empty());
}

#[test]
fn trade_price_is_the_resting_price() {
    let mut book = OrderBook::new();
    book.add_order(limit(Side::Sell, 101, 1));
    book.add_order(limit(Side::Buy, 90, 1));
    let bought = book.add_order(limit(Side::Buy, 150, 1));
    assert_eq!(bought[0].price, 101);
    book.add_order(limit(Side::Buy, 95, 1));
    let sold = book.add_order(limit(Side::Sell, 10, 2));
    assert_eq!(
        sold,
        vec![
            Trade { buy_order_id: 4, sell_order_id: 5, price: 95, quantity: 1 },
            Trade { buy_order_id: 2, sell_order_id: 5, price: 90, quantity: 1 },
        ]
    );
}

#[test]
fn market_order_crosses_at_any_price() {
    let mut book = OrderBook::new();
    book.add_order(limit(Side::Sell, 1_000_000, 2));
    book.add_order(limit(Side::Sell, -7, 2));
    let trades = book.add_order(market(Side::Buy, 3));
    assert_eq!(
        trades,
        vec![
            Trade { buy_order_id: 3, sell_order_id: 2, price: -7, quantity: 2 },
            Trade { buy_order_id: 3, sell_order_id: 1, price: 1_000_000, quantity: 1 },
        ]
    );
    assert!(book.buy_orders.is_empty());
}

#[test]
fn market_sell_on_empty_book_rests_at_price_zero() {
    let mut book = OrderBook::new();
    let trades = book.add_order(market(Side::Sell, 4));
    assert!(trades.is_empty());
    assert_eq!(
        book.sell_orders.get(&0),
        Some(&queue(vec![Order { id: 1, ..market(Side::Sell, 4) }]))
    );
}

#[test]
fn market_order_that_names_a_price_rests_at_price_zero() {
    let mut book = OrderBook::new();
    let order = Order { price: Some(55), ..market(Side::Buy, 4) };
    book.add_order(order);
    assert_eq!(book.buy_orders.keys().copied().collect::<Vec<i64>>(), vec![0]);
    assert_eq!(book.buy_orders.get(&0), Some(&queue(vec![Order { id: 1, ..order }])));
}

#[test]
fn limit_order_without_price_never_crosses_and_rests_at_zero() {
    let mut book = OrderBook::new();
    book.add_order(limit(Side::Sell, -5, 1));
    let order = Order { price: None, ..limit(Side::Buy, 0, 2) };
    let trades = book.add_order(order);
    assert!(trades.is_empty());
    assert_eq!(book.buy_orders.get(&0), Some(&queue(vec![Order { id: 2, ..order }])));
    assert_eq!(book.sell_orders.len(), 1);
}

#[test]
fn order_without_quantity_uses_an_identity_and_leaves_the_book_alone() {
    let mut book = OrderBook::new();
    book.add_order(limit(Side::Sell, 101, 5));
    let trades = book.add_order(limit(Side::Buy, 200, 0));
    assert!(trades.is_empty());
    assert!(book.buy_orders.is_empty());
    assert_eq!(book.next_order_id, 3);
    let next = book.add_order(limit(Side::Buy, 101, 1));
    assert_eq!(next[0].buy_order_id, 3);
}

#[test]
fn identity_given_by_the_caller_is_replaced() {
    let mut book = OrderBook::new();
    let order = Order { id: 77, ..limit(Side::Buy, 10, 1) };
    book.add_order(order);
    assert_eq!(book.buy_orders.get(&10).unwrap()[0].id, 1);
}

#[test]
fn identities_increase_whether_or_not_orders_rest() {
    let mut book = OrderBook::new();
    book.add_order(limit(Side::Sell, 10, 1));
    let filled = book.add_order(limit(Side::Buy, 10, 1));
    let rests = book.add_order(limit(Side::Buy, 9, 1));
    let takes = book.add_order(market(Side::Sell, 1));
    assert_eq!(filled[0].buy_order_id, 2);
    assert!(rests.is_empty());
    assert_eq!(takes[0].sell_order_id, 4);
    assert_eq!(takes[0].buy_order_id, 3);
    assert_eq!(book.next_order_id, 5);
}

#[test]
fn two_books_count_their_identities_apart() {
    let mut first = OrderBook::new();
    let mut second = OrderBook::new();
    first.add_order(limit(Side::Buy, 1, 1));
    first.add_order(limit(Side::Buy, 1, 1));
    second.add_order(limit(Side::Buy, 1, 1));
    assert_eq!(first.next_order_id, 3);
    assert_eq!(second.next_order_id, 2);
    assert_eq!(second.buy_orders.get(&1).unwrap()[0].id, 1);
}

#[test]
fn level_leaves_when_its_last_order_is_filled() {
    let mut book = OrderBook::new();
    book.add_order(limit(Side::Sell, 101, 2));
    book.add_order(limit(Side::Sell, 102, 2));
    book.add_order(limit(Side::Buy, 101, 2));
    assert!(no_level_is_empty(&book));
    assert_eq!(book.sell_orders.keys().copied().collect::<Vec<i64>>(), vec![102]);
    assert!(book.buy_orders.is_empty());
}

#[test]
fn no_level_is_ever_empty_and_lots_are_conserved() {
    let mut book = OrderBook::new();
    let orders = vec![
        limit(Side::Sell, 105, 7),
        limit(Side::Sell, 103, 2),
        limit(Side::Buy, 99, 4),
        limit(Side::Buy, 104, 5),
        market(Side::Sell, 6),
        limit(Side::Sell, 99, 3),
        market(Side::Buy, 20),
        limit(Side::Sell, 0, 9),
        limit(Side::Buy, 103, 1),
    ];
    for order in orders {
        let before = resting_lots(&book);
        let trades = book.add_order(order);
        assert!(no_level_is_empty(&book));
        assert!(traded_lots(&trades) <= order.quantity);
        assert_eq!(resting_lots(&book) + 2 * traded_lots(&trades), before + order.quantity);
        for level in book.buy_orders.values().chain(book.sell_orders.values()) {
            assert!(level.iter().all(|o| o.quantity > 0));
            assert!(level.iter().zip(level.iter().skip(1)).all(|(a, b)| a.id < b.id));
        }
    }
}

#[test]
fn trade_never_moves_more_than_either_party_holds() {
    let mut book = OrderBook::new();
    book.add_order(limit(Side::Sell, 10, 3));
    book.add_order(limit(Side::Sell, 11, 9));
    let trades = book.add_order(limit(Side::Buy, 11, 5));
    assert_eq!(
        trades,
        vec![
            Trade { buy_order_id: 3, sell_order_id: 1, price: 10, quantity: 3 },
            Trade { buy_order_id: 3, sell_order_id: 2, price: 11, quantity: 2 },
        ]
    );
    assert_eq!(book.sell_orders.get(&11).unwrap()[0].quantity, 7);
    assert!(book.buy_orders.is_empty());
}

#[test]
fn opposite_side_is_the_other_one() {
    assert_eq!(Side::Buy.opposite(), Side::Sell);
    assert_eq!(Side::Sell.opposite(), Side::Buy);
}

#[test]
fn book_built_by_submissions_is_well_formed() {
    let mut book = OrderBook::new();
    assert!(book.is_well_formed());
    for order in [
        limit(Side::Sell, 105, 7),
        limit(Side::Buy, 99, 4),
        limit(Side::Buy, 99, 4),
        market(Side::Sell, 6),
        market(Side::Buy, 20),
        limit(Side::Sell, 99, 3),
    ] {
        book.add_order(order);
        assert!(book.is_well_formed());
    }
}

#[test]
fn book_with_an_empty_level_is_not_well_formed() {
    let mut book = OrderBook::new();
    book.add_order(limit(Side::Buy, 10, 1));
    book.buy_orders.insert(11, VecDeque::new());
    assert!(!book.is_well_formed());
}

#[test]
fn book_with_an_order_without_quantity_is_not_well_formed() {
    let mut book = OrderBook::new();
    book.add_order(limit(Side::Sell, 10, 1));
    book.sell_orders.get_mut(&10).unwrap()[0].quantity = 0;
    assert!(!book.is_well_formed());
}

#[test]
fn book_with_an_order_on_the_wrong_side_is_not_well_formed() {
    let mut book = OrderBook::new();
    book.add_order(limit(Side::Sell, 10, 1));
    let level = book.sell_orders.remove(&10).unwrap();
    book.buy_orders.insert(10, level);
    assert!(!book.is_well_formed());
}

#[test]
fn book_with_an_order_at_the_wrong_price_is_not_well_formed() {
    let mut book = OrderBook::new();
    book.add_order(limit(Side::Sell, 10, 1));
    let level = book.sell_orders.remove(&10).unwrap();
    book.sell_orders.insert(12, level);
    assert!(!book.is_well_formed());
    let mut other = OrderBook::new();
    other.add_order(market(Side::Sell, 1));
    assert!(other.is_well_formed());
    let level = other.sell_orders.remove(&0).unwrap();
    other.sell_orders.insert(1, level);
    assert!(!other.is_well_formed());
}

#[test]
fn book_with_an_identity_it_has_not_given_is_not_well_formed() {
    let mut book = OrderBook::new();
    book.add_order(limit(Side::Buy, 10, 1));
    book.next_order_id = 1;
    assert!(!book.is_well_formed());
    book.next_order_id = 2;
    assert!(book.is_well_formed());
}

#[test]
fn book_with_a_queue_out_of_order_is_not_well_formed() {
    let mut book = OrderBook::new();
    book.add_order(limit(Side::Buy, 10, 1));
    book.add_order(limit(Side::Buy, 10, 2));
    assert!(book.is_well_formed());
    book.buy_orders.get_mut(&10).unwrap().swap(0, 1);
    assert!(!book.is_well_formed());
    let first = book.buy_orders.get(&10).unwrap()[0];
    book.buy_orders.get_mut(&10).unwrap()[1] = first;
    assert!(!book.is_well_formed());
}
