use matching_engine::engine::order_book::OrderBook;
use matching_engine::engine::types::{Order, OrderType, Side, PRICE_SCALE, QUANTITY_SCALE};
use matching_engine::strategy::simple_bot::{
    RandomTraderBot, LOWEST_PRICE, PRICE_BOUND, QUANTITY_BOUND, SMALLEST_QUANTITY,
};

#[test]
fn ranges_are_round_one_hundred_units() {
    assert_eq!(LOWEST_PRICE, 98 * PRICE_SCALE);
    assert_eq!(PRICE_BOUND, 102 * PRICE_SCALE);
    assert_eq!(SMALLEST_QUANTITY, QUANTITY_SCALE / 2);
    assert_eq!(QUANTITY_BOUND, 2 * QUANTITY_SCALE);
}

#[test]
fn limit_order_of_draws_carries_the_price() {
    assert_eq!(
        RandomTraderBot::order_from_draws(9, true, 1_000_000, 7_500, true),
        Order {
            id: 9,
            side: Side::Buy,
            order_type: OrderType::Limit,
            price: Some(1_000_000),
            quantity: 7_500,
        }
    );
}

#[test]
fn market_order_of_draws_carries_no_price() {
    assert_eq!(
        RandomTraderBot::order_from_draws(3, false, 1_000_000, 7_500, false),
        Order { id: 3, side: Side::Sell, order_type: OrderType::Market, price: None, quantity: 7_500 }
    );
}

#[test]
fn generated_orders_stay_in_range() {
    for id in 0..500u64 {
        let order = RandomTraderBot::generate_order(id);
        assert_eq!(order.id, id);
        assert!(SMALLEST_QUANTITY <= order.quantity && order.quantity < QUANTITY_BOUND);
        match order.order_type {
            OrderType::Limit => {
                let price = order.price.unwrap();
                assert!(LOWEST_PRICE <= price && price < PRICE_BOUND);
            }
            OrderType::Market => assert_eq!(order.price, None),
        }
    }
}

#[test]
fn generated_orders_vary() {
    let orders: Vec<Order> = (0..500u64).map(RandomTraderBot::generate_order).collect();
    assert!(orders.iter().any(|o| o.side == Side::Buy));
    assert!(orders.iter().any(|o| o.side == Side::Sell));
    assert!(orders.iter().any(|o| o.order_type == OrderType::Limit));
    assert!(orders.iter().any(|o| o.order_type == OrderType::Market));
    assert!(orders.iter().any(|o| o.quantity != orders[0].quantity));
    let prices: Vec<i64> = orders.iter().filter_map(|o| o.price).collect();
    assert!(prices.iter().any(|p| *p != prices[0]));
    assert!(prices.iter().any(|p| *p != LOWEST_PRICE));
    assert!(orders.iter().any(|o| o.quantity != SMALLEST_QUANTITY));
}

#[test]
fn generated_orders_feed_a_book() {
    let mut book = OrderBook::new();
    for id in 0..200u64 {
        let order = RandomTraderBot::generate_order(0);
        let trades = book.add_order(order);
        for trade in &trades {
            match order.side {
                Side::Buy => assert_eq!(trade.buy_order_id, id + 1),
                Side::Sell => assert_eq!(trade.sell_order_id, id + 1),
            }
            assert!(trade.quantity > 0 && trade.quantity <= order.quantity);
        }
    }
    assert_eq!(book.next_order_id, 201);
    assert!(book.buy_orders.values().all(|q| !q.is_empty()));
    assert!(book.sell_orders.values().all(|q| !q.is_empty()));
}
