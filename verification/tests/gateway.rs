use matching_engine::engine::types::{Order, OrderType, Side, Trade};
use matching_engine::gateway::{parse_order_type, parse_side, trade_stats, NewOrder, TradeStats};

fn trade(price: i64, quantity: u64) -> Trade {
    Trade { buy_order_id: 2, sell_order_id: 1, price, quantity }
}

#[test]
fn buy_is_read_as_buy() {
    assert_eq!(parse_side("Buy"), Side::Buy);
}

#[test]
fn any_other_side_is_read_as_sell() {
    assert_eq!(parse_side("Sell"), Side::Sell);
    assert_eq!(parse_side("buy"), Side::Sell);
    assert_eq!(parse_side("BUY"), Side::Sell);
    assert_eq!(parse_side("Buy "), Side::Sell);
    assert_eq!(parse_side(""), Side::Sell);
    assert_eq!(parse_side("Hold"), Side::Sell);
}

#[test]
fn market_is_read_as_market() {
    assert_eq!(parse_order_type("Market"), OrderType::Market);
}

#[test]
fn any_other_type_is_read_as_limit() {
    assert_eq!(parse_order_type("Limit"), OrderType::Limit);
    assert_eq!(parse_order_type("market"), OrderType::Limit);
    assert_eq!(parse_order_type(""), OrderType::Limit);
    assert_eq!(parse_order_type("Stop"), OrderType::Limit);
}

#[test]
fn submission_becomes_an_order_without_identity() {
    let request = NewOrder {
        side: String::from("Buy"),
        order_type: String::from("Limit"),
        price: Some(1_015_000),
        quantity: 30_000,
    };
    assert_eq!(
        request.to_order(),
        Order {
            id: 0,
            side: Side::Buy,
            order_type: OrderType::Limit,
            price: Some(1_015_000),
            quantity: 30_000,
        }
    );
}

#[test]
fn submission_with_unknown_words_is_a_sell_limit() {
    let request = NewOrder {
        side: String::from("sideways"),
        order_type: String::from("iceberg"),
        price: None,
        quantity: 1,
    };
    assert_eq!(
        request.to_order(),
        Order { id: 0, side: Side::Sell, order_type: OrderType::Limit, price: None, quantity: 1 }
    );
}

#[test]
fn market_submission_keeps_the_price_it_came_with() {
    let request = NewOrder {
        side: String::from("Sell"),
        order_type: String::from("Market"),
        price: Some(7),
        quantity: 2,
    };
    assert_eq!(
        request.to_order(),
        Order { id: 0, side: Side::Sell, order_type: OrderType::Market, price: Some(7), quantity: 2 }
    );
}

#[test]
fn stats_of_two_trades_at_101() {
    let log = vec![trade(101, 3), trade(101, 2)];
    assert_eq!(
        trade_stats(&log),
        Some(TradeStats { total_trades: 2, buy_pnl: -505, sell_pnl: 505 })
    );
}

#[test]
fn stats_of_an_empty_log_are_zero() {
    assert_eq!(
        trade_stats(&Vec::new()),
        Some(TradeStats { total_trades: 0, buy_pnl: 0, sell_pnl: 0 })
    );
}

#[test]
fn stats_follow_the_sign_of_the_price() {
    let log = vec![trade(-4, 5), trade(3, 2)];
    assert_eq!(
        trade_stats(&log),
        Some(TradeStats { total_trades: 2, buy_pnl: 14, sell_pnl: -14 })
    );
}

#[test]
fn stats_hold_the_largest_single_trade() {
    let log = vec![trade(i64::MAX, u64::MAX)];
    let expected = (i64::MAX as i128) * (u64::MAX as i128);
    assert_eq!(
        trade_stats(&log),
        Some(TradeStats { total_trades: 1, buy_pnl: -expected, sell_pnl: expected })
    );
}

#[test]
fn stats_give_up_when_the_sum_cannot_be_held() {
    let log = vec![trade(i64::MAX, u64::MAX), trade(i64::MAX, u64::MAX), trade(i64::MAX, u64::MAX)];
    assert_eq!(trade_stats(&log), None);
}

#[test]
fn stats_give_up_when_a_running_sum_cannot_be_held() {
    let log = vec![
        trade(i64::MIN, u64::MAX),
        trade(i64::MIN, u64::MAX),
        trade(i64::MAX, u64::MAX),
        trade(i64::MAX, u64::MAX),
    ];
    assert_eq!(trade_stats(&log), None);
}
