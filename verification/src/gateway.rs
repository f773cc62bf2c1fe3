//! What stands between a request and the book: reading a submission that
//! names its side and type in words, and summing up a log of trades.

use vstd::prelude::*;
use crate::engine::types::{Order, OrderType, Side, Trade};

verus! {

/// The side that a word names: `Buy` names the buy side, and every other
/// word the sell side.
pub open spec fn side_named(label: Seq<char>) -> Side {
    if label == "Buy"@ {
        Side::Buy
    } else {
        Side::Sell
    }
}

/// The order type that a word names: `Market` names a market order, and
/// every other word a limit order.
pub open spec fn order_type_named(label: Seq<char>) -> OrderType {
    if label == "Market"@ {
        OrderType::Market
    } else {
        OrderType::Limit
    }
}

/// Whether two texts are the same.
fn same_text(a: &str, b: &str) -> (same: bool)
    ensures
        same == (a@ == b@),
{
    a.to_owned() == b.to_owned()
}

/// Reads the side of a submission. A word that is not `Buy` is read as the
/// sell side.
pub fn parse_side(label: &str) -> (side: Side)
    ensures
        side == side_named(label@),
{
    if same_text(label, "Buy") {
        Side::Buy
    } else {
        Side::Sell
    }
}

/// Reads the order type of a submission. A word that is not `Market` is
/// read as a limit order.
pub fn parse_order_type(label: &str) -> (order_type: OrderType)
    ensures
        order_type == order_type_named(label@),
{
    if same_text(label, "Market") {
        OrderType::Market
    } else {
        OrderType::Limit
    }
}

/// A submission as it arrives: side and type in words, the price in ticks
/// and the quantity in lots.
#[derive(Debug)]
pub struct NewOrder {
    pub side: String,
    pub order_type: String,
    pub price: Option<i64>,
    pub quantity: u64,
}

impl NewOrder {
    /// The order that the submission asks for. Its identity is 0 until the
    /// book gives it one; price and quantity are taken as they came.
    pub fn to_order(&self) -> (order: Order)
        ensures
            order == (Order {
                id: 0,
                side: side_named(self.side@),
                order_type: order_type_named(self.order_type@),
                price: self.price,
                quantity: self.quantity,
            }),
    {
        Order {
            id: 0,
            side: parse_side(self.side.as_str()),
            order_type: parse_order_type(self.order_type.as_str()),
            price: self.price,
            quantity: self.quantity,
        }
    }
}

/// The money that one trade moves: its price times its quantity.
pub open spec fn notional(trade: Trade) -> int {
    trade.price * trade.quantity
}

/// The money that a log of trades moved.
pub open spec fn total_notional(trades: Seq<Trade>) -> int
    decreases trades.len(),
{
    if trades.len() == 0 {
        0
    } else {
        total_notional(trades.drop_last()) + notional(trades.last())
    }
}

/// Whether the money moved by the log, summed trade by trade from the first,
/// can be held with either sign at every step.
pub open spec fn sums_fit(trades: Seq<Trade>) -> bool {
    forall|k: int|
        0 <= k <= trades.len() ==> -i128::MAX <= #[trigger] total_notional(trades.take(k))
            <= i128::MAX
}

/// The summary of a log of trades.
#[derive(Clone, Copy, Debug, PartialEq, Eq, Structural)]
pub struct TradeStats {
    /// How many trades the log holds.
    pub total_trades: usize,
    /// What the buyers paid, as a negative sum.
    pub buy_pnl: i128,
    /// What the sellers received.
    pub sell_pnl: i128,
}

/// Sums up a log of trades from scratch: how many there are, what the
/// sellers received and, negated, what the buyers paid. There is no summary
/// of a log whose running sum leaves what can be held.
pub fn trade_stats(trades: &Vec<Trade>) -> (stats: Option<TradeStats>)
    ensures
        stats is Some <==> sums_fit(trades@),
        stats matches Some(s) ==> {
            &&& s.total_trades == trades@.len()
            &&& s.sell_pnl == total_notional(trades@)
            &&& s.buy_pnl == -total_notional(trades@)
        },
{
    let mut received: i128 = 0;
    let mut i: usize = 0;
    assert(trades@.take(0).len() == 0);
    while i < trades.len()
        invariant
            i <= trades.len(),
            received == total_notional(trades@.take(i as int)),
            forall|k: int|
                0 <= k <= i ==> -i128::MAX <= #[trigger] total_notional(trades@.take(k))
                    <= i128::MAX,
        decreases trades.len() - i,
    {
        let trade = trades[i];
        assert(-0x8000_0000_0000_0000 * 0xffff_ffff_ffff_ffff <= trade.price * trade.quantity
            <= 0x7fff_ffff_ffff_ffff * 0xffff_ffff_ffff_ffff) by (nonlinear_arith)
            requires
                -0x8000_0000_0000_0000 <= trade.price <= 0x7fff_ffff_ffff_ffff,
                0 <= trade.quantity <= 0xffff_ffff_ffff_ffff,
        ;
        let moved: i128 = (trade.price as i128) * (trade.quantity as i128);
        proof {
            let longer = trades@.take(i + 1);
            assert(longer.drop_last() =~= trades@.take(i as int));
            assert(longer.last() == trade);
            assert(total_notional(longer) == received + moved);
        }
        match received.checked_add(moved) {
            Some(sum) => {
                if sum == i128::MIN {
                    return None;
                }
                received = sum;
            },
            None => {
                return None;
            },
        }
        i = i + 1;
    }
    assert(trades@.take(i as int) =~= trades@);
    Some(TradeStats { total_trades: trades.len(), buy_pnl: -received, sell_pnl: received })
}

} // verus!
