//! The matching decision for one pair of orders.
//!
//! A bid and an ask cross when the bid's limit price is at least the ask's.
//! A crossing pair trades the smaller of the two remaining quantities, at the
//! ask's limit price.

use crate::order::{Order, Trade};
use vstd::prelude::*;

verus! {

/// What one match does: both orders after the match, and the trade.
#[derive(Debug, PartialEq, Eq)]
pub struct Fill {
    pub buy: Order,
    pub sell: Order,
    pub trade: Trade,
}

/// The bid is willing to pay what the ask demands.
pub open spec fn crosses(bid: Order, ask: Order) -> bool {
    bid.limit_price >= ask.limit_price
}

/// The quantity that a bid and an ask trade: the smaller of what remains of
/// each.
pub open spec fn matched_quantity(bid: Order, ask: Order) -> u64 {
    if bid.remaining_quantity <= ask.remaining_quantity {
        bid.remaining_quantity
    } else {
        ask.remaining_quantity
    }
}

/// The match of a bid with an ask: both give up the matched quantity, and
/// the trade is priced at the ask's limit price.
pub open spec fn fill(bid: Order, ask: Order) -> Fill {
    let quantity = matched_quantity(bid, ask);
    Fill {
        buy: bid.reduced(quantity),
        sell: ask.reduced(quantity),
        trade: Trade {
            buy_order_id: bid.id,
            sell_order_id: ask.id,
            quantity,
            price: ask.limit_price,
        },
    }
}

/// The match of a bid with an ask if they cross, nothing if they do not.
pub open spec fn crossing(bid: Order, ask: Order) -> Option<Fill> {
    if crosses(bid, ask) {
        Some(fill(bid, ask))
    } else {
        None
    }
}

/// Matches a bid with an ask.
///
/// Returns nothing when the bid's limit price is below the ask's. Otherwise
/// returns both orders after the match and the trade between them: the
/// quantity is the smaller remaining quantity, the price is the ask's limit
/// price, and an order of which nothing remains is filled.
pub fn settle(bid: &Order, ask: &Order) -> (outcome: Option<Fill>)
    ensures
        outcome == crossing(*bid, *ask),
{
    if bid.limit_price < ask.limit_price {
        return None;
    }
    let quantity = if bid.remaining_quantity <= ask.remaining_quantity {
        bid.remaining_quantity
    } else {
        ask.remaining_quantity
    };
    let mut buy = bid.clone();
    let mut sell = ask.clone();
    buy.reduce(quantity);
    sell.reduce(quantity);
    Some(
        Fill {
            buy,
            sell,
            trade: Trade {
                buy_order_id: bid.id,
                sell_order_id: ask.id,
                quantity,
                price: ask.limit_price,
            },
        },
    )
}

} // verus!
