//! What a matching pass does to a book, and what it leaves alone.

use crate::index::{listed_at, lists, precedes};
use crate::invariants::{lemma_best_pair, lemma_pass_consistent, lemma_step_consistent, lemma_stored_twice};
use crate::journal::lemma_match_writes;
use crate::matching::{crossing, fill};
use crate::model::{names_open, BookView, Pass, Step};
use crate::order::{Order, Side, Status, Trade};
use crate::store::{lemma_lookup, lemma_stored, lookup, stored};
use vstd::prelude::*;

verus! {

/// Two records of one order: identity, owner, side, limit price and original
/// quantity agree.
pub open spec fn same_order(a: Order, b: Order) -> bool {
    &&& a.id == b.id
    &&& a.owner == b.owner
    &&& a.side == b.side
    &&& a.limit_price == b.limit_price
    &&& a.original_quantity == b.original_quantity
}

/// The record of order `id` in `after` continues the one in `before`: there
/// is one exactly if there was one, it is a record of the same order, no
/// more remains of it than before, its status is as before unless it went
/// from open to filled, and a filled order is left as it was.
pub open spec fn continues(before: Seq<Order>, after: Seq<Order>, id: u64) -> bool {
    match lookup(before, id) {
        Some(was) => {
            &&& lookup(after, id) matches Some(is)
            &&& same_order(was, is)
            &&& is.remaining_quantity <= was.remaining_quantity
            &&& (is.status == was.status || (was.status == Status::Open && is.status == Status::Filled))
            &&& (was.status == Status::Filled ==> is == was)
        },
        None => lookup(after, id) is None,
    }
}

/// A pass ends at once, and changes nothing, where a side lists no order or
/// the best bid's record is priced below the best ask's.
pub proof fn lemma_rest(b: BookView)
    requires
        b.step() is Rest,
    ensures
        b.match_pass() == (Pass { book: b, trades: Seq::empty(), writes: Seq::empty(), missing: None }),
{
}

/// No trade is made, and records and indices are left as they are, whenever
/// the limit price of the best bid is below that of the best ask.
pub proof fn lemma_no_cross_no_trade(b: BookView, bid: Order, ask: Order)
    requires
        b.bids.len() > 0,
        b.asks.len() > 0,
        lookup(b.records, b.bids[0].id) == Some(bid),
        lookup(b.records, b.asks[0].id) == Some(ask),
        bid.limit_price < ask.limit_price,
    ensures
        b.match_pass() == (Pass { book: b, trades: Seq::empty(), writes: Seq::empty(), missing: None }),
{
}

/// One trade keeps every record a record of the same order, and leaves the
/// records of filled orders as they are.
pub proof fn lemma_step_continues(b: BookView, id: u64)
    requires
        b.consistent(),
    ensures
        match b.step() {
            Step::Traded(next, _) => continues(b.records, next.records, id),
            _ => true,
        },
{
    if b.bids.len() > 0 && b.asks.len() > 0 {
        lemma_best_pair(b);
        let bid = lookup(b.records, b.bids[0].id)->0;
        let ask = lookup(b.records, b.asks[0].id)->0;
        if crossing(bid, ask) is Some {
            let f = fill(bid, ask);
            lemma_stored_twice(b.records, f.buy, f.sell);
        }
    }
}

/// A matching pass keeps every record a record of the same order, and
/// leaves the records of filled orders as they are.
pub proof fn lemma_pass_continues(b: BookView, id: u64)
    requires
        b.consistent(),
    ensures
        continues(b.records, b.match_pass().book.records, id),
    decreases b.bids.len() + b.asks.len(),
{
    lemma_step_consistent(b);
    lemma_step_continues(b, id);
    match b.step() {
        Step::Traded(next, _) => {
            lemma_pass_continues(next, id);
        },
        _ => {},
    }
}

/// The record of order `id` in `after` is one of the same order as in
/// `before`: there is one exactly if there was one, and identity, owner,
/// side, limit price and original quantity agree.
pub open spec fn keeps_order(before: Seq<Order>, after: Seq<Order>, id: u64) -> bool {
    match lookup(before, id) {
        Some(was) => lookup(after, id) matches Some(is) && same_order(was, is),
        None => lookup(after, id) is None,
    }
}

/// One trade adds no record, drops none, and leaves every order its
/// identity, owner, side, limit price and original quantity, whatever the
/// book holds.
pub proof fn lemma_step_keeps_orders(b: BookView, id: u64)
    requires
        b.wf(),
    ensures
        match b.step() {
            Step::Traded(next, _) => next.wf() && keeps_order(b.records, next.records, id),
            _ => true,
        },
{
    match b.step() {
        Step::Traded(next, f) => {
            lemma_lookup(b.records, b.bids[0].id);
            lemma_lookup(b.records, b.asks[0].id);
            lemma_match_writes(b, f);
            lemma_stored(b.records, f.buy);
            lemma_stored(stored(b.records, f.buy), f.sell);
        },
        _ => {},
    }
}

/// A matching pass adds no record, drops none, and leaves every order its
/// identity, owner, side, limit price and original quantity, whatever the
/// book holds.
pub proof fn lemma_pass_keeps_orders(b: BookView, id: u64)
    requires
        b.wf(),
    ensures
        keeps_order(b.records, b.match_pass().book.records, id),
    decreases b.bids.len() + b.asks.len(),
{
    lemma_step_keeps_orders(b, id);
    match b.step() {
        Step::Traded(next, _) => {
            lemma_pass_keeps_orders(next, id);
        },
        _ => {},
    }
}

/// The trade is priced at the limit price of its sell order, which the limit
/// price of its buy order covers.
pub open spec fn priced_by_ask(records: Seq<Order>, t: Trade) -> bool {
    &&& lookup(records, t.buy_order_id) matches Some(bid) && bid.limit_price >= t.price
    &&& lookup(records, t.sell_order_id) matches Some(ask) && ask.limit_price == t.price
}

/// Every trade of a matching pass is priced at the limit price of its sell
/// order, never above the limit price of its buy order, whatever the book
/// holds.
pub proof fn lemma_trades_priced_by_ask(b: BookView)
    requires
        b.wf(),
    ensures
        forall|k: int|
            0 <= k < b.match_pass().trades.len() ==> priced_by_ask(b.records, #[trigger] b.match_pass().trades[k]),
    decreases b.bids.len() + b.asks.len(),
{
    match b.step() {
        Step::Traded(next, f) => {
            lemma_lookup(b.records, b.bids[0].id);
            lemma_lookup(b.records, b.asks[0].id);
            lemma_match_writes(b, f);
            lemma_trades_priced_by_ask(next);
            let rest = next.match_pass().trades;
            assert forall|k: int| 0 <= k < b.match_pass().trades.len() implies priced_by_ask(
                b.records,
                #[trigger] b.match_pass().trades[k],
            ) by {
                let t = b.match_pass().trades[k];
                if k == 0 {
                    assert(t == f.trade);
                } else {
                    assert(t == rest[k - 1]);
                    assert(priced_by_ask(next.records, t));
                    lemma_step_keeps_orders(b, t.buy_order_id);
                    lemma_step_keeps_orders(b, t.sell_order_id);
                }
            }
        },
        _ => {},
    }
}

/// The trade moves a positive quantity from a sell order to a buy order.
pub open spec fn between_sides(records: Seq<Order>, t: Trade) -> bool {
    &&& lookup(records, t.buy_order_id) matches Some(bid) && bid.side == Side::Buy
    &&& lookup(records, t.sell_order_id) matches Some(ask) && ask.side == Side::Sell
    &&& t.quantity > 0
}

/// Every trade of a matching pass on a consistent book moves a positive
/// quantity from a sell order to a buy order.
pub proof fn lemma_trades_between_sides(b: BookView)
    requires
        b.consistent(),
    ensures
        forall|k: int|
            0 <= k < b.match_pass().trades.len() ==> between_sides(b.records, #[trigger] b.match_pass().trades[k]),
    decreases b.bids.len() + b.asks.len(),
{
    lemma_step_consistent(b);
    match b.step() {
        Step::Traded(next, f) => {
            lemma_best_pair(b);
            lemma_trades_between_sides(next);
            let rest = next.match_pass().trades;
            assert forall|k: int| 0 <= k < b.match_pass().trades.len() implies between_sides(
                b.records,
                #[trigger] b.match_pass().trades[k],
            ) by {
                let t = b.match_pass().trades[k];
                if k == 0 {
                    assert(t == f.trade);
                } else {
                    assert(t == rest[k - 1]);
                    assert(between_sides(next.records, t));
                    lemma_step_keeps_orders(b, t.buy_order_id);
                    lemma_step_keeps_orders(b, t.sell_order_id);
                }
            }
        },
        _ => {},
    }
}

/// Where the best bid and the best ask of a consistent book cross and the
/// same quantity remains of both, the pass trades that quantity between
/// them first, and at its end both orders are filled, with nothing
/// remaining, and neither is listed.
pub proof fn lemma_equal_quantities_fill_both(b: BookView, bid: Order, ask: Order)
    requires
        b.consistent(),
        b.bids.len() > 0,
        b.asks.len() > 0,
        lookup(b.records, b.bids[0].id) == Some(bid),
        lookup(b.records, b.asks[0].id) == Some(ask),
        bid.limit_price >= ask.limit_price,
        bid.remaining_quantity == ask.remaining_quantity,
    ensures
        b.match_pass().trades.len() > 0,
        b.match_pass().trades[0] == (Trade {
            buy_order_id: bid.id,
            sell_order_id: ask.id,
            quantity: bid.remaining_quantity,
            price: ask.limit_price,
        }),
        lookup(b.match_pass().book.records, bid.id) == Some(
            Order { remaining_quantity: 0, status: Status::Filled, ..bid },
        ),
        lookup(b.match_pass().book.records, ask.id) == Some(
            Order { remaining_quantity: 0, status: Status::Filled, ..ask },
        ),
        !lists(b.match_pass().book.bids, bid.id),
        !lists(b.match_pass().book.asks, ask.id),
{
    lemma_best_pair(b);
    lemma_step_consistent(b);
    let f = fill(bid, ask);
    lemma_stored_twice(b.records, f.buy, f.sell);
    let next = b.settled(f);
    assert(b.step() == Step::Traded(next, f));
    let after = next.match_pass().book;
    assert(b.match_pass().book == after);
    lemma_pass_consistent(next);
    lemma_pass_continues(next, bid.id);
    lemma_pass_continues(next, ask.id);
    assert forall|k: int| !listed_at(after.bids, bid.id, k) by {
        if 0 <= k < after.bids.len() {
            assert(names_open(after.records, Side::Buy, after.bids[k]));
        }
    }
    assert forall|k: int| !listed_at(after.asks, ask.id, k) by {
        if 0 <= k < after.asks.len() {
            assert(names_open(after.records, Side::Sell, after.asks[k]));
        }
    }
}

/// A matching pass adds no record and drops none.
pub proof fn lemma_pass_keeps_records(b: BookView)
    requires
        b.consistent(),
    ensures
        b.match_pass().book.records.len() == b.records.len(),
    decreases b.bids.len() + b.asks.len(),
{
    lemma_step_consistent(b);
    match b.step() {
        Step::Traded(next, f) => {
            lemma_best_pair(b);
            lemma_stored(b.records, f.buy);
            lemma_stored(stored(b.records, f.buy), f.sell);
            lemma_pass_keeps_records(next);
        },
        _ => {},
    }
}

/// A matching pass makes no more trades than the two indices list orders.
pub proof fn lemma_pass_bounded(b: BookView)
    ensures
        b.match_pass().trades.len() <= b.bids.len() + b.asks.len(),
    decreases b.bids.len() + b.asks.len(),
{
    match b.step() {
        Step::Traded(next, _) => {
            lemma_pass_bounded(next);
        },
        _ => {},
    }
}

/// After a matching pass on a consistent book no bid is priced at or above
/// any ask: no crossable pair is left anywhere in the book.
pub proof fn lemma_pass_uncrosses(b: BookView)
    requires
        b.consistent(),
    ensures
        forall|i: int, j: int|
            0 <= i < b.match_pass().book.bids.len() && 0 <= j < b.match_pass().book.asks.len() ==> (
            #[trigger] b.match_pass().book.bids[i]).price < (#[trigger] b.match_pass().book.asks[j]).price,
{
    lemma_pass_consistent(b);
    let after = b.match_pass().book;
    if after.bids.len() > 0 && after.asks.len() > 0 {
        lemma_best_pair(after);
        assert forall|i: int, j: int| 0 <= i < after.bids.len() && 0 <= j < after.asks.len() implies (
        #[trigger] after.bids[i]).price < (#[trigger] after.asks[j]).price by {
            if i > 0 {
                assert(precedes(Side::Buy, after.bids[0], after.bids[i]));
            }
            if j > 0 {
                assert(precedes(Side::Sell, after.asks[0], after.asks[j]));
            }
        }
    }
}

/// A matching pass gives out no id.
pub proof fn lemma_pass_keeps_next_id(b: BookView)
    ensures
        b.match_pass().book.next_id == b.next_id,
    decreases b.bids.len() + b.asks.len(),
{
    match b.step() {
        Step::Traded(next, _) => {
            lemma_pass_keeps_next_id(next);
        },
        _ => {},
    }
}

} // verus!
