//! Matching neither makes nor loses quantity.
//!
//! On each side of the book, what remains of all orders plus what has been
//! traded equals what was submitted.

use crate::invariants::{lemma_best_pair, lemma_step_consistent};
use crate::matching::{crossing, fill};
use crate::model::{BookView, Step};
use crate::order::{Order, Side, Status, Trade};
use crate::store::{
    holds, is_slot, lemma_lookup, lemma_slot_exists, lemma_stored, lookup, sorted_by_id, stored, stored_at,
};
use vstd::prelude::*;

verus! {

/// Which quantity of an order is summed up.
pub enum Quantity {
    Original,
    Remaining,
}

/// What one order adds to the total of a side: its quantity if it is an
/// order of that side, nothing otherwise.
pub open spec fn share(o: Order, side: Side, q: Quantity) -> int {
    if o.side == side {
        match q {
            Quantity::Original => o.original_quantity as int,
            Quantity::Remaining => o.remaining_quantity as int,
        }
    } else {
        0
    }
}

/// The total of one quantity over all orders of a side.
pub open spec fn total(s: Seq<Order>, side: Side, q: Quantity) -> int
    decreases s.len(),
{
    if s.len() == 0 {
        0
    } else {
        total(s.drop_last(), side, q) + share(s.last(), side, q)
    }
}

/// The quantity that the trades moved.
pub open spec fn volume(trades: Seq<Trade>) -> int
    decreases trades.len(),
{
    if trades.len() == 0 {
        0
    } else {
        volume(trades.drop_last()) + trades.last().quantity
    }
}

/// The volume of two runs of trades is the sum of their volumes.
pub proof fn lemma_volume_concat(a: Seq<Trade>, b: Seq<Trade>)
    ensures
        volume(a + b) == volume(a) + volume(b),
    decreases b.len(),
{
    if b.len() == 0 {
        assert(a + b =~= a);
    } else {
        assert((a + b).drop_last() =~= a + b.drop_last());
        lemma_volume_concat(a, b.drop_last());
    }
}

/// Replacing one record changes the total by the difference of the shares.
pub proof fn lemma_total_update(s: Seq<Order>, i: int, o: Order, side: Side, q: Quantity)
    requires
        0 <= i < s.len(),
    ensures
        total(s.update(i, o), side, q) == total(s, side, q) - share(s[i], side, q) + share(o, side, q),
    decreases s.len(),
{
    let t = s.update(i, o);
    if i == s.len() - 1 {
        assert(t.drop_last() =~= s.drop_last());
    } else {
        assert(t.drop_last() =~= s.drop_last().update(i, o));
        lemma_total_update(s.drop_last(), i, o, side, q);
    }
}

/// Adding one record raises the total by its share.
pub proof fn lemma_total_insert(s: Seq<Order>, p: int, o: Order, side: Side, q: Quantity)
    requires
        0 <= p <= s.len(),
    ensures
        total(s.insert(p, o), side, q) == total(s, side, q) + share(o, side, q),
    decreases s.len(),
{
    let t = s.insert(p, o);
    if p == s.len() {
        assert(t.drop_last() =~= s);
    } else {
        assert(t.drop_last() =~= s.drop_last().insert(p, o));
        assert(t.last() == s.last());
        lemma_total_insert(s.drop_last(), p, o, side, q);
    }
}

/// Storing a record changes the total by its share, less the share of the
/// record it replaces.
pub proof fn lemma_total_stored(s: Seq<Order>, o: Order, side: Side, q: Quantity)
    requires
        sorted_by_id(s),
    ensures
        total(stored(s, o), side, q) == total(s, side, q) + share(o, side, q) - match lookup(s, o.id) {
            Some(old) => share(old, side, q),
            None => 0,
        },
{
    if holds(s, o.id) {
        let i = choose|i: int| stored_at(s, o.id, i);
        lemma_total_update(s, i, o, side, q);
    } else {
        lemma_slot_exists(s, o.id);
        let p = choose|p: int| is_slot(s, o.id, p);
        lemma_total_insert(s, p, o, side, q);
    }
}

/// One trade takes its quantity off what remains on each side and leaves
/// the submitted totals alone.
pub proof fn lemma_step_conserves(b: BookView, side: Side)
    requires
        b.consistent(),
    ensures
        match b.step() {
            Step::Traded(next, f) => {
                &&& total(next.records, side, Quantity::Remaining) + f.trade.quantity == total(
                    b.records,
                    side,
                    Quantity::Remaining,
                )
                &&& total(next.records, side, Quantity::Original) == total(b.records, side, Quantity::Original)
            },
            _ => true,
        },
{
    if b.bids.len() > 0 && b.asks.len() > 0 {
        lemma_best_pair(b);
        let bid = lookup(b.records, b.bids[0].id)->0;
        let ask = lookup(b.records, b.asks[0].id)->0;
        if crossing(bid, ask) is Some {
            let f = fill(bid, ask);
            let mid = stored(b.records, f.buy);
            lemma_stored(b.records, f.buy);
            lemma_total_stored(b.records, f.buy, side, Quantity::Remaining);
            lemma_total_stored(b.records, f.buy, side, Quantity::Original);
            lemma_total_stored(mid, f.sell, side, Quantity::Remaining);
            lemma_total_stored(mid, f.sell, side, Quantity::Original);
        }
    }
}

/// A matching pass takes the volume of its trades off what remains on each
/// side and leaves the submitted totals alone.
pub proof fn lemma_pass_conserves(b: BookView, side: Side)
    requires
        b.consistent(),
    ensures
        total(b.match_pass().book.records, side, Quantity::Remaining) + volume(b.match_pass().trades) == total(
            b.records,
            side,
            Quantity::Remaining,
        ),
        total(b.match_pass().book.records, side, Quantity::Original) == total(
            b.records,
            side,
            Quantity::Original,
        ),
    decreases b.bids.len() + b.asks.len(),
{
    lemma_step_consistent(b);
    lemma_step_conserves(b, side);
    match b.step() {
        Step::Traded(next, f) => {
            let trade = f.trade;
            lemma_pass_conserves(next, side);
            lemma_volume_concat(seq![trade], next.match_pass().trades);
            assert(volume(seq![trade]) == trade.quantity) by {
                assert(seq![trade].drop_last() =~= Seq::<Trade>::empty());
                assert(volume(Seq::<Trade>::empty()) == 0);
                assert(seq![trade].last() == trade);
            }
        },
        _ => {},
    }
}

/// Storing and indexing a newly accepted order adds its quantity to what
/// was submitted and to what remains on its side, and nothing on the other
/// side.
pub proof fn lemma_booked_adds(b: BookView, order: Order, side: Side, q: Quantity)
    requires
        b.consistent(),
        b.next_id < u64::MAX,
        order.wf(),
        order.id == b.next_id,
        order.status == Status::Open,
    ensures
        total(b.booked(order).records, side, q) == total(b.records, side, q) + share(order, side, q),
{
    lemma_total_stored(b.records, order, side, q);
    if let Some(old) = lookup(b.records, order.id) {
        assert(b.admits(old));
        lemma_lookup(b.records, order.id);
    }
}

} // verus!
