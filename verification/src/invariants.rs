//! The book's invariants are kept by every operation of the engine.

use crate::index::{
    distinct_ids, lemma_listed_once, lemma_with_entry, lemma_without, listed_at, lists, ordered, with_entry, Entry,
};
use crate::matching::{crossing, fill, matched_quantity};
use crate::model::{entry_of, ids_given_out, names_open, next_after, resolve, BookView, Step};
use crate::order::{Order, Side, Status};
use crate::store::{lemma_lookup, lemma_stored, lookup, sorted_by_id, stored};
use vstd::prelude::*;

verus! {

/// The best bid and the best ask of a consistent book name two different
/// open orders, which the record store holds.
pub proof fn lemma_best_pair(b: BookView)
    requires
        b.consistent(),
        b.bids.len() > 0,
        b.asks.len() > 0,
    ensures
        names_open(b.records, Side::Buy, b.bids[0]),
        names_open(b.records, Side::Sell, b.asks[0]),
        lookup(b.records, b.bids[0].id) matches Some(bid) && bid.id == b.bids[0].id && bid.wf()
            && bid.remaining_quantity > 0,
        lookup(b.records, b.asks[0].id) matches Some(ask) && ask.id == b.asks[0].id && ask.wf()
            && ask.remaining_quantity > 0,
        b.bids[0].id != b.asks[0].id,
{
    lemma_lookup(b.records, b.bids[0].id);
    lemma_lookup(b.records, b.asks[0].id);
}

/// After the records of two orders have been stored, a lookup finds the new
/// records under their ids and the old records under every other id.
pub proof fn lemma_stored_twice(s: Seq<Order>, x: Order, y: Order)
    requires
        sorted_by_id(s),
        x.id != y.id,
    ensures
        sorted_by_id(stored(stored(s, x), y)),
        lookup(stored(stored(s, x), y), x.id) == Some(x),
        lookup(stored(stored(s, x), y), y.id) == Some(y),
        forall|id: u64| id != x.id && id != y.id ==> lookup(stored(stored(s, x), y), id) == lookup(s, id),
{
    lemma_stored(s, x);
    lemma_stored(stored(s, x), y);
}

/// Storing a record keeps every record under an id that has been given
/// out, once its own id counts as given out.
pub proof fn lemma_stored_ids(records: Seq<Order>, next_id: u64, o: Order)
    requires
        sorted_by_id(records),
        ids_given_out(records, next_id),
    ensures
        ids_given_out(stored(records, o), next_after(next_id, o.id)),
{
    let after = stored(records, o);
    let next = next_after(next_id, o.id);
    lemma_stored(records, o);
    if next != u64::MAX {
        assert forall|i: int| 0 <= i < after.len() implies (#[trigger] after[i]).id < next by {
            assert(after.contains(after[i]));
            if after[i] != o {
                let k = choose|k: int| 0 <= k < records.len() && records[k] == after[i];
                assert(records[k].id < next_id);
            }
        }
    }
}

/// Storing a record again under an id that has a record gives out no id.
pub proof fn lemma_held_id(b: BookView, id: u64)
    requires
        b.wf(),
        lookup(b.records, id) is Some,
    ensures
        next_after(b.next_id, id) == b.next_id,
{
    lemma_lookup(b.records, id);
    let o = lookup(b.records, id)->0;
    let k = choose|k: int| 0 <= k < b.records.len() && b.records[k] == o;
    assert(b.records[k].id == id);
}

/// Taking the head off an index of a consistent side keeps the index
/// ordered and without duplicates, and keeps every entry of another order.
pub proof fn lemma_head_off(side: Side, s: Seq<Entry>)
    requires
        ordered(side, s),
        distinct_ids(s),
        s.len() > 0,
    ensures
        ordered(side, s.remove(0)),
        distinct_ids(s.remove(0)),
        forall|e: Entry| #[trigger] s.remove(0).contains(e) <==> s.contains(e) && e.id != s[0].id,
{
    lemma_listed_once(s, s[0].id, 0);
    lemma_without(side, s, s[0].id);
}

/// One iteration of a matching pass keeps a consistent book consistent, and
/// never misses a record.
pub proof fn lemma_step_consistent(b: BookView)
    requires
        b.consistent(),
    ensures
        match b.step() {
            Step::Rest => true,
            Step::Missing(_) => false,
            Step::Traded(next, f) => next.consistent() && f.trade.quantity > 0,
        },
{
    if b.bids.len() > 0 && b.asks.len() > 0 {
        lemma_best_pair(b);
        let bid = lookup(b.records, b.bids[0].id)->0;
        let ask = lookup(b.records, b.asks[0].id)->0;
        if let Some(f) = crossing(bid, ask) {
            let next = b.settled(f);
            assert(f == fill(bid, ask));
            assert(f.buy.wf() && f.sell.wf());
            assert(f.buy.id == bid.id && f.sell.id == ask.id);
            lemma_stored_twice(b.records, f.buy, f.sell);
            lemma_head_off(Side::Buy, b.bids);
            lemma_head_off(Side::Sell, b.asks);
            lemma_held_id(b, bid.id);
            lemma_held_id(b, ask.id);
            lemma_stored(b.records, f.buy);
            lemma_stored_ids(b.records, b.next_id, f.buy);
            lemma_stored_ids(stored(b.records, f.buy), b.next_id, f.sell);
            assert(next.wf());
            assert forall|id: u64| #[trigger] lookup(next.records, id) is Some implies next.admits(
                lookup(next.records, id)->0,
            ) by {
                let o = lookup(next.records, id)->0;
                lemma_lookup(next.records, id);
                if id == bid.id {
                    assert(o == f.buy);
                    if o.status == Status::Open {
                        assert(next.bids == b.bids);
                        assert(b.bids[0] == entry_of(o));
                    }
                } else if id == ask.id {
                    assert(o == f.sell);
                    if o.status == Status::Open {
                        assert(next.asks == b.asks);
                        assert(b.asks[0] == entry_of(o));
                    }
                } else {
                    assert(lookup(b.records, id) == Some(o));
                    if o.status == Status::Open {
                        let e = entry_of(o);
                        assert(b.index(o.side).contains(e));
                    }
                }
            }
            assert forall|k: int| 0 <= k < next.bids.len() implies names_open(
                next.records,
                Side::Buy,
                #[trigger] next.bids[k],
            ) by {
                let e = next.bids[k];
                assert(next.bids.contains(e));
                assert(b.bids.contains(e));
                let k0 = choose|k0: int| 0 <= k0 < b.bids.len() && b.bids[k0] == e;
                assert(names_open(b.records, Side::Buy, b.bids[k0]));
                if e.id == bid.id {
                    assert(k0 == 0) by {
                        if k0 != 0 {
                            assert(b.bids[0].id != b.bids[k0].id);
                        }
                    }
                }
            }
            assert forall|k: int| 0 <= k < next.asks.len() implies names_open(
                next.records,
                Side::Sell,
                #[trigger] next.asks[k],
            ) by {
                let e = next.asks[k];
                assert(next.asks.contains(e));
                assert(b.asks.contains(e));
                let k0 = choose|k0: int| 0 <= k0 < b.asks.len() && b.asks[k0] == e;
                assert(names_open(b.records, Side::Sell, b.asks[k0]));
                if e.id == ask.id {
                    assert(k0 == 0) by {
                        if k0 != 0 {
                            assert(b.asks[0].id != b.asks[k0].id);
                        }
                    }
                }
            }
            assert forall|id: u64| 1 <= id < next.next_id implies #[trigger] lookup(next.records, id) is Some by {
                if id != bid.id && id != ask.id {
                    assert(lookup(b.records, id) is Some);
                }
            }
            assert(f.trade.quantity == matched_quantity(bid, ask));
        }
    }
}

/// A matching pass keeps a consistent book consistent, misses no record, and
/// leaves no crossable pair behind.
pub proof fn lemma_pass_consistent(b: BookView)
    requires
        b.consistent(),
    ensures
        b.match_pass().book.consistent(),
        b.match_pass().missing is None,
        b.match_pass().book.step() is Rest,
        b.match_pass().book.next_id == b.next_id,
    decreases b.bids.len() + b.asks.len(),
{
    lemma_step_consistent(b);
    match b.step() {
        Step::Traded(next, _) => {
            lemma_pass_consistent(next);
        },
        _ => {},
    }
}

/// Storing and indexing a newly accepted order keeps a consistent book
/// consistent.
pub proof fn lemma_booked_consistent(b: BookView, order: Order)
    requires
        b.consistent(),
        b.next_id < u64::MAX,
        order.wf(),
        order.id == b.next_id,
        order.status == Status::Open,
    ensures
        b.booked(order).consistent(),
        lookup(b.booked(order).records, order.id) == Some(order),
        forall|id: u64| id != order.id ==> lookup(b.booked(order).records, id) == lookup(b.records, id),
{
    let next = b.booked(order);
    let e = Entry { price: order.limit_price, id: order.id };
    lemma_stored(b.records, order);
    lemma_stored_ids(b.records, b.next_id, order);
    lemma_with_entry(Side::Buy, b.bids, e);
    lemma_with_entry(Side::Sell, b.asks, e);
    assert forall|side: Side, x: Entry| b.index(side).contains(x) implies x.id != order.id && names_open(
        b.records,
        side,
        x,
    ) by {
        let k = choose|k: int| 0 <= k < b.index(side).len() && b.index(side)[k] == x;
        match side {
            Side::Buy => {
                assert(names_open(b.records, side, b.bids[k]));
            },
            Side::Sell => {
                assert(names_open(b.records, side, b.asks[k]));
            },
        }
        lemma_lookup(b.records, x.id);
    }
    assert forall|id: u64| 1 <= id < next.next_id implies #[trigger] lookup(next.records, id) is Some by {
        if id != order.id {
            assert(lookup(b.records, id) is Some);
        }
    }
    assert forall|id: u64| #[trigger] lookup(next.records, id) is Some implies next.admits(
        lookup(next.records, id)->0,
    ) by {
        let o = lookup(next.records, id)->0;
        if id != order.id {
            assert(lookup(b.records, id) == Some(o));
            lemma_lookup(b.records, id);
            assert(b.admits(o));
            if o.status == Status::Open {
                let x = entry_of(o);
                assert(b.index(o.side).contains(x));
                assert(next.index(o.side).contains(x));
            }
        } else {
            assert(o == order);
            match order.side {
                Side::Buy => {
                    assert(next.bids == with_entry(Side::Buy, b.bids, e));
                    assert(next.bids.contains(e));
                },
                Side::Sell => {
                    assert(next.asks == with_entry(Side::Sell, b.asks, e));
                    assert(next.asks.contains(e));
                },
            }
        }
    }
    assert forall|k: int| 0 <= k < next.bids.len() implies names_open(
        next.records,
        Side::Buy,
        #[trigger] next.bids[k],
    ) by {
        let x = next.bids[k];
        assert(next.bids.contains(x));
        if order.side == Side::Buy && x == e {
        } else {
            assert(b.index(Side::Buy).contains(x));
        }
    }
    assert forall|k: int| 0 <= k < next.asks.len() implies names_open(
        next.records,
        Side::Sell,
        #[trigger] next.asks[k],
    ) by {
        let x = next.asks[k];
        assert(next.asks.contains(x));
        if order.side == Side::Sell && x == e {
        } else {
            assert(b.index(Side::Sell).contains(x));
        }
    }
}

/// Where every id has a record, resolving the ids gives one record for each
/// id, in the same order.
pub proof fn lemma_resolve_all(records: Seq<Order>, ids: Seq<u64>)
    requires
        forall|k: int| 0 <= k < ids.len() ==> lookup(records, #[trigger] ids[k]) is Some,
    ensures
        resolve(records, ids).len() == ids.len(),
        forall|k: int| 0 <= k < ids.len() ==> lookup(records, ids[k]) == Some(#[trigger] resolve(records, ids)[k]),
    decreases ids.len(),
{
    if ids.len() > 0 {
        let front = ids.drop_last();
        assert forall|k: int| 0 <= k < front.len() implies lookup(records, #[trigger] front[k]) is Some by {
            assert(front[k] == ids[k]);
        }
        lemma_resolve_all(records, front);
        assert(lookup(records, ids.last()) is Some);
        assert forall|k: int| 0 <= k < ids.len() implies lookup(records, ids[k]) == Some(
            #[trigger] resolve(records, ids)[k],
        ) by {
            if k < front.len() {
                assert(front[k] == ids[k]);
                assert(resolve(records, ids)[k] == resolve(records, front)[k]);
            }
        }
    }
}

/// The listing of a side of a consistent book holds, entry by entry, the
/// open order that the index names, at the price the index ranks it by.
pub proof fn lemma_listing(b: BookView, side: Side)
    requires
        b.consistent(),
    ensures
        b.listing(side).len() == b.index(side).len(),
        forall|k: int|
            0 <= k < b.index(side).len() ==> {
                let o = #[trigger] b.listing(side)[k];
                &&& o.id == b.index(side)[k].id
                &&& o.limit_price == b.index(side)[k].price
                &&& o.side == side
                &&& o.status == Status::Open
                &&& lookup(b.records, o.id) == Some(o)
            },
{
    let index = b.index(side);
    let ids = b.index_range(side);
    assert forall|k: int| 0 <= k < ids.len() implies lookup(b.records, #[trigger] ids[k]) is Some by {
        match side {
            Side::Buy => {
                assert(names_open(b.records, side, b.bids[k]));
            },
            Side::Sell => {
                assert(names_open(b.records, side, b.asks[k]));
            },
        }
    }
    lemma_resolve_all(b.records, ids);
    assert forall|k: int| 0 <= k < index.len() implies {
        let o = #[trigger] b.listing(side)[k];
        &&& o.id == index[k].id
        &&& o.limit_price == index[k].price
        &&& o.side == side
        &&& o.status == Status::Open
        &&& lookup(b.records, o.id) == Some(o)
    } by {
        assert(ids[k] == index[k].id);
        match side {
            Side::Buy => {
                assert(names_open(b.records, side, b.bids[k]));
            },
            Side::Sell => {
                assert(names_open(b.records, side, b.asks[k]));
            },
        }
        lemma_lookup(b.records, index[k].id);
    }
}

/// The listing of a side of a consistent book leaves out no open order of
/// that side.
pub proof fn lemma_listing_complete(b: BookView, o: Order)
    requires
        b.consistent(),
        lookup(b.records, o.id) == Some(o),
        o.status == Status::Open,
    ensures
        b.listing(o.side).contains(o),
{
    let index = b.index(o.side);
    assert(b.admits(o));
    let k = choose|k: int| 0 <= k < index.len() && index[k] == entry_of(o);
    lemma_listing(b, o.side);
    let found = b.listing(o.side)[k];
    assert(found.id == o.id);
    assert(found == o);
}

/// In a consistent book an open order is listed on its own side and not on
/// the other, and an order that is not open is listed on neither.
pub proof fn lemma_listed_iff_open(b: BookView, o: Order)
    requires
        b.consistent(),
        lookup(b.records, o.id) == Some(o),
    ensures
        lists(b.index(o.side), o.id) <==> o.status == Status::Open,
        !lists(b.index(o.side.opposite()), o.id),
{
    assert(b.admits(o));
    if o.status == Status::Open {
        let k = choose|k: int| 0 <= k < b.index(o.side).len() && b.index(o.side)[k] == entry_of(o);
        assert(listed_at(b.index(o.side), o.id, k));
    }
    assert forall|side: Side, k: int| listed_at(b.index(side), o.id, k) implies side == o.side && o.status
        == Status::Open by {
        match side {
            Side::Buy => {
                assert(names_open(b.records, side, b.bids[k]));
            },
            Side::Sell => {
                assert(names_open(b.records, side, b.asks[k]));
            },
        }
    }
}

} // verus!
