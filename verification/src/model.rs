//! The mathematical model of the book and of the operations on it.

use crate::gateway::Write;
use crate::index::{distinct_ids, ids_of, ordered, precedes, with_entry, without, Entry};
use crate::matching::{crossing, Fill};
use crate::order::{Order, Side, Status, Trade};
use crate::store::{lookup, sorted_by_id, stored};
use vstd::prelude::*;

verus! {

/// The state of a book: the stored records in ascending order of id, the two
/// side indices best first, and the id that the next accepted order gets.
pub struct BookView {
    pub records: Seq<Order>,
    pub bids: Seq<Entry>,
    pub asks: Seq<Entry>,
    pub next_id: u64,
}

/// What one iteration of a matching pass does.
pub enum Step {
    /// A side is empty or the best bid is priced below the best ask: the
    /// pass ends.
    Rest,
    /// The best entry of a side names an order that has no record: the pass
    /// is given up.
    Missing(u64),
    /// The best bid and the best ask traded: the book after the match, and
    /// the match.
    Traded(BookView, Fill),
}

/// What a whole matching pass does.
pub struct Pass {
    /// The book after the pass.
    pub book: BookView,
    /// The trades of the pass, in the order they were made.
    pub trades: Seq<Trade>,
    /// The changes that the pass made to the book, in the order it made
    /// them.
    pub writes: Seq<Write>,
    /// The order whose missing record ended the pass, if one did.
    pub missing: Option<u64>,
}

/// What a submission does.
pub enum Submitted {
    /// Price or quantity is zero; the book is as before.
    Rejected,
    /// No id is left to give; the book is as before.
    Exhausted,
    /// The order was stored and indexed, and a matching pass ran.
    Accepted { order: Order, pass: Pass },
}

/// The records that the given ids name, in the order of the ids; an id
/// without a record is passed over.
pub open spec fn resolve(records: Seq<Order>, ids: Seq<u64>) -> Seq<Order>
    decreases ids.len(),
{
    if ids.len() == 0 {
        Seq::empty()
    } else {
        let front = resolve(records, ids.drop_last());
        match lookup(records, ids.last()) {
            Some(o) => front.push(o),
            None => front,
        }
    }
}

/// The changes that one match makes: an order of which nothing remains
/// leaves its index, the bid first, and both records are stored again,
/// whether filled or not.
pub open spec fn match_writes(f: Fill) -> Seq<Write> {
    let off_bids = if f.buy.remaining_quantity == 0 {
        seq![Write::IndexRemove { side: Side::Buy, id: f.buy.id }]
    } else {
        Seq::empty()
    };
    let off_asks = if f.sell.remaining_quantity == 0 {
        seq![Write::IndexRemove { side: Side::Sell, id: f.sell.id }]
    } else {
        Seq::empty()
    };
    off_bids + off_asks + seq![Write::Put(f.buy), Write::Put(f.sell)]
}

/// The changes that booking a newly accepted order makes: its record is
/// stored and the order is listed on its side.
pub open spec fn booking_writes(order: Order) -> Seq<Write> {
    seq![
        Write::Put(order),
        Write::IndexInsert { side: order.side, price: order.limit_price, id: order.id },
    ]
}

/// The id that the next accepted order gets once a record of order `id` is
/// stored: an id above every stored one, as far as there is one.
pub open spec fn next_after(next_id: u64, id: u64) -> u64 {
    if id < next_id {
        next_id
    } else if id == u64::MAX {
        u64::MAX
    } else {
        (id + 1) as u64
    }
}

/// No id that is still to be given out has a record. Once every id has been
/// given out there is none left to protect.
pub open spec fn ids_given_out(records: Seq<Order>, next_id: u64) -> bool {
    next_id == u64::MAX || forall|i: int| 0 <= i < records.len() ==> (#[trigger] records[i]).id < next_id
}

/// The entry that an index ranks an order by.
pub open spec fn entry_of(o: Order) -> Entry {
    Entry { price: o.limit_price, id: o.id }
}

/// The entry names an open order of the given side at the entry's price.
pub open spec fn names_open(records: Seq<Order>, side: Side, e: Entry) -> bool {
    lookup(records, e.id) matches Some(o) && o.side == side && o.status == Status::Open && entry_of(o) == e
}

/// Every order is an open order of the given side.
pub open spec fn all_open(side: Side, orders: Seq<Order>) -> bool {
    forall|k: int| 0 <= k < orders.len() ==> (#[trigger] orders[k]).status == Status::Open && orders[k].side == side
}

/// The orders stand in price-time priority: on the buy side by descending
/// price, on the sell side by ascending price, and by ascending id among
/// equal prices.
pub open spec fn in_priority_order(side: Side, orders: Seq<Order>) -> bool {
    forall|i: int, j: int|
        0 <= i < j < orders.len() ==> precedes(side, entry_of(#[trigger] orders[i]), entry_of(#[trigger] orders[j]))
}

impl BookView {
    /// The book before any submission.
    pub open spec fn empty() -> BookView {
        BookView { records: Seq::empty(), bids: Seq::empty(), asks: Seq::empty(), next_id: 1 }
    }

    /// The index of one side.
    pub open spec fn index(self, side: Side) -> Seq<Entry> {
        match side {
            Side::Buy => self.bids,
            Side::Sell => self.asks,
        }
    }

    /// The layout that every operation relies on and keeps: ids start at 1,
    /// records stand in ascending order of id, none of them under an id that
    /// is still to be given out, and each index is in priority order and
    /// without duplicates.
    pub open spec fn wf(self) -> bool {
        &&& self.next_id >= 1
        &&& sorted_by_id(self.records)
        &&& ids_given_out(self.records, self.next_id)
        &&& ordered(Side::Buy, self.bids)
        &&& distinct_ids(self.bids)
        &&& ordered(Side::Sell, self.asks)
        &&& distinct_ids(self.asks)
    }

    /// The record is well formed, carries an id that was given out, and is
    /// listed on its side at its limit price if it is open.
    pub open spec fn admits(self, o: Order) -> bool {
        &&& o.wf()
        &&& o.id < self.next_id
        &&& (o.status == Status::Open ==> self.index(o.side).contains(entry_of(o)))
    }

    /// The invariants of a book that only submissions have changed: every
    /// id given out so far has a record and no other id has one, every
    /// record is well formed, and each index lists exactly the open orders
    /// of its side, at their limit prices.
    pub open spec fn consistent(self) -> bool {
        &&& self.wf()
        &&& forall|id: u64| 1 <= id < self.next_id ==> #[trigger] lookup(self.records, id) is Some
        &&& forall|id: u64| #[trigger] lookup(self.records, id) matches Some(o) ==> self.admits(o)
        &&& forall|k: int| 0 <= k < self.bids.len() ==> names_open(self.records, Side::Buy, #[trigger] self.bids[k])
        &&& forall|k: int| 0 <= k < self.asks.len() ==> names_open(self.records, Side::Sell, #[trigger] self.asks[k])
    }

    /// The book after `o` has been stored. The id of `o` is from then on
    /// taken: the next accepted order gets an id above it.
    pub open spec fn put(self, o: Order) -> BookView {
        BookView { records: stored(self.records, o), next_id: next_after(self.next_id, o.id), ..self }
    }

    /// The book after order `id` has been listed at `price` on `side`.
    pub open spec fn index_insert(self, side: Side, price: u64, id: u64) -> BookView {
        match side {
            Side::Buy => BookView { bids: with_entry(side, self.bids, Entry { price, id }), ..self },
            Side::Sell => BookView { asks: with_entry(side, self.asks, Entry { price, id }), ..self },
        }
    }

    /// The book after order `id` has been taken off the index of `side`.
    pub open spec fn index_remove(self, side: Side, id: u64) -> BookView {
        match side {
            Side::Buy => BookView { bids: without(self.bids, id), ..self },
            Side::Sell => BookView { asks: without(self.asks, id), ..self },
        }
    }

    /// The book after one change.
    pub open spec fn apply(self, w: Write) -> BookView {
        match w {
            Write::Put(o) => self.put(o),
            Write::IndexInsert { side, price, id } => self.index_insert(side, price, id),
            Write::IndexRemove { side, id } => self.index_remove(side, id),
        }
    }

    /// The book after a run of changes, made one after the other.
    pub open spec fn apply_all(self, ws: Seq<Write>) -> BookView
        decreases ws.len(),
    {
        if ws.len() == 0 {
            self
        } else {
            self.apply_all(ws.drop_last()).apply(ws.last())
        }
    }

    /// The ids that the index of `side` lists, best first.
    pub open spec fn index_range(self, side: Side) -> Seq<u64> {
        ids_of(self.index(side))
    }

    /// The records of the orders that the index of `side` lists, best first.
    pub open spec fn listing(self, side: Side) -> Seq<Order> {
        resolve(self.records, self.index_range(side))
    }

    /// The book after the best bid and the best ask have traded: both
    /// records are stored as the match left them, and an order of which
    /// nothing remains leaves the head of its index.
    pub open spec fn settled(self, f: Fill) -> BookView {
        BookView {
            records: stored(stored(self.records, f.buy), f.sell),
            bids: if f.buy.remaining_quantity == 0 {
                self.bids.remove(0)
            } else {
                self.bids
            },
            asks: if f.sell.remaining_quantity == 0 {
                self.asks.remove(0)
            } else {
                self.asks
            },
            next_id: self.next_id,
        }
    }

    /// One iteration of a matching pass.
    pub open spec fn step(self) -> Step {
        if self.bids.len() == 0 || self.asks.len() == 0 {
            Step::Rest
        } else {
            match lookup(self.records, self.bids[0].id) {
                None => Step::Missing(self.bids[0].id),
                Some(bid) => match lookup(self.records, self.asks[0].id) {
                    None => Step::Missing(self.asks[0].id),
                    Some(ask) => match crossing(bid, ask) {
                        None => Step::Rest,
                        Some(f) => Step::Traded(self.settled(f), f),
                    },
                },
            }
        }
    }

    /// A matching pass: iterations until one ends the pass.
    pub open spec fn match_pass(self) -> Pass
        decreases self.bids.len() + self.asks.len(),
    {
        match self.step() {
            Step::Rest => Pass { book: self, trades: Seq::empty(), writes: Seq::empty(), missing: None },
            Step::Missing(id) => Pass {
                book: self,
                trades: Seq::empty(),
                writes: Seq::empty(),
                missing: Some(id),
            },
            Step::Traded(next, f) => {
                let rest = next.match_pass();
                Pass {
                    book: rest.book,
                    trades: seq![f.trade] + rest.trades,
                    writes: match_writes(f) + rest.writes,
                    missing: rest.missing,
                }
            },
        }
    }

    /// The book after an accepted order has been stored and indexed, before
    /// the matching pass.
    pub open spec fn booked(self, order: Order) -> BookView {
        self.put(order).index_insert(order.side, order.limit_price, order.id)
    }

    /// A submission: validation, then id, record and index entry, then one
    /// matching pass.
    pub open spec fn submit(self, owner: String, side: Side, limit_price: u64, quantity: u64) -> Submitted {
        if limit_price == 0 || quantity == 0 {
            Submitted::Rejected
        } else if self.next_id == u64::MAX {
            Submitted::Exhausted
        } else {
            let order = Order::opened(self.next_id, owner, side, limit_price, quantity);
            Submitted::Accepted { order, pass: self.booked(order).match_pass() }
        }
    }
}

} // verus!
