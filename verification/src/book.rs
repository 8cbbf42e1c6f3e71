//! The order book: record store, side indices and the engine on top of them.

use crate::conservation::{lemma_pass_conserves, total, volume, Quantity};
use crate::gateway::Write;
use crate::index::{lemma_listed_once, SideIndex};
use crate::invariants::{lemma_booked_consistent, lemma_listing, lemma_pass_consistent};
use crate::journal::{lemma_apply_wf, lemma_match_writes, lemma_pass_journal, lemma_submit_journal};
use crate::matching::settle;
use crate::model::{
    all_open, booking_writes, in_priority_order, match_writes, resolve, BookView, Pass, Step, Submitted,
};
use crate::order::{Order, Side, Trade};
use crate::passes::lemma_pass_keeps_next_id;
use crate::store::{lemma_lookup, lookup, RecordStore};
use vstd::prelude::*;

verus! {

/// What a matching pass reports.
#[derive(Debug, PartialEq, Eq)]
pub struct PassReport {
    /// The trades of the pass, in the order they were made.
    pub trades: Vec<Trade>,
    /// The changes that the pass made to the book, in the order it made
    /// them.
    pub writes: Vec<Write>,
    /// The order whose missing record ended the pass, if one did.
    pub missing: Option<u64>,
}

/// What an accepted submission reports.
#[derive(Debug, PartialEq, Eq)]
pub struct Receipt {
    /// The order as it was stored, before the matching pass.
    pub order: Order,
    /// The trades of the matching pass that the submission set off.
    pub trades: Vec<Trade>,
    /// The changes that the submission made to the book, in the order it
    /// made them: those of the booking, then those of the pass.
    pub writes: Vec<Write>,
}

impl Receipt {
    /// The receipt is that of the submission which stored `order` and set
    /// off `pass`.
    pub open spec fn reports(self, order: Order, pass: Pass) -> bool {
        &&& self.order == order
        &&& self.trades@ == pass.trades
        &&& self.writes@ == booking_writes(order) + pass.writes
    }
}

/// Why a submission failed.
#[derive(Debug, PartialEq, Eq)]
pub enum SubmitError {
    /// The limit price or the quantity is zero. Nothing was stored.
    Validation,
    /// Every id has been given out. Nothing was stored.
    Exhausted,
    /// The order was stored and indexed, but the matching pass met an index
    /// entry of order `id`, which has no record, and was given up. The
    /// receipt holds the order and the trades made before that.
    NotFound { id: u64, receipt: Receipt },
}

/// The open orders of both sides, best first.
#[derive(Debug, PartialEq, Eq)]
pub struct Listing {
    pub bids: Vec<Order>,
    pub asks: Vec<Order>,
}

/// A two-sided limit order book for one instrument.
pub struct OrderBook {
    records: RecordStore,
    bids: SideIndex,
    asks: SideIndex,
    next_id: u64,
}

impl OrderBook {
    /// The state of the book.
    pub closed spec fn view(&self) -> BookView {
        BookView { records: self.records@, bids: self.bids@, asks: self.asks@, next_id: self.next_id }
    }

    /// Each index ranks for its own side.
    pub closed spec fn sided(&self) -> bool {
        self.bids.side() == Side::Buy && self.asks.side() == Side::Sell
    }

    /// The layout that every operation relies on and keeps. It holds of a
    /// new book, and so of every book.
    pub open spec fn wf(&self) -> bool {
        self.sided() && self@.wf()
    }

    /// A book with no orders; the first order gets id 1.
    pub fn new() -> (book: OrderBook)
        ensures
            book.wf(),
            book@ == BookView::empty(),
            book@.consistent(),
    {
        OrderBook {
            records: RecordStore::new(),
            bids: SideIndex::new(Side::Buy),
            asks: SideIndex::new(Side::Sell),
            next_id: 1,
        }
    }

    /// The record of order `id`, if the book holds one.
    pub fn get(&self, id: u64) -> (found: Option<&Order>)
        requires
            self.wf(),
        ensures
            match found {
                Some(o) => lookup(self@.records, id) == Some(*o),
                None => lookup(self@.records, id) is None,
            },
    {
        self.records.get(id)
    }

    /// Stores `order` under its id, in place of any earlier record of that
    /// id. The id is from then on taken: the next accepted order gets an id
    /// above it. The indices are left as they are.
    pub fn put(&mut self, order: Order)
        requires
            old(self).wf(),
        ensures
            final(self).wf(),
            final(self)@ == old(self)@.put(order),
    {
        proof {
            lemma_apply_wf(self@, Write::Put(order));
        }
        if order.id >= self.next_id {
            self.next_id = if order.id == u64::MAX {
                u64::MAX
            } else {
                order.id + 1
            };
        }
        self.records.put(order);
    }

    /// Lists order `id` at `price` on `side`, in place of any earlier entry
    /// of that order on that side.
    pub fn index_insert(&mut self, side: Side, price: u64, id: u64)
        requires
            old(self).wf(),
        ensures
            final(self).wf(),
            final(self)@ == old(self)@.index_insert(side, price, id),
    {
        match side {
            Side::Buy => self.bids.insert(price, id),
            Side::Sell => self.asks.insert(price, id),
        }
    }

    /// Takes order `id` off the index of `side`.
    pub fn index_remove(&mut self, side: Side, id: u64)
        requires
            old(self).wf(),
        ensures
            final(self).wf(),
            final(self)@ == old(self)@.index_remove(side, id),
    {
        match side {
            Side::Buy => {
                self.bids.remove(id);
            },
            Side::Sell => {
                self.asks.remove(id);
            },
        }
    }

    /// Makes one change to the book.
    pub fn apply(&mut self, write: Write)
        requires
            old(self).wf(),
        ensures
            final(self).wf(),
            final(self)@ == old(self)@.apply(write),
    {
        match write {
            Write::Put(order) => self.put(order),
            Write::IndexInsert { side, price, id } => self.index_insert(side, price, id),
            Write::IndexRemove { side, id } => self.index_remove(side, id),
        }
    }

    /// The ids that the index of `side` lists, best first.
    pub fn index_range(&self, side: Side) -> (ids: Vec<u64>)
        requires
            self.wf(),
        ensures
            ids@ == self@.index_range(side),
    {
        match side {
            Side::Buy => self.bids.ids(),
            Side::Sell => self.asks.ids(),
        }
    }

    /// Runs one matching pass: while both sides list an order and the best
    /// bid is priced at or above the best ask, the two trade the smaller of
    /// their remaining quantities at the ask's limit price; an order of which
    /// nothing remains is filled and leaves its index. The pass is given up
    /// when a best entry names an order without a record, which cannot
    /// happen to a consistent book. In a consistent book the pass takes the
    /// volume it trades off what remains on each side.
    pub fn match_orders(&mut self) -> (report: PassReport)
        requires
            old(self).wf(),
        ensures
            final(self).wf(),
            final(self)@ == old(self)@.match_pass().book,
            report.trades@ == old(self)@.match_pass().trades,
            report.writes@ == old(self)@.match_pass().writes,
            report.missing == old(self)@.match_pass().missing,
            final(self)@.next_id == old(self)@.next_id,
            final(self)@ == old(self)@.apply_all(report.writes@),
            old(self)@.consistent() ==> {
                &&& final(self)@.consistent()
                &&& report.missing is None
                &&& total(final(self)@.records, Side::Buy, Quantity::Remaining) + volume(report.trades@) == total(
                    old(self)@.records,
                    Side::Buy,
                    Quantity::Remaining,
                )
                &&& total(final(self)@.records, Side::Sell, Quantity::Remaining) + volume(report.trades@) == total(
                    old(self)@.records,
                    Side::Sell,
                    Quantity::Remaining,
                )
            },
    {
        proof {
            lemma_pass_keeps_next_id(old(self)@);
            lemma_pass_journal(old(self)@);
            if old(self)@.consistent() {
                lemma_pass_consistent(old(self)@);
                lemma_pass_conserves(old(self)@, Side::Buy);
                lemma_pass_conserves(old(self)@, Side::Sell);
            }
        }
        let mut trades: Vec<Trade> = Vec::new();
        let mut writes: Vec<Write> = Vec::new();
        let mut missing: Option<u64> = None;
        let mut running = true;
        while running
            invariant
                self.wf(),
                running ==> missing is None && old(self)@.match_pass() == (Pass {
                    book: self@.match_pass().book,
                    trades: trades@ + self@.match_pass().trades,
                    writes: writes@ + self@.match_pass().writes,
                    missing: self@.match_pass().missing,
                }),
                !running ==> old(self)@.match_pass() == (Pass {
                    book: self@,
                    trades: trades@,
                    writes: writes@,
                    missing,
                }),
            decreases self@.bids.len() + self@.asks.len() + (if running { 1int } else { 0int }),
        {
            let ghost before = self@;
            let ghost made = trades@;
            let ghost written = writes@;
            running = false;
            if let Some(best_bid) = self.bids.best() {
                if let Some(best_ask) = self.asks.best() {
                    match self.records.get(best_bid.id) {
                        None => {
                            missing = Some(best_bid.id);
                        },
                        Some(bid) => match self.records.get(best_ask.id) {
                            None => {
                                missing = Some(best_ask.id);
                            },
                            Some(ask) => {
                                if let Some(fill) = settle(bid, ask) {
                                    proof {
                                        lemma_lookup(before.records, best_bid.id);
                                        lemma_lookup(before.records, best_ask.id);
                                        lemma_listed_once(before.bids, best_bid.id, 0);
                                        lemma_listed_once(before.asks, best_ask.id, 0);
                                        lemma_match_writes(before, fill);
                                    }
                                    if fill.buy.remaining_quantity == 0 {
                                        self.bids.remove(best_bid.id);
                                        writes.push(Write::IndexRemove { side: Side::Buy, id: best_bid.id });
                                    }
                                    if fill.sell.remaining_quantity == 0 {
                                        self.asks.remove(best_ask.id);
                                        writes.push(Write::IndexRemove { side: Side::Sell, id: best_ask.id });
                                    }
                                    writes.push(Write::Put(fill.buy.clone()));
                                    writes.push(Write::Put(fill.sell.clone()));
                                    trades.push(fill.trade);
                                    let ghost f = fill;
                                    self.records.put(fill.buy);
                                    self.records.put(fill.sell);
                                    running = true;
                                    proof {
                                        let rest = self@.match_pass();
                                        assert(before.step() == Step::Traded(self@, f));
                                        assert(before.match_pass().trades == seq![f.trade] + rest.trades);
                                        assert(made + (seq![f.trade] + rest.trades) =~= trades@ + rest.trades);
                                        assert(writes@ =~= written + match_writes(f));
                                        assert(written + (match_writes(f) + rest.writes) =~= writes@
                                            + rest.writes);
                                    }
                                }
                            },
                        },
                    }
                }
            }
        }
        PassReport { trades, writes, missing }
    }

    /// Submits an order.
    ///
    /// A limit price or a quantity of zero is refused, and so is any order
    /// once every id has been given out; the book is then left as it was.
    /// Otherwise the order gets the next id, is stored with its whole
    /// quantity remaining, is listed on its side, and one matching pass runs.
    /// The receipt holds the order as it was stored, before the pass, the
    /// trades of the pass, and every change made to the book. Where the pass
    /// was given up for want of a record, the receipt comes inside the
    /// error. That cannot happen to a consistent book.
    pub fn add_order(&mut self, owner: String, side: Side, limit_price: u64, quantity: u64) -> (outcome: Result<
        Receipt,
        SubmitError,
    >)
        requires
            old(self).wf(),
        ensures
            final(self).wf(),
            match old(self)@.submit(owner, side, limit_price, quantity) {
                Submitted::Rejected => {
                    &&& outcome == Err::<Receipt, SubmitError>(SubmitError::Validation)
                    &&& final(self)@ == old(self)@
                },
                Submitted::Exhausted => {
                    &&& outcome == Err::<Receipt, SubmitError>(SubmitError::Exhausted)
                    &&& final(self)@ == old(self)@
                },
                Submitted::Accepted { order, pass } => {
                    &&& order.wf()
                    &&& order.id == old(self)@.next_id
                    &&& final(self)@.next_id == old(self)@.next_id + 1
                    &&& final(self)@ == pass.book
                    &&& final(self)@ == old(self)@.apply_all(booking_writes(order) + pass.writes)
                    &&& match pass.missing {
                        None => outcome matches Ok(receipt) && receipt.reports(order, pass),
                        Some(id) => outcome matches Err(SubmitError::NotFound { id: at, receipt }) && at == id
                            && receipt.reports(order, pass),
                    }
                },
            },
            old(self)@.consistent() ==> final(self)@.consistent() && !(outcome matches Err(
                SubmitError::NotFound { .. },
            )),
    {
        if limit_price == 0 || quantity == 0 {
            return Err(SubmitError::Validation);
        }
        if self.next_id == u64::MAX {
            return Err(SubmitError::Exhausted);
        }
        proof {
            lemma_submit_journal(self@, owner, side, limit_price, quantity);
        }
        let order = Order::open(self.next_id, owner, side, limit_price, quantity);
        let id = order.id;
        self.put(order.clone());
        match side {
            Side::Buy => self.bids.insert(limit_price, id),
            Side::Sell => self.asks.insert(limit_price, id),
        }
        proof {
            assert(self@ == old(self)@.booked(order));
            if old(self)@.consistent() {
                lemma_booked_consistent(old(self)@, order);
            }
        }
        let report = self.match_orders();
        let mut writes: Vec<Write> = Vec::new();
        writes.push(Write::Put(order.clone()));
        writes.push(Write::IndexInsert { side, price: limit_price, id });
        let mut pass_writes = report.writes;
        writes.append(&mut pass_writes);
        proof {
            assert(writes@ =~= booking_writes(order) + old(self)@.booked(order).match_pass().writes);
        }
        let receipt = Receipt { order, trades: report.trades, writes };
        match report.missing {
            None => Ok(receipt),
            Some(id) => Err(SubmitError::NotFound { id, receipt }),
        }
    }

    /// The records that `ids` name, in the order of the ids; an id without
    /// a record is passed over.
    fn resolve_all(&self, ids: &Vec<u64>) -> (orders: Vec<Order>)
        requires
            self.wf(),
        ensures
            orders@ == resolve(self@.records, ids@),
    {
        let mut orders: Vec<Order> = Vec::new();
        let mut i: usize = 0;
        while i < ids.len()
            invariant
                self.wf(),
                i <= ids@.len(),
                orders@ == resolve(self@.records, ids@.take(i as int)),
            decreases ids@.len() - i,
        {
            proof {
                assert(ids@.take(i + 1).drop_last() =~= ids@.take(i as int));
            }
            if let Some(order) = self.records.get(ids[i]) {
                orders.push(order.clone());
            }
            i = i + 1;
        }
        proof {
            assert(ids@.take(i as int) =~= ids@);
        }
        orders
    }

    /// Lists the open orders of both sides, best first: for each side, the
    /// records of the orders that its index lists, in index order. An entry
    /// whose order has no record is passed over.
    pub fn get_orderbook(&self) -> (listing: Listing)
        requires
            self.wf(),
        ensures
            listing.bids@ == self@.listing(Side::Buy),
            listing.asks@ == self@.listing(Side::Sell),
            self@.consistent() ==> {
                &&& listing.bids@.len() == self@.bids.len()
                &&& listing.asks@.len() == self@.asks.len()
                &&& all_open(Side::Buy, listing.bids@)
                &&& all_open(Side::Sell, listing.asks@)
                &&& in_priority_order(Side::Buy, listing.bids@)
                &&& in_priority_order(Side::Sell, listing.asks@)
            },
    {
        proof {
            if self@.consistent() {
                lemma_listing(self@, Side::Buy);
                lemma_listing(self@, Side::Sell);
            }
        }
        let bid_ids = self.bids.ids();
        let ask_ids = self.asks.ids();
        Listing { bids: self.resolve_all(&bid_ids), asks: self.resolve_all(&ask_ids) }
    }
}

} // verus!
