//! The changes that the engine reports are all the changes it makes.
//!
//! Whoever starts from a copy of the book and makes the reported changes,
//! in their order, ends with a copy of the book as the engine left it.

use crate::gateway::Write;
use crate::index::{lemma_listed_once, lemma_with_entry, lemma_without, Entry};
use crate::invariants::{lemma_head_off, lemma_held_id, lemma_stored_ids};
use crate::matching::Fill;
use crate::model::{booking_writes, match_writes, BookView, Step, Submitted};
use crate::order::Side;
use crate::store::{lemma_lookup, lemma_stored, lookup, stored};
use vstd::prelude::*;

verus! {

/// Making one change is making a run of one change.
pub proof fn lemma_apply_one(b: BookView, w: Write)
    ensures
        b.apply_all(seq![w]) == b.apply(w),
{
    assert(seq![w].drop_last() =~= Seq::<Write>::empty());
    assert(b.apply_all(Seq::<Write>::empty()) == b);
    assert(seq![w].last() == w);
}

/// Making two runs of changes one after the other is making the run that
/// joins them.
pub proof fn lemma_apply_concat(b: BookView, x: Seq<Write>, y: Seq<Write>)
    ensures
        b.apply_all(x + y) == b.apply_all(x).apply_all(y),
    decreases y.len(),
{
    if y.len() == 0 {
        assert(x + y =~= x);
    } else {
        assert((x + y).drop_last() =~= x + y.drop_last());
        lemma_apply_concat(b, x, y.drop_last());
    }
}

/// Every change keeps the layout of the book.
pub proof fn lemma_apply_wf(b: BookView, w: Write)
    requires
        b.wf(),
    ensures
        b.apply(w).wf(),
{
    match w {
        Write::Put(o) => {
            lemma_stored(b.records, o);
            lemma_stored_ids(b.records, b.next_id, o);
        },
        Write::IndexInsert { side, price, id } => {
            lemma_with_entry(side, b.index(side), Entry { price, id });
        },
        Write::IndexRemove { side, id } => {
            lemma_without(side, b.index(side), id);
        },
    }
}

/// The changes of one match take the book to the book after the match.
pub proof fn lemma_match_writes(b: BookView, f: Fill)
    requires
        b.wf(),
        b.bids.len() > 0,
        b.asks.len() > 0,
        f.buy.id == b.bids[0].id,
        f.sell.id == b.asks[0].id,
        lookup(b.records, f.buy.id) is Some,
        lookup(b.records, f.sell.id) is Some,
    ensures
        b.apply_all(match_writes(f)) == b.settled(f),
        b.settled(f).wf(),
{
    lemma_held_id(b, f.buy.id);
    lemma_held_id(b, f.sell.id);
    lemma_stored_ids(b.records, b.next_id, f.buy);
    lemma_stored_ids(stored(b.records, f.buy), b.next_id, f.sell);
    let off_bids = if f.buy.remaining_quantity == 0 {
        seq![Write::IndexRemove { side: Side::Buy, id: f.buy.id }]
    } else {
        Seq::empty()
    };
    let off_asks = if f.sell.remaining_quantity == 0 {
        seq![Write::IndexRemove { side: Side::Sell, id: f.sell.id }]
    } else {
        Seq::empty()
    };
    lemma_listed_once(b.bids, f.buy.id, 0);
    lemma_listed_once(b.asks, f.sell.id, 0);
    lemma_head_off(Side::Buy, b.bids);
    lemma_head_off(Side::Sell, b.asks);
    let b1 = b.apply_all(off_bids);
    if f.buy.remaining_quantity == 0 {
        lemma_apply_one(b, Write::IndexRemove { side: Side::Buy, id: f.buy.id });
    }
    assert(b1 == BookView { bids: b.settled(f).bids, ..b });
    let b2 = b1.apply_all(off_asks);
    if f.sell.remaining_quantity == 0 {
        lemma_apply_one(b1, Write::IndexRemove { side: Side::Sell, id: f.sell.id });
    }
    assert(b2 == BookView { asks: b.settled(f).asks, ..b1 });
    let b3 = b2.apply(Write::Put(f.buy));
    let b4 = b3.apply(Write::Put(f.sell));
    lemma_stored(b.records, f.buy);
    lemma_stored(b3.records, f.sell);
    assert(b4 == b.settled(f));
    let puts = seq![Write::Put(f.buy), Write::Put(f.sell)];
    assert(puts =~= seq![Write::Put(f.buy)] + seq![Write::Put(f.sell)]);
    lemma_apply_concat(b2, seq![Write::Put(f.buy)], seq![Write::Put(f.sell)]);
    lemma_apply_one(b2, Write::Put(f.buy));
    lemma_apply_one(b3, Write::Put(f.sell));
    lemma_apply_concat(b, off_bids, off_asks);
    lemma_apply_concat(b, off_bids + off_asks, puts);
}

/// The changes of a matching pass take the book to the book after the pass.
pub proof fn lemma_pass_journal(b: BookView)
    requires
        b.wf(),
    ensures
        b.apply_all(b.match_pass().writes) == b.match_pass().book,
        b.match_pass().book.wf(),
    decreases b.bids.len() + b.asks.len(),
{
    match b.step() {
        Step::Traded(next, f) => {
            lemma_lookup(b.records, b.bids[0].id);
            lemma_lookup(b.records, b.asks[0].id);
            lemma_match_writes(b, f);
            lemma_pass_journal(next);
            lemma_apply_concat(b, match_writes(f), next.match_pass().writes);
        },
        _ => {},
    }
}

/// The changes of an accepted submission take the book to the book after
/// the submission.
pub proof fn lemma_submit_journal(b: BookView, owner: String, side: Side, limit_price: u64, quantity: u64)
    requires
        b.wf(),
    ensures
        match b.submit(owner, side, limit_price, quantity) {
            Submitted::Accepted { order, pass } => b.apply_all(booking_writes(order) + pass.writes) == pass.book,
            _ => true,
        },
{
    match b.submit(owner, side, limit_price, quantity) {
        Submitted::Accepted { order, pass } => {
            let start = b;
            let put = Write::Put(order);
            let list = Write::IndexInsert { side: order.side, price: order.limit_price, id: order.id };
            assert(booking_writes(order) =~= seq![put] + seq![list]);
            lemma_apply_concat(start, seq![put], seq![list]);
            lemma_apply_one(start, put);
            lemma_apply_one(start.apply(put), list);
            assert(start.apply_all(booking_writes(order)) == b.booked(order));
            lemma_apply_wf(start, put);
            lemma_apply_wf(start.apply(put), list);
            lemma_pass_journal(b.booked(order));
            lemma_apply_concat(start, booking_writes(order), pass.writes);
        },
        _ => {},
    }
}

} // verus!
