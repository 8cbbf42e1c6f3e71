//! What holds of a book after any sequence of submissions.

use crate::conservation::{lemma_booked_adds, lemma_pass_conserves, lemma_volume_concat, total, volume, Quantity};
use crate::invariants::{lemma_booked_consistent, lemma_pass_consistent};
use crate::model::{BookView, Submitted};
use crate::order::{Side, Status, Trade};
use crate::passes::{lemma_pass_continues, lemma_pass_keeps_records};
use crate::store::{lemma_lookup, lemma_stored, lookup};
use vstd::prelude::*;

verus! {

/// One call of the submission service.
pub struct Request {
    pub owner: String,
    pub side: Side,
    pub limit_price: u64,
    pub quantity: u64,
}

/// A book with its past: all trades made so far, and the number of orders
/// accepted so far.
pub struct History {
    pub book: BookView,
    pub trades: Seq<Trade>,
    pub accepted: nat,
}

/// What a request does to a book.
pub open spec fn outcome(book: BookView, r: Request) -> Submitted {
    book.submit(r.owner, r.side, r.limit_price, r.quantity)
}

/// The history of a new book to which the requests were submitted one after
/// the other. A refused request leaves no trace.
pub open spec fn replay(requests: Seq<Request>) -> History
    decreases requests.len(),
{
    if requests.len() == 0 {
        History { book: BookView::empty(), trades: Seq::empty(), accepted: 0 }
    } else {
        let before = replay(requests.drop_last());
        match outcome(before.book, requests.last()) {
            Submitted::Accepted { order, pass } => History {
                book: pass.book,
                trades: before.trades + pass.trades,
                accepted: before.accepted + 1,
            },
            _ => before,
        }
    }
}

/// A submission keeps a consistent book consistent and misses no record;
/// an accepted order is well formed and gets the next id, and the book then
/// has one more id given out.
pub proof fn lemma_submit_consistent(b: BookView, r: Request)
    requires
        b.consistent(),
    ensures
        match outcome(b, r) {
            Submitted::Accepted { order, pass } => {
                &&& order.wf()
                &&& order.id == b.next_id
                &&& b.booked(order).consistent()
                &&& pass == b.booked(order).match_pass()
                &&& pass.book.consistent()
                &&& pass.missing is None
                &&& pass.book.next_id == b.next_id + 1
            },
            _ => true,
        },
{
    match outcome(b, r) {
        Submitted::Accepted { order, pass } => {
            lemma_booked_consistent(b, order);
            lemma_pass_consistent(b.booked(order));
        },
        _ => {},
    }
}

/// After any sequence of submissions the book is consistent.
pub proof fn lemma_replay_consistent(requests: Seq<Request>)
    ensures
        replay(requests).book.consistent(),
    decreases requests.len(),
{
    if requests.len() == 0 {
        let b = BookView::empty();
        assert forall|id: u64| lookup(b.records, id) is None by {}
    } else {
        lemma_replay_consistent(requests.drop_last());
        lemma_submit_consistent(replay(requests.drop_last()).book, requests.last());
    }
}

/// After any sequence of submissions, on each side of the book, what remains
/// of all orders plus the volume of all trades is what was submitted.
pub proof fn lemma_replay_conserves(requests: Seq<Request>, side: Side)
    ensures
        total(replay(requests).book.records, side, Quantity::Remaining) + volume(replay(requests).trades) == total(
            replay(requests).book.records,
            side,
            Quantity::Original,
        ),
    decreases requests.len(),
{
    if requests.len() > 0 {
        let before = replay(requests.drop_last());
        lemma_replay_conserves(requests.drop_last(), side);
        lemma_replay_consistent(requests.drop_last());
        lemma_submit_consistent(before.book, requests.last());
        match outcome(before.book, requests.last()) {
            Submitted::Accepted { order, pass } => {
                lemma_booked_adds(before.book, order, side, Quantity::Remaining);
                lemma_booked_adds(before.book, order, side, Quantity::Original);
                lemma_pass_conserves(before.book.booked(order), side);
                lemma_volume_concat(before.trades, pass.trades);
            },
            _ => {},
        }
    }
}

/// After any sequence of submissions of which `n` were accepted, the ids
/// given out are 1 to `n`: each of them has a record, no other id has one,
/// there are `n` records, and the next order gets `n + 1`.
pub proof fn lemma_replay_ids(requests: Seq<Request>)
    ensures
        replay(requests).book.next_id == replay(requests).accepted + 1,
        replay(requests).book.records.len() == replay(requests).accepted,
        forall|id: u64|
            #[trigger] lookup(replay(requests).book.records, id) is Some <==> 1 <= id <= replay(requests).accepted,
        forall|id: u64|
            #[trigger] lookup(replay(requests).book.records, id) matches Some(o) ==> o.id == id,
        replay(requests).accepted <= requests.len(),
    decreases requests.len(),
{
    lemma_replay_consistent(requests);
    let h = replay(requests);
    if requests.len() > 0 {
        let before = replay(requests.drop_last());
        lemma_replay_ids(requests.drop_last());
        lemma_replay_consistent(requests.drop_last());
        lemma_submit_consistent(before.book, requests.last());
        match outcome(before.book, requests.last()) {
            Submitted::Accepted { order, pass } => {
                lemma_stored(before.book.records, order);
                lemma_lookup(before.book.records, order.id);
                if let Some(o) = lookup(before.book.records, order.id) {
                    assert(before.book.admits(o));
                }
                lemma_pass_keeps_records(before.book.booked(order));
            },
            _ => {},
        }
    }
    assert forall|id: u64| #[trigger] lookup(h.book.records, id) is Some <==> 1 <= id <= h.accepted by {
        if let Some(o) = lookup(h.book.records, id) {
            lemma_lookup(h.book.records, id);
            assert(h.book.admits(o));
        }
    }
    assert forall|id: u64| #[trigger] lookup(h.book.records, id) is Some implies lookup(h.book.records, id)->0.id
        == id by {
        lemma_lookup(h.book.records, id);
    }
}

/// After any sequence of submissions every order is open or filled: the
/// engine cancels none.
pub proof fn lemma_replay_cancels_none(requests: Seq<Request>, id: u64)
    ensures
        lookup(replay(requests).book.records, id) matches Some(o) ==> o.status != Status::Cancelled,
    decreases requests.len(),
{
    if requests.len() == 0 {
        assert(lookup(BookView::empty().records, id) is None);
    } else {
        let before = replay(requests.drop_last());
        lemma_replay_cancels_none(requests.drop_last(), id);
        lemma_replay_consistent(requests.drop_last());
        lemma_submit_consistent(before.book, requests.last());
        match outcome(before.book, requests.last()) {
            Submitted::Accepted { order, pass } => {
                lemma_booked_consistent(before.book, order);
                lemma_pass_continues(before.book.booked(order), id);
            },
            _ => {},
        }
    }
}

} // verus!
