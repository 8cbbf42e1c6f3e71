//! The priority index of one side of the book.
//!
//! An index lists the open orders of one side, best first: the highest price
//! leads the buy side, the lowest price leads the sell side, and among equal
//! prices the order with the smaller id, which was submitted earlier, leads.

use crate::order::Side;
use vstd::prelude::*;

verus! {

/// One indexed order: the price it is ranked by and its id.
#[derive(Clone, Copy, Debug, PartialEq, Eq, Structural)]
pub struct Entry {
    pub price: u64,
    pub id: u64,
}

/// Price-time priority: `a` is matched before `b` on the given side.
pub open spec fn precedes(side: Side, a: Entry, b: Entry) -> bool {
    match side {
        Side::Buy => a.price > b.price || (a.price == b.price && a.id < b.id),
        Side::Sell => a.price < b.price || (a.price == b.price && a.id < b.id),
    }
}

/// Every entry precedes all entries behind it.
pub open spec fn ordered(side: Side, s: Seq<Entry>) -> bool {
    forall|i: int, j: int| 0 <= i < j < s.len() ==> precedes(side, #[trigger] s[i], #[trigger] s[j])
}

/// No order is listed twice.
pub open spec fn distinct_ids(s: Seq<Entry>) -> bool {
    forall|i: int, j: int| 0 <= i < j < s.len() ==> (#[trigger] s[i]).id != (#[trigger] s[j]).id
}

/// The order `id` is listed at position `i`.
pub open spec fn listed_at(s: Seq<Entry>, id: u64, i: int) -> bool {
    0 <= i < s.len() && s[i].id == id
}

/// The order `id` is listed.
pub open spec fn lists(s: Seq<Entry>, id: u64) -> bool {
    exists|i: int| listed_at(s, id, i)
}

/// The entries of `s` but the one of order `id`.
pub open spec fn without(s: Seq<Entry>, id: u64) -> Seq<Entry> {
    if lists(s, id) {
        s.remove(choose|i: int| listed_at(s, id, i))
    } else {
        s
    }
}

/// Position `p` parts `s` into the entries that precede `e` and those that
/// `e` precedes.
pub open spec fn is_rank(side: Side, s: Seq<Entry>, e: Entry, p: int) -> bool {
    &&& 0 <= p <= s.len()
    &&& forall|k: int| 0 <= k < p ==> precedes(side, #[trigger] s[k], e)
    &&& forall|k: int| p <= k < s.len() ==> precedes(side, e, #[trigger] s[k])
}

/// `s` with `e` put at its rank, in place of any entry of the same order.
pub open spec fn with_entry(side: Side, s: Seq<Entry>, e: Entry) -> Seq<Entry> {
    let rest = without(s, e.id);
    rest.insert(choose|p: int| is_rank(side, rest, e, p), e)
}

/// The ids of the entries, in index order.
pub open spec fn ids_of(s: Seq<Entry>) -> Seq<u64> {
    Seq::new(s.len(), |i: int| s[i].id)
}

/// Only one position can hold a given order in an index without duplicates.
pub proof fn lemma_listed_once(s: Seq<Entry>, id: u64, i: int)
    requires
        distinct_ids(s),
        listed_at(s, id, i),
    ensures
        lists(s, id),
        without(s, id) == s.remove(i),
{
    let j = choose|j: int| listed_at(s, id, j);
    if j < i {
        assert(s[j].id != s[i].id);
    }
    if i < j {
        assert(s[i].id != s[j].id);
    }
}

/// An entry has one rank only.
pub proof fn lemma_rank_once(side: Side, s: Seq<Entry>, e: Entry, p: int)
    requires
        is_rank(side, s, e, p),
    ensures
        (choose|q: int| is_rank(side, s, e, q)) == p,
{
    let q = choose|q: int| is_rank(side, s, e, q);
    if q < p {
        assert(precedes(side, s[q], e));
        assert(precedes(side, e, s[q]));
    }
    if p < q {
        assert(precedes(side, s[p], e));
        assert(precedes(side, e, s[p]));
    }
}

/// Removing an order keeps the index ordered and free of duplicates, and
/// drops exactly the entry of that order.
pub proof fn lemma_without(side: Side, s: Seq<Entry>, id: u64)
    requires
        ordered(side, s),
        distinct_ids(s),
    ensures
        ordered(side, without(s, id)),
        distinct_ids(without(s, id)),
        !lists(without(s, id), id),
        forall|e: Entry| #[trigger] without(s, id).contains(e) <==> s.contains(e) && e.id != id,
        without(s, id).len() == s.len() - if lists(s, id) { 1int } else { 0int },
{
    let t = without(s, id);
    if lists(s, id) {
        let i = choose|i: int| listed_at(s, id, i);
        assert forall|k: int| 0 <= k < t.len() implies #[trigger] t[k] == s[if k < i { k } else { k + 1 }] by {}
        assert forall|a: int, b: int| 0 <= a < b < t.len() implies precedes(side, #[trigger] t[a], #[trigger] t[b]) by {
            let a0 = if a < i { a } else { a + 1 };
            let b0 = if b < i { b } else { b + 1 };
            assert(precedes(side, s[a0], s[b0]));
        }
        assert forall|a: int, b: int| 0 <= a < b < t.len() implies (#[trigger] t[a]).id != (#[trigger] t[b]).id by {
            let a0 = if a < i { a } else { a + 1 };
            let b0 = if b < i { b } else { b + 1 };
            assert(s[a0].id != s[b0].id);
        }
        assert forall|k: int| !listed_at(t, id, k) by {
            if 0 <= k < t.len() {
                let k0 = if k < i { k } else { k + 1 };
                if k0 < i {
                    assert(s[k0].id != s[i].id);
                } else {
                    assert(s[i].id != s[k0].id);
                }
            }
        }
        assert forall|e: Entry| t.contains(e) <==> s.contains(e) && e.id != id by {
            if t.contains(e) {
                let k = choose|k: int| 0 <= k < t.len() && t[k] == e;
                let k0 = if k < i { k } else { k + 1 };
                assert(s[k0] == e);
                assert(!listed_at(t, id, k));
            }
            if s.contains(e) && e.id != id {
                let k0 = choose|k: int| 0 <= k < s.len() && s[k] == e;
                let k = if k0 < i { k0 } else { k0 - 1 };
                assert(t[k] == e);
            }
        }
    } else {
        assert forall|k: int| !listed_at(t, id, k) by {
            assert(!listed_at(s, id, k));
        }
        assert forall|e: Entry| t.contains(e) <==> s.contains(e) && e.id != id by {
            if s.contains(e) {
                let k = choose|k: int| 0 <= k < s.len() && s[k] == e;
                assert(!listed_at(s, id, k));
            }
        }
    }
}

/// In an ordered index that does not list the order of `e`, the entries
/// that precede `e` form a prefix, so `e` has a rank.
pub proof fn lemma_rank_exists(side: Side, s: Seq<Entry>, e: Entry) -> (p: int)
    requires
        ordered(side, s),
        !lists(s, e.id),
    ensures
        is_rank(side, s, e, p),
    decreases s.len(),
{
    if s.len() == 0 {
        0
    } else {
        let last = s.len() - 1;
        assert(!listed_at(s, e.id, last));
        if precedes(side, s[last], e) {
            assert forall|k: int| 0 <= k < s.len() implies precedes(side, #[trigger] s[k], e) by {
                if k < last {
                    assert(precedes(side, s[k], s[last]));
                }
            }
            s.len() as int
        } else {
            let front = s.drop_last();
            assert forall|k: int| !listed_at(front, e.id, k) by {
                assert(!listed_at(s, e.id, k));
            }
            assert(ordered(side, front));
            let p = lemma_rank_exists(side, front, e);
            assert forall|k: int| 0 <= k < p implies precedes(side, #[trigger] s[k], e) by {
                assert(precedes(side, front[k], e));
            }
            assert forall|k: int| p <= k < s.len() implies precedes(side, e, #[trigger] s[k]) by {
                if k < last {
                    assert(precedes(side, e, front[k]));
                }
            }
            p
        }
    }
}

/// Putting an entry into an index keeps it ordered and free of duplicates;
/// the result lists the new entry and every old entry of another order.
pub proof fn lemma_with_entry(side: Side, s: Seq<Entry>, e: Entry)
    requires
        ordered(side, s),
        distinct_ids(s),
    ensures
        ordered(side, with_entry(side, s, e)),
        distinct_ids(with_entry(side, s, e)),
        forall|x: Entry| #[trigger]
            with_entry(side, s, e).contains(x) <==> x == e || (s.contains(x) && x.id != e.id),
        with_entry(side, s, e).len() == without(s, e.id).len() + 1,
{
    let rest = without(s, e.id);
    lemma_without(side, s, e.id);
    lemma_rank_exists(side, rest, e);
    let p = choose|p: int| is_rank(side, rest, e, p);
    let t = with_entry(side, s, e);
    assert(t == rest.insert(p, e));
    assert forall|k: int| 0 <= k < t.len() implies #[trigger] t[k] == (if k < p {
        rest[k]
    } else if k == p {
        e
    } else {
        rest[k - 1]
    }) by {}
    assert forall|a: int, b: int| 0 <= a < b < t.len() implies precedes(side, #[trigger] t[a], #[trigger] t[b]) by {
        if b < p {
            assert(precedes(side, rest[a], rest[b]));
        } else if b == p {
            assert(precedes(side, rest[a], e));
        } else if a < p {
            assert(precedes(side, rest[a], e));
            assert(precedes(side, e, rest[b - 1]));
        } else if a == p {
            assert(precedes(side, e, rest[b - 1]));
        } else {
            assert(precedes(side, rest[a - 1], rest[b - 1]));
        }
    }
    assert forall|a: int, b: int| 0 <= a < b < t.len() implies (#[trigger] t[a]).id != (#[trigger] t[b]).id by {
        if b < p {
            assert(rest[a].id != rest[b].id);
        } else if b == p {
            assert(!listed_at(rest, e.id, a));
        } else if a < p {
            assert(rest[a].id != rest[b - 1].id);
        } else if a == p {
            assert(!listed_at(rest, e.id, b - 1));
        } else {
            assert(rest[a - 1].id != rest[b - 1].id);
        }
    }
    assert forall|x: Entry| t.contains(x) <==> x == e || (s.contains(x) && x.id != e.id) by {
        if t.contains(x) {
            let k = choose|k: int| 0 <= k < t.len() && t[k] == x;
            if k < p {
                assert(rest.contains(rest[k]));
            } else if k > p {
                assert(rest.contains(rest[k - 1]));
            }
        }
        if x == e {
            assert(t[p] == e);
        }
        if s.contains(x) && x.id != e.id {
            assert(rest.contains(x));
            let k = choose|k: int| 0 <= k < rest.len() && rest[k] == x;
            if k < p {
                assert(t[k] == x);
            } else {
                assert(t[k + 1] == x);
            }
        }
    }
}

/// Decides price-time priority between two entries.
pub fn goes_before(side: Side, a: Entry, b: Entry) -> (r: bool)
    ensures
        r == precedes(side, a, b),
{
    match side {
        Side::Buy => a.price > b.price || (a.price == b.price && a.id < b.id),
        Side::Sell => a.price < b.price || (a.price == b.price && a.id < b.id),
    }
}

/// The open orders of one side, best first.
pub struct SideIndex {
    side: Side,
    entries: Vec<Entry>,
}

impl SideIndex {
    /// The entries, best first.
    pub closed spec fn view(&self) -> Seq<Entry> {
        self.entries@
    }

    /// The side this index ranks for.
    pub closed spec fn side(&self) -> Side {
        self.side
    }

    /// The entries are in priority order and no order is listed twice.
    pub open spec fn wf(&self) -> bool {
        ordered(self.side(), self@) && distinct_ids(self@)
    }

    /// An index with no entries.
    pub fn new(side: Side) -> (index: SideIndex)
        ensures
            index@ == Seq::<Entry>::empty(),
            index.side() == side,
            index.wf(),
    {
        SideIndex { side, entries: Vec::new() }
    }

    /// The number of listed orders.
    pub fn len(&self) -> (n: usize)
        ensures
            n == self@.len(),
    {
        self.entries.len()
    }

    /// The entry that is matched first, if the index lists any order.
    pub fn best(&self) -> (e: Option<Entry>)
        ensures
            e == if self@.len() > 0 {
                Some(self@[0])
            } else {
                None::<Entry>
            },
    {
        if self.entries.len() > 0 {
            Some(self.entries[0])
        } else {
            None
        }
    }

    /// Takes the order `id` off the index; tells whether it was listed.
    pub fn remove(&mut self, id: u64) -> (was_listed: bool)
        requires
            old(self).wf(),
        ensures
            final(self).wf(),
            final(self).side() == old(self).side(),
            final(self)@ == without(old(self)@, id),
            was_listed == lists(old(self)@, id),
    {
        let mut i: usize = 0;
        while i < self.entries.len()
            invariant
                i <= self.entries@.len(),
                *self == *old(self),
                self.wf(),
                forall|k: int| 0 <= k < i ==> (#[trigger] self.entries@[k]).id != id,
            decreases self.entries@.len() - i,
        {
            if self.entries[i].id == id {
                proof {
                    lemma_listed_once(self.entries@, id, i as int);
                    lemma_without(self.side, self.entries@, id);
                }
                self.entries.remove(i);
                return true;
            }
            i = i + 1;
        }
        assert forall|k: int| !listed_at(self.entries@, id, k) by {
            if 0 <= k < self.entries@.len() {
                assert(self.entries@[k].id != id);
            }
        }
        false
    }

    /// Lists the order `id` at `price`, in place of any earlier entry of the
    /// same order.
    pub fn insert(&mut self, price: u64, id: u64)
        requires
            old(self).wf(),
        ensures
            final(self).wf(),
            final(self).side() == old(self).side(),
            final(self)@ == with_entry(old(self).side(), old(self)@, Entry { price, id }),
    {
        let e = Entry { price, id };
        proof {
            lemma_with_entry(self.side, self.entries@, e);
            lemma_without(self.side, self.entries@, id);
        }
        self.remove(id);
        let ghost rest = self.entries@;
        let mut p: usize = 0;
        while p < self.entries.len() && goes_before(self.side, self.entries[p], e)
            invariant
                p <= self.entries@.len(),
                self.entries@ == rest,
                self.side == old(self).side,
                forall|k: int| 0 <= k < p ==> precedes(self.side, #[trigger] rest[k], e),
            decreases self.entries@.len() - p,
        {
            p = p + 1;
        }
        proof {
            assert forall|k: int| p <= k < rest.len() implies precedes(self.side, e, #[trigger] rest[k]) by {
                assert(!listed_at(rest, id, p as int));
                assert(!listed_at(rest, id, k));
                if k > p {
                    assert(precedes(self.side, rest[p as int], rest[k]));
                }
            }
            assert(is_rank(self.side, rest, e, p as int));
            lemma_rank_once(self.side, rest, e, p as int);
        }
        self.entries.insert(p, e);
    }

    /// The ids of the listed orders, best first.
    pub fn ids(&self) -> (ids: Vec<u64>)
        ensures
            ids@ == ids_of(self@),
    {
        let mut ids: Vec<u64> = Vec::new();
        let mut i: usize = 0;
        while i < self.entries.len()
            invariant
                i <= self.entries@.len(),
                ids@ == ids_of(self.entries@.take(i as int)),
            decreases self.entries@.len() - i,
        {
            ids.push(self.entries[i].id);
            proof {
                assert(ids@ =~= ids_of(self.entries@.take(i + 1)));
            }
            i = i + 1;
        }
        proof {
            assert(self.entries@.take(i as int) =~= self.entries@);
        }
        ids
    }
}

} // verus!
