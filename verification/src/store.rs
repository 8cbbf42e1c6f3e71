//! The record store: order records addressed by id.
//!
//! Records are kept in ascending order of id, so that a record is found by
//! bisection. A record is never deleted; storing a record under an id that is
//! already taken replaces the earlier record.

use crate::order::Order;
use vstd::prelude::*;

verus! {

/// Records stand in strictly ascending order of id.
pub open spec fn sorted_by_id(s: Seq<Order>) -> bool {
    forall|i: int, j: int| 0 <= i < j < s.len() ==> (#[trigger] s[i]).id < (#[trigger] s[j]).id
}

/// The record of order `id` stands at position `i`.
pub open spec fn stored_at(s: Seq<Order>, id: u64, i: int) -> bool {
    0 <= i < s.len() && s[i].id == id
}

/// There is a record of order `id`.
pub open spec fn holds(s: Seq<Order>, id: u64) -> bool {
    exists|i: int| stored_at(s, id, i)
}

/// The record of order `id`, if there is one.
pub open spec fn lookup(s: Seq<Order>, id: u64) -> Option<Order> {
    if holds(s, id) {
        Some(s[choose|i: int| stored_at(s, id, i)])
    } else {
        None
    }
}

/// Position `p` parts `s` into the records with an id below `id` and the
/// others.
pub open spec fn is_slot(s: Seq<Order>, id: u64, p: int) -> bool {
    &&& 0 <= p <= s.len()
    &&& forall|k: int| 0 <= k < p ==> (#[trigger] s[k]).id < id
    &&& forall|k: int| p <= k < s.len() ==> (#[trigger] s[k]).id >= id
}

/// The records after `o` has been stored: `o` replaces the record of the
/// same id, or is added at the place its id gives it.
pub open spec fn stored(s: Seq<Order>, o: Order) -> Seq<Order> {
    if holds(s, o.id) {
        s.update(choose|i: int| stored_at(s, o.id, i), o)
    } else {
        s.insert(choose|p: int| is_slot(s, o.id, p), o)
    }
}

/// Only one position holds the record of a given order.
pub proof fn lemma_stored_at(s: Seq<Order>, id: u64, i: int)
    requires
        sorted_by_id(s),
        stored_at(s, id, i),
    ensures
        holds(s, id),
        (choose|j: int| stored_at(s, id, j)) == i,
        lookup(s, id) == Some(s[i]),
{
    let j = choose|j: int| stored_at(s, id, j);
    if j < i {
        assert(s[j].id < s[i].id);
    }
    if i < j {
        assert(s[i].id < s[j].id);
    }
}

/// An id has one slot only.
pub proof fn lemma_slot_once(s: Seq<Order>, id: u64, p: int)
    requires
        is_slot(s, id, p),
    ensures
        (choose|q: int| is_slot(s, id, q)) == p,
{
    let q = choose|q: int| is_slot(s, id, q);
    if q < p {
        assert(s[q].id < id);
        assert(s[q].id >= id);
    }
    if p < q {
        assert(s[p].id < id);
        assert(s[p].id >= id);
    }
}

/// In a sorted store every id has a slot.
pub proof fn lemma_slot_exists(s: Seq<Order>, id: u64) -> (p: int)
    requires
        sorted_by_id(s),
    ensures
        is_slot(s, id, p),
    decreases s.len(),
{
    if s.len() == 0 {
        0
    } else {
        let last = s.len() - 1;
        if s[last].id < id {
            assert forall|k: int| 0 <= k < s.len() implies (#[trigger] s[k]).id < id by {
                if k < last {
                    assert(s[k].id < s[last].id);
                }
            }
            s.len() as int
        } else {
            let front = s.drop_last();
            assert(sorted_by_id(front)) by {
                assert forall|i: int, j: int| 0 <= i < j < front.len() implies (#[trigger] front[i]).id < (
                #[trigger] front[j]).id by {
                    assert(s[i].id < s[j].id);
                }
            }
            let p = lemma_slot_exists(front, id);
            assert forall|k: int| 0 <= k < p implies (#[trigger] s[k]).id < id by {
                assert(front[k].id < id);
            }
            assert forall|k: int| p <= k < s.len() implies (#[trigger] s[k]).id >= id by {
                if k < last {
                    assert(front[k].id >= id);
                }
            }
            p
        }
    }
}

/// What a lookup finds is the one record with that id, and it finds every
/// record that is there.
pub proof fn lemma_lookup(s: Seq<Order>, id: u64)
    requires
        sorted_by_id(s),
    ensures
        lookup(s, id) matches Some(o) ==> s.contains(o) && o.id == id,
        lookup(s, id) is None ==> forall|i: int| 0 <= i < s.len() ==> (#[trigger] s[i]).id != id,
        forall|x: Order| s.contains(x) && x.id == id ==> lookup(s, id) == Some(x),
{
    if !holds(s, id) {
        assert forall|i: int| 0 <= i < s.len() implies (#[trigger] s[i]).id != id by {
            assert(!stored_at(s, id, i));
        }
    }
    assert forall|x: Order| s.contains(x) && x.id == id implies lookup(s, id) == Some(x) by {
        let k = choose|k: int| 0 <= k < s.len() && s[k] == x;
        lemma_stored_at(s, id, k);
    }
}

/// Storing a record keeps the store sorted; afterwards the store holds the
/// new record, and every earlier record of another id.
pub proof fn lemma_stored(s: Seq<Order>, o: Order)
    requires
        sorted_by_id(s),
    ensures
        sorted_by_id(stored(s, o)),
        stored(s, o).len() == s.len() + if holds(s, o.id) { 0int } else { 1int },
        forall|x: Order| #[trigger] stored(s, o).contains(x) <==> x == o || (s.contains(x) && x.id != o.id),
        lookup(stored(s, o), o.id) == Some(o),
        forall|id: u64| id != o.id ==> lookup(stored(s, o), id) == lookup(s, id),
{
    let t = stored(s, o);
    if holds(s, o.id) {
        let i = choose|i: int| stored_at(s, o.id, i);
        assert forall|a: int, b: int| 0 <= a < b < t.len() implies (#[trigger] t[a]).id < (#[trigger] t[b]).id by {
            assert(s[a].id < s[b].id);
        }
        assert forall|x: Order| t.contains(x) <==> x == o || (s.contains(x) && x.id != o.id) by {
            if t.contains(x) {
                let k = choose|k: int| 0 <= k < t.len() && t[k] == x;
                if k != i {
                    assert(s[k] == x);
                    if k < i {
                        assert(s[k].id < s[i].id);
                    } else {
                        assert(s[i].id < s[k].id);
                    }
                }
            }
            if x == o {
                assert(t[i] == o);
            }
            if s.contains(x) && x.id != o.id {
                let k = choose|k: int| 0 <= k < s.len() && s[k] == x;
                assert(t[k] == x);
            }
        }
    } else {
        lemma_slot_exists(s, o.id);
        let p = choose|p: int| is_slot(s, o.id, p);
        assert forall|k: int| 0 <= k < s.len() implies (#[trigger] s[k]).id != o.id by {
            assert(!stored_at(s, o.id, k));
        }
        assert forall|k: int| 0 <= k < t.len() implies #[trigger] t[k] == (if k < p {
            s[k]
        } else if k == p {
            o
        } else {
            s[k - 1]
        }) by {}
        assert forall|a: int, b: int| 0 <= a < b < t.len() implies (#[trigger] t[a]).id < (#[trigger] t[b]).id by {
            if b < p {
                assert(s[a].id < s[b].id);
            } else if b == p {
                assert(s[a].id < o.id);
            } else if a < p {
                assert(s[a].id < o.id);
                assert(s[b - 1].id >= o.id);
            } else if a == p {
                assert(s[b - 1].id >= o.id);
            } else {
                assert(s[a - 1].id < s[b - 1].id);
            }
        }
        assert forall|x: Order| t.contains(x) <==> x == o || (s.contains(x) && x.id != o.id) by {
            if t.contains(x) {
                let k = choose|k: int| 0 <= k < t.len() && t[k] == x;
                if k < p {
                    assert(s.contains(s[k]));
                } else if k > p {
                    assert(s.contains(s[k - 1]));
                }
            }
            if x == o {
                assert(t[p] == o);
            }
            if s.contains(x) && x.id != o.id {
                let k = choose|k: int| 0 <= k < s.len() && s[k] == x;
                if k < p {
                    assert(t[k] == x);
                } else {
                    assert(t[k + 1] == x);
                }
            }
        }
    }
    lemma_lookup(t, o.id);
    assert(t.contains(o));
    assert forall|id: u64| id != o.id implies lookup(t, id) == lookup(s, id) by {
        lemma_lookup(t, id);
        lemma_lookup(s, id);
        match lookup(s, id) {
            Some(x) => {
                assert(t.contains(x));
            },
            None => {
                if let Some(y) = lookup(t, id) {
                    assert(s.contains(y));
                    let k = choose|k: int| 0 <= k < s.len() && s[k] == y;
                    assert(s[k].id != id);
                }
            },
        }
    }
}

/// Order records, addressed by id.
pub struct RecordStore {
    orders: Vec<Order>,
}

impl RecordStore {
    /// The records, in ascending order of id.
    pub closed spec fn view(&self) -> Seq<Order> {
        self.orders@
    }

    /// The records stand in strictly ascending order of id.
    pub open spec fn wf(&self) -> bool {
        sorted_by_id(self@)
    }

    /// A store with no records.
    pub fn new() -> (store: RecordStore)
        ensures
            store@ == Seq::<Order>::empty(),
            store.wf(),
    {
        RecordStore { orders: Vec::new() }
    }

    /// The number of records.
    pub fn len(&self) -> (n: usize)
        ensures
            n == self@.len(),
    {
        self.orders.len()
    }

    /// Finds by bisection where the record of order `id` stands or would
    /// stand.
    fn slot(&self, id: u64) -> (p: usize)
        requires
            self.wf(),
        ensures
            is_slot(self@, id, p as int),
    {
        let mut lo: usize = 0;
        let mut hi: usize = self.orders.len();
        while lo < hi
            invariant
                self.wf(),
                lo <= hi <= self.orders@.len(),
                forall|k: int| 0 <= k < lo ==> (#[trigger] self.orders@[k]).id < id,
                forall|k: int| hi <= k < self.orders@.len() ==> (#[trigger] self.orders@[k]).id >= id,
            decreases hi - lo,
        {
            let mid: usize = lo + (hi - lo) / 2;
            if self.orders[mid].id < id {
                assert forall|k: int| 0 <= k < mid + 1 implies (#[trigger] self.orders@[k]).id < id by {
                    if k < mid {
                        assert(self.orders@[k].id < self.orders@[mid as int].id);
                    }
                }
                lo = mid + 1;
            } else {
                assert forall|k: int| mid <= k < self.orders@.len() implies (#[trigger] self.orders@[k]).id
                    >= id by {
                    if k > mid {
                        assert(self.orders@[mid as int].id < self.orders@[k].id);
                    }
                }
                hi = mid;
            }
        }
        lo
    }

    /// The record of order `id`, if the store holds one.
    pub fn get(&self, id: u64) -> (found: Option<&Order>)
        requires
            self.wf(),
        ensures
            match found {
                Some(o) => lookup(self@, id) == Some(*o),
                None => lookup(self@, id) is None,
            },
    {
        let p = self.slot(id);
        if p < self.orders.len() && self.orders[p].id == id {
            proof {
                lemma_stored_at(self.orders@, id, p as int);
            }
            Some(&self.orders[p])
        } else {
            proof {
                assert forall|i: int| !stored_at(self.orders@, id, i) by {
                    if 0 <= i < self.orders@.len() {
                        if i < p {
                            assert(self.orders@[i].id < id);
                        } else if i > p {
                            assert(self.orders@[p as int].id < self.orders@[i].id);
                        }
                    }
                }
            }
            None
        }
    }

    /// Stores `order` under its id, in place of any earlier record of that
    /// id.
    pub fn put(&mut self, order: Order)
        requires
            old(self).wf(),
        ensures
            final(self).wf(),
            final(self)@ == stored(old(self)@, order),
    {
        proof {
            lemma_stored(self.orders@, order);
        }
        let p = self.slot(order.id);
        if p < self.orders.len() && self.orders[p].id == order.id {
            proof {
                lemma_stored_at(self.orders@, order.id, p as int);
            }
            self.orders.set(p, order);
        } else {
            proof {
                assert forall|i: int| !stored_at(self.orders@, order.id, i) by {
                    if 0 <= i < self.orders@.len() {
                        if i < p {
                            assert(self.orders@[i].id < order.id);
                        } else if i > p {
                            assert(self.orders@[p as int].id < self.orders@[i].id);
                        }
                    }
                }
                lemma_slot_once(self.orders@, order.id, p as int);
            }
            self.orders.insert(p, order);
        }
    }
}

} // verus!
