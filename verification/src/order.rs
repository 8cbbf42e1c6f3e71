//! Order records and trade events.

use vstd::prelude::*;

verus! {

/// Which side of the book an order rests on.
#[derive(Clone, Copy, Debug, PartialEq, Eq, Structural)]
pub enum Side {
    Buy,
    Sell,
}

/// Where an order stands in its life.
///
/// The engine moves an order from `Open` to `Filled` and nowhere else;
/// `Cancelled` is kept for callers that extend the engine.
#[derive(Clone, Copy, Debug, PartialEq, Eq, Structural)]
pub enum Status {
    Open,
    Filled,
    Cancelled,
}

/// One order: a fixed identity and the quantity still to be matched.
#[derive(Debug, PartialEq, Eq)]
pub struct Order {
    pub id: u64,
    pub owner: String,
    pub side: Side,
    pub limit_price: u64,
    pub original_quantity: u64,
    pub remaining_quantity: u64,
    pub status: Status,
}

/// One execution between a buy order and a sell order.
#[derive(Clone, Copy, Debug, PartialEq, Eq, Structural)]
pub struct Trade {
    pub buy_order_id: u64,
    pub sell_order_id: u64,
    pub quantity: u64,
    pub price: u64,
}

impl Side {
    /// The side an order of this side trades against.
    pub open spec fn opposite(self) -> Side {
        match self {
            Side::Buy => Side::Sell,
            Side::Sell => Side::Buy,
        }
    }
}

impl Order {
    /// The invariant of an accepted order: identity and price are positive,
    /// the remaining quantity never exceeds the original one, and it is zero
    /// exactly when the order is filled.
    pub open spec fn wf(self) -> bool {
        &&& self.id >= 1
        &&& self.limit_price > 0
        &&& self.original_quantity > 0
        &&& self.remaining_quantity <= self.original_quantity
        &&& (self.remaining_quantity == 0 <==> self.status == Status::Filled)
    }

    /// The record of a freshly accepted order: nothing matched yet.
    pub open spec fn opened(id: u64, owner: String, side: Side, limit_price: u64, quantity: u64) -> Order {
        Order {
            id,
            owner,
            side,
            limit_price,
            original_quantity: quantity,
            remaining_quantity: quantity,
            status: Status::Open,
        }
    }

    /// This order after `quantity` of it has been matched: the remaining
    /// quantity goes down, and the order is filled once nothing remains.
    pub open spec fn reduced(self, quantity: u64) -> Order {
        let left = (self.remaining_quantity - quantity) as u64;
        Order {
            remaining_quantity: left,
            status: if left == 0 {
                Status::Filled
            } else {
                self.status
            },
            ..self
        }
    }

    /// Builds the record of a freshly accepted order.
    pub fn open(id: u64, owner: String, side: Side, limit_price: u64, quantity: u64) -> (order: Order)
        ensures
            order == Order::opened(id, owner, side, limit_price, quantity),
            id >= 1 && limit_price > 0 && quantity > 0 ==> order.wf(),
    {
        Order {
            id,
            owner,
            side,
            limit_price,
            original_quantity: quantity,
            remaining_quantity: quantity,
            status: Status::Open,
        }
    }

    /// Takes `quantity` off the remaining quantity and marks the order filled
    /// when nothing is left.
    pub fn reduce(&mut self, quantity: u64)
        requires
            quantity <= old(self).remaining_quantity,
        ensures
            *final(self) == old(self).reduced(quantity),
            old(self).wf() && old(self).status == Status::Open ==> final(self).wf(),
    {
        self.remaining_quantity = self.remaining_quantity - quantity;
        if self.remaining_quantity == 0 {
            self.status = Status::Filled;
        }
    }
}

impl Clone for Order {
    fn clone(&self) -> (copy: Order)
        ensures
            copy == *self,
    {
        Order {
            id: self.id,
            owner: self.owner.clone(),
            side: self.side,
            limit_price: self.limit_price,
            original_quantity: self.original_quantity,
            remaining_quantity: self.remaining_quantity,
            status: self.status,
        }
    }
}

} // verus!
