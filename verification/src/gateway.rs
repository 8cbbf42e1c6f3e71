//! The operations by which the book changes what it persists.
//!
//! The book keeps its records and indices in memory. Whoever persists them
//! elsewhere is told of every change as one of these operations, in the
//! order in which the book made them.

use crate::order::{Order, Side};
use vstd::prelude::*;

verus! {

/// One change to the persisted book.
#[derive(Debug, PartialEq, Eq)]
pub enum Write {
    /// Store the record under its id, in place of any earlier record.
    Put(Order),
    /// List order `id` at `price` in the index of `side`.
    IndexInsert { side: Side, price: u64, id: u64 },
    /// Take order `id` off the index of `side`.
    IndexRemove { side: Side, id: u64 },
}

} // verus!
