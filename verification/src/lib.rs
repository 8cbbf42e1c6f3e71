//! A price-time priority matching engine for a single instrument.
//!
//! The crate keeps a two-sided limit order book in memory: a record store
//! addressed by order id and one priority index per side. Submitting an
//! order assigns it the next id, stores and indexes it, and runs one
//! matching pass that crosses the best bid against the best ask until no
//! crossable pair is left. Every change the book makes is reported as a
//! [`Write`], so that the book can be persisted elsewhere as it goes.
//!
//! Prices and quantities are whole numbers of the smallest unit that the
//! caller trades in.
//!
//! The executable types are [`OrderBook`], built on [`RecordStore`] and
//! [`SideIndex`]. Their contracts speak of the model in [`model`]. What
//! holds of every book that submissions have made is proved in
//! [`invariants`], [`passes`], [`conservation`], [`journal`] and
//! [`history`].
//!
//! An [`OrderBook`] is changed through `&mut self` only, so that
//! submissions, and with them id assignment and matching passes, happen one
//! after the other; callers on several threads share a book behind a lock.

pub mod book;
pub mod conservation;
pub mod gateway;
pub mod history;
pub mod index;
pub mod invariants;
pub mod journal;
pub mod matching;
pub mod model;
pub mod order;
pub mod passes;
pub mod store;

pub use book::{Listing, OrderBook, PassReport, Receipt, SubmitError};
pub use gateway::Write;
pub use index::{Entry, SideIndex};
pub use matching::{settle, Fill};
pub use order::{Order, Side, Status, Trade};
pub use store::RecordStore;
