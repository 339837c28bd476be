//! An order-matching core for one pair of assets per market.
//!
//! A market holds a book of resting limit orders, the accounts of its users, the
//! fees it has collected and an append-only event log that any number of consumers
//! read at their own pace. Incoming orders are matched by price-time priority and
//! every trade is settled when it is made. A registry keeps independent markets by
//! name.
//!
//! Each type has a mathematical view, the operations are stated as functions on
//! those views, and the executable code is proved to compute them. The modules
//! `laws`, `conservation` and `invariants` state what holds across operations.

pub mod book;
pub mod clearing;
pub mod conservation;
pub mod events;
pub mod invariants;
pub mod laws;
pub mod ledger;
pub mod market;
pub mod order;
pub mod registry;
pub mod sums;
pub mod table;
