//! Collection reconciliation and price-history time-series engine for MTGO
//! card collections.
//!
//! The crate fuses a raw inventory export with two keyed external feeds into
//! canonical per-card records, folds successive snapshots into an append-only
//! per-card price/quantity time series, and persists that series as a compact
//! text document through a bit-exact row codec.

pub mod card;
pub mod codec;
pub mod collection;
pub mod deck;
pub mod document;
pub mod history;
pub mod stats;
pub mod text;

use vstd::prelude::*;

verus! {

/// The reserved card identifier of the "Event Ticket" sentinel card, whose
/// price is pinned to 1 in both pricing domains regardless of feed contents.
pub const EVENT_TICKET_ID: u32 = 1;

} // verus!
