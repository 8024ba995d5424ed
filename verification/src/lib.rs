//! Consolidated order-book core: merges per-exchange depth updates for one
//! trading pair into a single book and projects bounded top-of-book summaries.
//!
//! The crate is organised bottom-up:
//! - [`codec`] turns decimal prices into stable integer keys and back;
//! - [`ladder`] keeps one side's price levels sorted with per-source quotes;
//! - [`orderbook`] applies canonical update records behind a staleness gate
//!   while maintaining the best-price invariants;
//! - [`report`] projects the merged state into a depth-bounded summary.

pub mod codec;
pub mod ladder;
pub mod orderbook;
pub mod report;
