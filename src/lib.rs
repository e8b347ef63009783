//! An in-memory replica of the top of a two-sided order book, kept in step
//! with a snapshot-then-diff feed whose change-ids form a chain.
//!
//! - `ledger`: the price levels of each side and their best level.
//! - `sequencer`: the change-id chain that every diff must continue.
//! - `engine`: the entry point that routes feed messages through both.
//! - `subscription`: the exchange's confirmation of a subscription.
pub mod engine;
pub mod ledger;
pub mod sequencer;
pub mod subscription;
