//! A deterministic, time-stepped slot-auction engine.
//!
//! The engine owns an arena of auction records, a secondary index of end
//! times, a slot of queued (pre-start) bids, and a model of the funds ledger
//! against which bids are escrowed.  Every public operation is specified by a
//! contract over mathematical views of that state and verified by Verus.

pub mod balances;
pub mod engine;
pub mod kv;
pub mod laws;
pub mod queries;
pub mod types;
