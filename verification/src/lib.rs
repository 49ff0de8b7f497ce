//! Time-aware analytical views over a fully parsed grand-strategy save.
//!
//! The crate is a pure, read-only transform over an immutable save snapshot
//! that an upstream parser has already turned into plain records: it resolves
//! a country's historical tag identity across renames, reconstructs war
//! timelines and battle participation, expands sparse construction events
//! into dense annual building counts, and aggregates annual ledgers with
//! chart-safe gap semantics. No I/O, no persistence, no mutation of the
//! input model.

pub mod buildings;
pub mod commanders;
pub mod dates;
pub mod identity;
pub mod ledger;
pub mod losses;
pub mod model;
pub mod order;
pub mod players;
pub mod reports;
pub mod statistics;
pub mod tags;
pub mod wardetail;
pub mod wars;
