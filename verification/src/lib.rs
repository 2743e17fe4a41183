//! A debugging library for smart-contract execution against a simulated
//! ledger: it models mock network snapshots (accounts, contracts, storage),
//! loads and saves them as structured text, diffs two snapshots, records
//! execution traces, and compares two traces to surface divergences.

pub mod engine;
pub mod formatter;
pub mod loader;
pub mod snapshot;
pub mod sorted;
pub mod state;
pub mod text;
pub mod trace;
