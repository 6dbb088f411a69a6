//! A personal finance ledger: signed, dated entries kept one per line in an
//! append-only log, and a report over a date range with a running total,
//! objective percentages and a display window.

pub mod text;
pub mod date;
pub mod amount;
pub mod codec;
pub mod store;
pub mod filter;
pub mod report;
pub mod config;
