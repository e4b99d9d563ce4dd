//! A borrower share ledger: per-borrower limits and borrowed shares, per-delegate
//! breakdowns, limit enforcement against a share pool's valuation, and the
//! migration from the legacy combined delegate records.
pub mod address;
pub mod table;
pub mod pool;
pub mod error;
pub mod borrowers;
pub mod migration;
