//! Verified core of a ledger-account expense analyzer.
//!
//! The library walks a remote account's transaction history page by page,
//! attributes each transaction's network fee to the on-chain programs its
//! top-level instructions invoked, aggregates fees and transaction counts
//! per `(account, program)` bucket, and renders a sorted expense table plus
//! a delimited export. Network access itself lives outside the library: the
//! functions here consume and produce plain values and carry contracts for
//! everything they compute.

pub mod aggregation;
pub mod attribution;
pub mod fetch;
pub mod idents;
pub mod movie;
pub mod numfmt;
pub mod pagination;
pub mod report;
pub mod staking;
