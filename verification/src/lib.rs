//! A round-based, oracle-settled prediction market ledger.
//!
//! Users stake virtual tokens on the direction of a price (or, in precision
//! mode, on its exact value); an oracle reports the outcome; the market pays
//! the winners in proportion to their stakes and keeps a record of wins and
//! losses.
//!
//! The market does no I/O. An entry point takes the circumstances of the
//! invocation as plain values ([`invocation::Invocation`]) and changes the
//! market in memory; [`contract::VirtualTokenContract::snapshot`] and
//! [`contract::VirtualTokenContract::restore`] carry it to and from whatever
//! persists it.
//!
//! Every entry point is specified against [`model::State`], the market as a
//! mathematical state: when it fails, with which error, and what state it
//! leaves. [`laws`] holds what follows for the market as a whole.

/// The market itself: its persistent state and its entry points.
pub mod contract;
/// The typed failures of the entry points.
pub mod errors;
/// The ledger clock and the authorizations of one invocation.
pub mod invocation;
/// Conservation, non-negativity, round ids, windows and oracle rules.
pub mod laws;
/// The market as a mathematical state and the rule of every entry point.
pub mod model;
/// The checks on an oracle report.
pub mod oracle;
/// The payout of one winning stake.
pub mod payout;
/// The positions of an Up/Down round, kept in a map of the Soroban SDK.
pub mod positions;
/// The settlement of a Precision round.
pub mod precision;
/// Windows and phases of a round.
pub mod round;
/// Every entry point keeps the invariant.
pub mod safety;
/// The settlement of an Up/Down round.
pub mod settlement;
/// The persisted entries of the market as plain values.
pub mod snapshot;
/// Wins, losses and streaks.
pub mod stats;
/// A keyed store of per-address entries.
pub mod store;
/// The plain data that the market keeps and exchanges.
pub mod types;
