//! A spot exchange for pairs of user-issued tokens.
//!
//! Accounts create trade pairs of two tokens, place limit and market orders
//! and receive the trades that matching produces, with price priority and,
//! at one price, time priority. All amounts and prices are integers; a price
//! is scaled by the price factor of the configuration.
//!
//! - `types`: identifiers, orders, trades, trade pairs, events, errors.
//! - `wide`, `arith`: 256-bit products and quotients, the bounds on new
//!   orders, and the amounts of a fill.
//! - `hashing`: how identifiers are derived.
//! - `table`, `index`: associative tables and lists of identifiers.
//! - `tokens`: the token ledger.
//! - `price_list`: the price book of one pair.
//! - `market`: trade pairs and their one-day statistics.
//! - `registry`: orders, trades and their indices.
//! - `engine`: the exchange itself.
//! - `laws`, `totals`, `progress`, `invariants`, `sums`: what holds of the
//!   states of the exchange.

pub mod types;
pub mod wide;
pub mod arith;
pub mod table;
pub mod price_list;
pub mod hashing;
pub mod tokens;
pub mod index;
pub mod market;
pub mod registry;
pub mod engine;
pub mod laws;
pub mod totals;
pub mod progress;
pub mod invariants;
pub mod sums;
