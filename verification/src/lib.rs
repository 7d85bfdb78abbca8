//! A verified core for a command-line stock portfolio tracker.
//!
//! The library keeps a store of positions (portfolio, watch list and
//! archive), aggregates each position's order ledger into cost and gain
//! metrics, applies buy/sell commands to the store, derives day-over-day
//! quote changes, and encodes/decodes the store to and from its persisted
//! JSON form. Money is carried in integer cents; exact fractions are
//! returned as numerator/denominator pairs.

pub mod model;
pub mod ledger;
pub mod errors;
pub mod lifecycle;
pub mod quotes;
pub mod codec;
pub mod report;
