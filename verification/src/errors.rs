//! The error kinds a command can end with.

use vstd::prelude::*;

verus! {

/// Everything that can go wrong while running one command. The `String`
/// payloads carry the human-readable cause reported by the layer that
/// failed (file store, quote provider).
#[derive(Debug, PartialEq)]
pub enum StockoError {
    /// Writing the persisted store failed.
    SaveDataError(String),
    /// Reading or parsing the persisted store failed.
    ReadDataError(String),
    /// Fetching quote data from the provider failed.
    AlphaVantageError(String),
    /// The exchange code given on the command line is not a known venue.
    InvalidExchange,
    /// A sell asked for more shares than the portfolio holds for this
    /// symbol (or there is no such position at all).
    InvalidShareQuantity { symbol: String, shares: u32 },
}

/// An error is `InvalidShareQuantity` for this symbol and share count.
pub open spec fn is_invalid_share_quantity(e: StockoError, sym: Seq<char>, n: int) -> bool {
    &&& e matches StockoError::InvalidShareQuantity { symbol, shares } && symbol@ == sym
        && shares == n
}

} // verus!
