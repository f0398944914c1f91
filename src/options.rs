//! The plain enumerations of implied-volatility calculations.
use vstd::prelude::*;

verus! {

/// Call or put.
#[derive(Clone, Copy, Debug, PartialEq, Eq, Structural)]
pub enum OptionType {
    /// The right to buy the underlying at the strike.
    Call,
    /// The right to sell the underlying at the strike.
    Put,
}

/// Where the option price for an implied-volatility calculation comes from.
#[derive(Clone, Copy, Debug, PartialEq, Eq, Structural)]
pub enum PriceSource {
    /// `(best bid + best ask) / 2`.
    MidPrice,
    /// The best bid and ask weighted by the quantity at each.
    WeightedMid,
    /// The price of the book's last trade.
    LastTrade,
}

impl Default for PriceSource {
    /// The mid price.
    fn default() -> (r: PriceSource)
        ensures
            r == PriceSource::MidPrice,
    {
        PriceSource::MidPrice
    }
}

/// How much an implied volatility can be trusted, by the bid-ask spread it
/// was computed under.
#[derive(Clone, Copy, Debug, PartialEq, Eq, Structural)]
pub enum IVQuality {
    /// Spread under 100 bps.
    High,
    /// Spread from 100 to 500 bps.
    Medium,
    /// Spread over 500 bps.
    Low,
    /// Derived from neighbouring strikes.
    Interpolated,
}

} // verus!
