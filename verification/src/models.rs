//! Records that the adapters hand over besides order books.

use vstd::prelude::*;

verus! {

/// The funding rate of one pair on one venue, as fetched once.
#[derive(Debug, Clone)]
pub struct FundingRate {
    /// The venue's identifier.
    pub exchange: &'static str,
    /// The trading pair.
    pub pair: String,
    /// The rate as a fraction, in units of one hundred-millionth: 10000
    /// stands for 0.0001, that is 0.01%.
    pub rate: i64,
    /// When the next funding happens, in milliseconds since the epoch.
    pub next_funding_ms: u64,
}

/// The mathematical content of a `FundingRate`.
pub struct FundingRateView {
    pub exchange: Seq<char>,
    pub pair: Seq<char>,
    pub rate: int,
    pub next_funding_ms: nat,
}

impl View for FundingRate {
    type V = FundingRateView;

    open spec fn view(&self) -> FundingRateView {
        FundingRateView {
            exchange: self.exchange@,
            pair: self.pair@,
            rate: self.rate as int,
            next_funding_ms: self.next_funding_ms as nat,
        }
    }
}

} // verus!
