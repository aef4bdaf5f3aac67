//! The answers of the query surface.

use crate::scoring::ExchangeScore;
use vstd::prelude::*;

verus! {

/// The answer to "all scores".
#[derive(Debug, Clone)]
pub struct ScoresResponse {
    pub scores: Vec<ExchangeScore>,
}

/// The answer to "the scores of one pair".
#[derive(Debug, Clone)]
pub struct PairScoresResponse {
    /// The pair that was asked for, in upper case.
    pub pair: String,
    /// The entries of that pair, in the order of the ranking.
    pub scores: Vec<ExchangeScore>,
}

} // verus!
