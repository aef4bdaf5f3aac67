//! Bybit: linear perpetuals.

use crate::decimal::format_int;
use crate::decimal::int_text;
use crate::decimal::parse_u64;
use crate::decimal::unsigned_of;
use crate::errors::ErrorView;
use crate::errors::ExchangeError;
use crate::exchanges::parse_rate;
use crate::exchanges::rate_of;
use crate::models::FundingRate;
use crate::models::FundingRateView;
use vstd::prelude::*;

verus! {

/// One record of the tickers answer.
#[derive(Debug, Clone)]
pub struct Ticker {
    pub symbol: String,
    pub funding_rate: String,
    pub next_funding_time: String,
}

/// The answer of the tickers request.
#[derive(Debug, Clone)]
pub struct TickersAnswer {
    /// The venue's result code; 0 stands for success.
    pub ret_code: i32,
    /// The records; one when the request names a symbol.
    pub list: Vec<Ticker>,
}

/// The mathematical content of a `Ticker`.
pub struct TickerView {
    pub symbol: Seq<char>,
    pub funding_rate: Seq<char>,
    pub next_funding_time: Seq<char>,
}

/// The mathematical content of a `TickersAnswer`.
pub struct TickersView {
    pub ret_code: int,
    pub list: Seq<TickerView>,
}

impl View for Ticker {
    type V = TickerView;

    open spec fn view(&self) -> TickerView {
        TickerView {
            symbol: self.symbol@,
            funding_rate: self.funding_rate@,
            next_funding_time: self.next_funding_time@,
        }
    }
}

impl View for TickersAnswer {
    type V = TickersView;

    open spec fn view(&self) -> TickersView {
        TickersView {
            ret_code: self.ret_code as int,
            list: self.list@.map_values(|t: Ticker| t@),
        }
    }
}

/// The address of the tickers request for `pair`.
pub open spec fn funding_url_of(pair: Seq<char>) -> Seq<char> {
    "https://api.bybit.com/v5/market/tickers?category=linear&symbol="@ + pair
}

/// The time stamp that a text writes, if it writes one.
pub open spec fn time_of(text: Seq<char>) -> Option<u64> {
    match unsigned_of(text) {
        Some(n) => if n <= u64::MAX {
            Some(n as u64)
        } else {
            None
        },
        None => None,
    }
}

/// The funding rate that a tickers answer for `pair` describes, or why it
/// describes none. The checks come in this order: the result code, the
/// presence of a record, the rate of the first record, its time stamp.
pub open spec fn funding_of(name: Seq<char>, pair: Seq<char>, answer: TickersView) -> Result<
    FundingRateView,
    ErrorView,
> {
    if answer.ret_code != 0 {
        Err(ErrorView::UnexpectedData("Bybit retCode: "@ + int_text(answer.ret_code)))
    } else if answer.list.len() == 0 {
        Err(ErrorView::UnexpectedData("Bybit returned empty list for "@ + pair))
    } else {
        let ticker = answer.list[0];
        match rate_of(ticker.funding_rate) {
            None => Err(ErrorView::UnexpectedData("invalid funding rate"@)),
            Some(rate) => match time_of(ticker.next_funding_time) {
                None => Err(ErrorView::UnexpectedData("invalid next funding time"@)),
                Some(time) => Ok(
                    FundingRateView {
                        exchange: name,
                        pair: ticker.symbol,
                        rate: rate as int,
                        next_funding_ms: time as nat,
                    },
                ),
            },
        }
    }
}

/// The venue.
#[derive(Debug, Clone, Copy)]
pub struct Bybit {}

impl Bybit {
    pub fn new() -> Bybit {
        Bybit {  }
    }

    /// The venue's identifier.
    pub fn name(&self) -> (r: &'static str)
        ensures
            r@ == "bybit"@,
    {
        "bybit"
    }

    /// The address of the tickers request for `pair`.
    pub fn funding_url(&self, pair: &str) -> (url: String)
        ensures
            url@ == funding_url_of(pair@),
    {
        "https://api.bybit.com/v5/market/tickers?category=linear&symbol=".to_owned().concat(pair)
    }

    /// Turns the answer of the tickers request for `pair` into the shared
    /// record. The venue reports its own failures in the result code, so an
    /// answer with another code than 0 is refused; so is one without a
    /// record, and one whose rate or time stamp is no number.
    pub fn funding_rate_from(&self, pair: &str, answer: &TickersAnswer) -> (r: Result<
        FundingRate,
        ExchangeError,
    >)
        ensures
            match r {
                Ok(rate) => funding_of("bybit"@, pair@, answer@) == Ok::<
                    FundingRateView,
                    ErrorView,
                >(rate@),
                Err(e) => funding_of("bybit"@, pair@, answer@) == Err::<FundingRateView, ErrorView>(
                    e@,
                ),
            },
    {
        if answer.ret_code != 0 {
            let cause = "Bybit retCode: ".to_owned().concat(
                format_int(answer.ret_code as i64).as_str(),
            );
            return Err(ExchangeError::UnexpectedData(cause));
        }
        if answer.list.len() == 0 {
            let cause = "Bybit returned empty list for ".to_owned().concat(pair);
            return Err(ExchangeError::UnexpectedData(cause));
        }
        let ticker = &answer.list[0];
        let rate = match parse_rate(ticker.funding_rate.as_str()) {
            Some(rate) => rate,
            None => {
                return Err(ExchangeError::unexpected("invalid funding rate"));
            },
        };
        let time = match parse_u64(ticker.next_funding_time.as_str()) {
            Some(time) => time,
            None => {
                return Err(ExchangeError::unexpected("invalid next funding time"));
            },
        };
        Ok(
            FundingRate {
                exchange: self.name(),
                pair: ticker.symbol.clone(),
                rate: rate,
                next_funding_ms: time,
            },
        )
    }
}

} // verus!
