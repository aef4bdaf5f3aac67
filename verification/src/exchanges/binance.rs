//! Binance: perpetual futures.

use crate::config::Config;
use crate::errors::ErrorView;
use crate::errors::ExchangeError;
use crate::exchanges::parse_price;
use crate::exchanges::parse_quantity;
use crate::exchanges::parse_rate;
use crate::exchanges::price_of;
use crate::exchanges::quantity_of;
use crate::exchanges::rate_of;
use crate::models::FundingRate;
use crate::models::FundingRateView;
use crate::orderbook::is_highest;
use crate::orderbook::is_lowest;
use crate::orderbook::store::put;
use crate::orderbook::BookView;
use crate::orderbook::MAX_PRICE;
use crate::orderbook::OrderBook;
use crate::orderbook::OrderBookStore;
use crate::scoring::scorable;
use crate::text::lowercase_of;
use crate::text::to_lower;
use std::collections::BTreeMap;
use vstd::prelude::*;

verus! {

/// One level of a depth message: a price and the quantity offered at it,
/// both as the venue wrote them.
#[derive(Debug, Clone)]
pub struct DepthLevel {
    pub price: String,
    pub qty: String,
}

/// The payload of one depth message.
#[derive(Debug, Clone)]
pub struct DepthData {
    /// The venue's time stamp of the event, in milliseconds.
    pub event_time: u64,
    /// The trading pair.
    pub symbol: String,
    /// The buying side, level by level.
    pub bids: Vec<DepthLevel>,
    /// The selling side, level by level.
    pub asks: Vec<DepthLevel>,
}

/// The answer of the premium-index request.
#[derive(Debug, Clone)]
pub struct PremiumIndex {
    pub symbol: String,
    pub last_funding_rate: String,
    pub next_funding_time: u64,
}

/// The mathematical content of a `DepthLevel`.
pub struct LevelView {
    pub price: Seq<char>,
    pub qty: Seq<char>,
}

/// The mathematical content of a `DepthData`.
pub struct DepthView {
    pub event_time: u64,
    pub symbol: Seq<char>,
    pub bids: Seq<LevelView>,
    pub asks: Seq<LevelView>,
}

/// The mathematical content of a `PremiumIndex`.
pub struct PremiumIndexView {
    pub symbol: Seq<char>,
    pub last_funding_rate: Seq<char>,
    pub next_funding_time: u64,
}

impl View for DepthLevel {
    type V = LevelView;

    open spec fn view(&self) -> LevelView {
        LevelView { price: self.price@, qty: self.qty@ }
    }
}

/// The mathematical contents of a list of levels.
pub open spec fn level_views(levels: Seq<DepthLevel>) -> Seq<LevelView> {
    levels.map_values(|l: DepthLevel| l@)
}

impl View for DepthData {
    type V = DepthView;

    open spec fn view(&self) -> DepthView {
        DepthView {
            event_time: self.event_time,
            symbol: self.symbol@,
            bids: level_views(self.bids@),
            asks: level_views(self.asks@),
        }
    }
}

impl View for PremiumIndex {
    type V = PremiumIndexView;

    open spec fn view(&self) -> PremiumIndexView {
        PremiumIndexView {
            symbol: self.symbol@,
            last_funding_rate: self.last_funding_rate@,
            next_funding_time: self.next_funding_time,
        }
    }
}

/// Which field of a level cannot be used.
pub enum LevelFault {
    Price,
    Quantity,
}

/// The price and quantity that a level writes, or the first of its fields
/// that writes none.
pub open spec fn level_of(level: LevelView) -> Result<(u64, u64), LevelFault> {
    match price_of(level.price) {
        None => Err(LevelFault::Price),
        Some(p) => match quantity_of(level.qty) {
            None => Err(LevelFault::Quantity),
            Some(q) => Ok((p, q)),
        },
    }
}

/// The side that a list of levels describes: each level's quantity at its
/// price, a later level replacing an earlier one at the same price. Where a
/// level cannot be used, the fault of the first such level.
pub open spec fn side_of(levels: Seq<LevelView>) -> Result<Map<u64, u64>, LevelFault>
    decreases levels.len(),
{
    if levels.len() == 0 {
        Ok(Map::empty())
    } else {
        match side_of(levels.drop_last()) {
            Err(fault) => Err(fault),
            Ok(side) => match level_of(levels.last()) {
                Err(fault) => Err(fault),
                Ok((p, q)) => Ok(side.insert(p, q)),
            },
        }
    }
}

/// The book that a depth message describes, or why it describes none. The
/// buying side is read first.
pub open spec fn book_of(name: Seq<char>, data: DepthView) -> Result<BookView, ErrorView> {
    match side_of(data.bids) {
        Err(LevelFault::Price) => Err(ErrorView::UnexpectedData("invalid bid price"@)),
        Err(LevelFault::Quantity) => Err(ErrorView::UnexpectedData("invalid bid quantity"@)),
        Ok(bids) => match side_of(data.asks) {
            Err(LevelFault::Price) => Err(ErrorView::UnexpectedData("invalid ask price"@)),
            Err(LevelFault::Quantity) => Err(ErrorView::UnexpectedData("invalid ask quantity"@)),
            Ok(asks) => Ok(
                BookView {
                    exchange: name,
                    pair: data.symbol,
                    bids: bids,
                    asks: asks,
                    updated_ms: data.event_time,
                },
            ),
        },
    }
}

/// Every price of a side that was read from levels is positive and at most
/// `MAX_PRICE`.
pub proof fn lemma_side_prices_valid(levels: Seq<LevelView>)
    requires
        side_of(levels) is Ok,
    ensures
        forall|p: u64| #[trigger] side_of(levels)->Ok_0.contains_key(p) ==> 0 < p <= MAX_PRICE,
    decreases levels.len(),
{
    if levels.len() > 0 {
        lemma_side_prices_valid(levels.drop_last());
    }
}

/// A book that was built from a depth message is scored exactly when both of
/// its sides have a price and the best bid is below the best ask: its prices
/// are always within the range of the scoring.
pub proof fn law_built_book_is_in_range(name: Seq<char>, data: DepthView)
    requires
        book_of(name, data) is Ok,
    ensures
        scorable(book_of(name, data)->Ok_0) <==> match (
            book_of(name, data)->Ok_0.best_bid(),
            book_of(name, data)->Ok_0.best_ask(),
        ) {
            (Some(bid), Some(ask)) => bid < ask,
            _ => false,
        },
{
    let book = book_of(name, data)->Ok_0;
    lemma_side_prices_valid(data.bids);
    lemma_side_prices_valid(data.asks);
    if book.best_bid() is Some && book.best_ask() is Some {
        let bid = choose|p: u64| is_highest(book.bids, p);
        let ask = choose|p: u64| is_lowest(book.asks, p);
        assert(book.bids.contains_key(bid));
        assert(book.asks.contains_key(ask));
    }
}

/// Reads one side of a depth message.
fn read_side(levels: &Vec<DepthLevel>) -> (r: Result<BTreeMap<u64, u64>, LevelFault>)
    ensures
        match r {
            Ok(side) => side_of(level_views(levels@)) == Ok::<Map<u64, u64>, LevelFault>(side@),
            Err(fault) => side_of(level_views(levels@)) == Err::<Map<u64, u64>, LevelFault>(fault),
        },
{
    let ghost all = level_views(levels@);
    let mut side: BTreeMap<u64, u64> = BTreeMap::new();
    let mut i: usize = 0;
    proof {
        assert(all.take(0) =~= Seq::<LevelView>::empty());
    }
    while i < levels.len()
        invariant
            i <= levels.len(),
            all == level_views(levels@),
            side_of(all.take(i as int)) == Ok::<Map<u64, u64>, LevelFault>(side@),
        decreases levels.len() - i,
    {
        let level = &levels[i];
        proof {
            assert(all.take(i + 1).drop_last() == all.take(i as int));
            assert(all.take(i + 1).last() == levels@[i as int]@);
            lemma_side_fault_stays(all, i + 1);
        }
        let price = match parse_price(level.price.as_str()) {
            Some(p) => p,
            None => {
                return Err(LevelFault::Price);
            },
        };
        let qty = match parse_quantity(level.qty.as_str()) {
            Some(q) => q,
            None => {
                return Err(LevelFault::Quantity);
            },
        };
        side.insert(price, qty);
        i = i + 1;
    }
    assert(all.take(levels.len() as int) == all);
    Ok(side)
}

/// A fault among the first levels is the fault of the whole list.
proof fn lemma_side_fault_stays(levels: Seq<LevelView>, k: int)
    requires
        0 <= k <= levels.len(),
    ensures
        side_of(levels.take(k)) is Err ==> side_of(levels) == side_of(levels.take(k)),
    decreases levels.len(),
{
    if k < levels.len() {
        assert(levels.drop_last().take(k) == levels.take(k));
        lemma_side_fault_stays(levels.drop_last(), k);
    } else {
        assert(levels.take(k) == levels);
    }
}

/// Builds the book that a depth message describes. The message is refused
/// as a whole when one of its prices or quantities is no valid number; the
/// error names the first such field, bids before asks.
pub fn book_from_depth(name: &'static str, data: &DepthData) -> (r: Result<
    OrderBook,
    ExchangeError,
>)
    ensures
        match r {
            Ok(book) => book_of(name@, data@) == Ok::<BookView, ErrorView>(book@),
            Err(e) => book_of(name@, data@) == Err::<BookView, ErrorView>(e@),
        },
{
    let bids = match read_side(&data.bids) {
        Ok(side) => side,
        Err(LevelFault::Price) => {
            return Err(ExchangeError::unexpected("invalid bid price"));
        },
        Err(LevelFault::Quantity) => {
            return Err(ExchangeError::unexpected("invalid bid quantity"));
        },
    };
    let asks = match read_side(&data.asks) {
        Ok(side) => side,
        Err(LevelFault::Price) => {
            return Err(ExchangeError::unexpected("invalid ask price"));
        },
        Err(LevelFault::Quantity) => {
            return Err(ExchangeError::unexpected("invalid ask quantity"));
        },
    };
    Ok(
        OrderBook {
            exchange: name,
            pair: data.symbol.clone(),
            bids: bids,
            asks: asks,
            updated_ms: data.event_time,
        },
    )
}

/// What the reader of a depth stream has just seen.
#[derive(Debug, Clone)]
pub enum StreamEvent {
    /// A text message that decoded as a depth message.
    Depth(DepthData),
    /// A text message that did not decode; the text says why.
    Undecodable(String),
    /// A message that is not text.
    Other,
    /// The connection could not be made, or reading from it failed; the text
    /// says why.
    Failed(String),
    /// The stream has ended.
    Closed,
}

/// What the reader of a depth stream does next.
#[derive(Debug, Clone)]
pub enum StreamStep {
    /// Put the book into the store, then read on.
    Store(OrderBook),
    /// Drop the message, report the error, then read on.
    Skip(ExchangeError),
    /// Read on.
    Continue,
    /// Stop reading and end with the error.
    Fail(ExchangeError),
    /// Stop reading; the stream was closed.
    Finish,
}

/// The address of the depth stream of `pair`, which is given in lower case.
pub open spec fn stream_url_of(pair: Seq<char>) -> Seq<char> {
    "wss://fstream.binance.com/ws/"@ + pair + "@depth20@100ms"@
}

/// The address of the premium-index request for `pair`.
pub open spec fn funding_url_of(pair: Seq<char>) -> Seq<char> {
    "https://fapi.binance.com/fapi/v1/premiumIndex?symbol="@ + pair
}

/// The funding rate that a premium-index answer describes, or why it
/// describes none.
pub open spec fn funding_of(name: Seq<char>, answer: PremiumIndexView) -> Result<
    FundingRateView,
    ErrorView,
> {
    match rate_of(answer.last_funding_rate) {
        Some(rate) => Ok(
            FundingRateView {
                exchange: name,
                pair: answer.symbol,
                rate: rate as int,
                next_funding_ms: answer.next_funding_time as nat,
            },
        ),
        None => Err(ErrorView::UnexpectedData("invalid funding rate"@)),
    }
}

/// The address of the depth stream of `pair`, which is given in lower case.
pub fn stream_url(pair: &str) -> (url: String)
    ensures
        url@ == stream_url_of(pair@),
{
    "wss://fstream.binance.com/ws/".to_owned().concat(pair).concat("@depth20@100ms")
}

/// Decides what the reader of a depth stream does with what it has just
/// seen. A depth message becomes a book to store. A message that cannot be
/// decoded, or that holds a price or quantity that is no valid number, is
/// skipped as a whole and reading goes on. A transport failure ends the
/// reading with an error; the end of the stream ends it without one.
pub fn stream_step(name: &'static str, event: StreamEvent) -> (step: StreamStep)
    ensures
        match event {
            StreamEvent::Depth(data) => match book_of(name@, data@) {
                Ok(b) => step matches StreamStep::Store(book) && book@ == b,
                Err(e) => step matches StreamStep::Skip(err) && err@ == e,
            },
            StreamEvent::Undecodable(why) => step matches StreamStep::Skip(err) && err@
                == ErrorView::Parse(why@),
            StreamEvent::Other => step is Continue,
            StreamEvent::Failed(why) => step matches StreamStep::Fail(err) && err@
                == ErrorView::WebSocket(why@),
            StreamEvent::Closed => step is Finish,
        },
{
    match event {
        StreamEvent::Depth(data) => match book_from_depth(name, &data) {
            Ok(book) => StreamStep::Store(book),
            Err(e) => StreamStep::Skip(e),
        },
        StreamEvent::Undecodable(why) => StreamStep::Skip(ExchangeError::Parse(why)),
        StreamEvent::Other => StreamStep::Continue,
        StreamEvent::Failed(why) => StreamStep::Fail(ExchangeError::WebSocket(why)),
        StreamEvent::Closed => StreamStep::Finish,
    }
}

/// What the reader of a depth stream has done with what it had seen.
#[derive(Debug, Clone)]
pub enum StreamOutcome {
    /// The book of `pair` was written to the store, with so many bids and
    /// asks. Reading goes on.
    Stored { pair: String, bids: usize, asks: usize },
    /// The message was dropped for the reason given. Reading goes on.
    Skipped(ExchangeError),
    /// There was nothing to do. Reading goes on.
    Ignored,
    /// Reading ends with the error.
    Failed(ExchangeError),
    /// Reading ends; the stream was closed.
    Closed,
}

impl StreamOutcome {
    /// Whether the reader reads on. It stops only when the transport has
    /// failed or the stream is closed, never for a message.
    pub open spec fn reads_on(self) -> bool {
        self is Stored || self is Skipped || self is Ignored
    }
}

/// Takes one event of a depth stream and carries out what `stream_step`
/// decides. The store changes only for a depth message that is valid as a
/// whole: its book replaces the book of its exchange and pair. Any other
/// event, a malformed message among them, leaves the store as it was.
pub fn apply_event(store: &mut OrderBookStore, name: &'static str, event: StreamEvent) -> (done:
    StreamOutcome)
    requires
        old(store).wf(),
    ensures
        final(store).wf(),
        done.reads_on() <==> !(event is Failed || event is Closed),
        match event {
            StreamEvent::Depth(data) => match book_of(name@, data@) {
                Ok(b) => {
                    &&& final(store)@ == put(old(store)@, b)
                    &&& done matches StreamOutcome::Stored { pair, bids, asks }
                    &&& pair@ == b.pair
                    &&& bids == b.bids.dom().len()
                    &&& asks == b.asks.dom().len()
                },
                Err(e) => {
                    &&& final(store)@ == old(store)@
                    &&& done matches StreamOutcome::Skipped(err)
                    &&& err@ == e
                },
            },
            StreamEvent::Undecodable(why) => {
                &&& final(store)@ == old(store)@
                &&& done matches StreamOutcome::Skipped(err)
                &&& err@ == ErrorView::Parse(why@)
            },
            StreamEvent::Other => final(store)@ == old(store)@ && done is Ignored,
            StreamEvent::Failed(why) => {
                &&& final(store)@ == old(store)@
                &&& done matches StreamOutcome::Failed(err)
                &&& err@ == ErrorView::WebSocket(why@)
            },
            StreamEvent::Closed => final(store)@ == old(store)@ && done is Closed,
        },
{
    match stream_step(name, event) {
        StreamStep::Store(book) => {
            let pair = book.pair.clone();
            let bids = book.bids.len();
            let asks = book.asks.len();
            store.update(book);
            StreamOutcome::Stored { pair: pair, bids: bids, asks: asks }
        },
        StreamStep::Skip(e) => StreamOutcome::Skipped(e),
        StreamStep::Continue => StreamOutcome::Ignored,
        StreamStep::Fail(e) => StreamOutcome::Failed(e),
        StreamStep::Finish => StreamOutcome::Closed,
    }
}

/// The venue.
#[derive(Debug, Clone, Copy)]
pub struct Binance {}

impl Binance {
    pub fn new() -> Binance {
        Binance {  }
    }

    /// The venue's identifier.
    pub fn name(&self) -> (r: &'static str)
        ensures
            r@ == "binance"@,
    {
        "binance"
    }

    /// The address of the premium-index request for `pair`.
    pub fn funding_url(&self, pair: &str) -> (url: String)
        ensures
            url@ == funding_url_of(pair@),
    {
        "https://fapi.binance.com/fapi/v1/premiumIndex?symbol=".to_owned().concat(pair)
    }

    /// Turns the answer of the premium-index request into the shared record.
    /// The answer is refused when its rate is no number.
    pub fn funding_rate_from(&self, answer: &PremiumIndex) -> (r: Result<
        FundingRate,
        ExchangeError,
    >)
        ensures
            match r {
                Ok(rate) => funding_of("binance"@, answer@) == Ok::<FundingRateView, ErrorView>(
                    rate@,
                ),
                Err(e) => funding_of("binance"@, answer@) == Err::<FundingRateView, ErrorView>(e@),
            },
    {
        match parse_rate(answer.last_funding_rate.as_str()) {
            Some(rate) => Ok(
                FundingRate {
                    exchange: self.name(),
                    pair: answer.symbol.clone(),
                    rate: rate,
                    next_funding_ms: answer.next_funding_time,
                },
            ),
            None => Err(ExchangeError::unexpected("invalid funding rate")),
        }
    }

    /// The names of the depth streams to open, one for each configured pair
    /// and in the same order: the pair in lower case.
    pub fn stream_pairs(&self, config: &Config) -> (names: Vec<String>)
        ensures
            names@.map_values(|n: String| n@) == config@.pairs.map_values(
                |p: Seq<char>| lowercase_of(p),
            ),
    {
        let mut names: Vec<String> = Vec::new();
        let mut i: usize = 0;
        while i < config.pairs.len()
            invariant
                i <= config.pairs.len(),
                names@.len() == i,
                forall|j: int|
                    0 <= j < i ==> (#[trigger] names@[j])@ == lowercase_of(config.pairs@[j]@),
            decreases config.pairs.len() - i,
        {
            names.push(to_lower(config.pairs[i].as_str()));
            i = i + 1;
        }
        assert(names@.map_values(|n: String| n@) =~= config@.pairs.map_values(
            |p: Seq<char>| lowercase_of(p),
        ));
        names
    }
}

} // verus!
