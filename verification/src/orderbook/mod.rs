//! The top-of-book view of one venue for one pair.

pub mod store;

pub use store::OrderBookStore;

use std::collections::BTreeMap;
use vstd::prelude::*;

verus! {

/// The highest price that the adapters accept and the scoring works with:
/// ten thousand million, in units of one hundred-millionth. Up to it the
/// scores, which are held as fractions of 128-bit integers, are exact.
pub const MAX_PRICE: u64 = 1_000_000_000_000_000_000;

/// One venue's book for one pair at one instant. A snapshot replaces the
/// one before it whole; it is never merged into it.
///
/// Prices and quantities are counts of units of one hundred-millionth (see
/// `crate::decimal`). Each side maps a price to the quantity offered at it.
#[derive(Debug, Clone)]
pub struct OrderBook {
    /// The venue's identifier.
    pub exchange: &'static str,
    /// The trading pair, in upper case.
    pub pair: String,
    /// Price to quantity on the buying side.
    pub bids: BTreeMap<u64, u64>,
    /// Price to quantity on the selling side.
    pub asks: BTreeMap<u64, u64>,
    /// The venue's time stamp of the event, in milliseconds.
    pub updated_ms: u64,
}

/// The mathematical content of an `OrderBook`.
pub struct BookView {
    pub exchange: Seq<char>,
    pub pair: Seq<char>,
    pub bids: Map<u64, u64>,
    pub asks: Map<u64, u64>,
    pub updated_ms: u64,
}

impl View for OrderBook {
    type V = BookView;

    open spec fn view(&self) -> BookView {
        BookView {
            exchange: self.exchange@,
            pair: self.pair@,
            bids: self.bids@,
            asks: self.asks@,
            updated_ms: self.updated_ms,
        }
    }
}

/// `p` is a price of `side` and no price of `side` is above it.
pub open spec fn is_highest(side: Map<u64, u64>, p: u64) -> bool {
    side.contains_key(p) && forall|k: u64| side.contains_key(k) ==> k <= p
}

/// `p` is a price of `side` and no price of `side` is below it.
pub open spec fn is_lowest(side: Map<u64, u64>, p: u64) -> bool {
    side.contains_key(p) && forall|k: u64| side.contains_key(k) ==> p <= k
}

/// The highest price of a side, if the side has one.
pub open spec fn highest(side: Map<u64, u64>) -> Option<u64> {
    if exists|p: u64| is_highest(side, p) {
        Some(choose|p: u64| is_highest(side, p))
    } else {
        None
    }
}

/// The lowest price of a side, if the side has one.
pub open spec fn lowest(side: Map<u64, u64>) -> Option<u64> {
    if exists|p: u64| is_lowest(side, p) {
        Some(choose|p: u64| is_lowest(side, p))
    } else {
        None
    }
}

/// A side has at most one highest price, so `highest` is that price.
pub proof fn lemma_highest_is(side: Map<u64, u64>, p: u64)
    requires
        is_highest(side, p),
    ensures
        highest(side) == Some(p),
{
    let q = choose|q: u64| is_highest(side, q);
    assert(is_highest(side, q));
}

/// A side has at most one lowest price, so `lowest` is that price.
pub proof fn lemma_lowest_is(side: Map<u64, u64>, p: u64)
    requires
        is_lowest(side, p),
    ensures
        lowest(side) == Some(p),
{
    let q = choose|q: u64| is_lowest(side, q);
    assert(is_lowest(side, q));
}

impl BookView {
    /// The highest price at which somebody buys.
    pub open spec fn best_bid(self) -> Option<u64> {
        highest(self.bids)
    }

    /// The lowest price at which somebody sells.
    pub open spec fn best_ask(self) -> Option<u64> {
        lowest(self.asks)
    }

    /// The best ask less the best bid, where both sides have a price. It is
    /// negative for a crossed book.
    pub open spec fn spread(self) -> Option<int> {
        match (self.best_ask(), self.best_bid()) {
            (Some(ask), Some(bid)) => Some(ask - bid),
            _ => None,
        }
    }
}

/// The highest key of `side`.
fn highest_key(side: &BTreeMap<u64, u64>) -> (r: Option<u64>)
    ensures
        r == highest(side@),
{
    let mut best: Option<u64> = None;
    for k in it: side.keys()
        invariant
            it.seq().unref().to_set() == side@.dom(),
            match best {
                Some(p) => side@.contains_key(p) && forall|j: int|
                    0 <= j < it.index() ==> *#[trigger] it.seq()[j] <= p,
                None => it.index() == 0,
            },
            it.index() == it.seq().len() ==> best == highest(side@),
    {
        proof {
            let keys = it.seq().unref();
            assert(keys[it.index() as int] == *k);
            assert(keys.to_set().contains(*k));
        }
        best =
        match best {
            Some(p) => if *k > p {
                Some(*k)
            } else {
                Some(p)
            },
            None => Some(*k),
        };
        proof {
            let keys = it.seq().unref();
            let p = best->0;
            assert forall|x: u64|
                it.index() + 1 == it.seq().len() && side@.contains_key(x) implies x <= p by {
                assert(keys.to_set().contains(x));
                let j = choose|j: int| 0 <= j < keys.len() && keys[j] == x;
                assert(*it.seq()[j] <= p);
            }
            assert(it.index() + 1 == it.seq().len() ==> is_highest(side@, p));
            if is_highest(side@, p) {
                lemma_highest_is(side@, p);
            }
        }
    }
    best
}

/// The lowest key of `side`.
fn lowest_key(side: &BTreeMap<u64, u64>) -> (r: Option<u64>)
    ensures
        r == lowest(side@),
{
    let mut best: Option<u64> = None;
    for k in it: side.keys()
        invariant
            it.seq().unref().to_set() == side@.dom(),
            match best {
                Some(p) => side@.contains_key(p) && forall|j: int|
                    0 <= j < it.index() ==> p <= *#[trigger] it.seq()[j],
                None => it.index() == 0,
            },
            it.index() == it.seq().len() ==> best == lowest(side@),
    {
        proof {
            let keys = it.seq().unref();
            assert(keys[it.index() as int] == *k);
            assert(keys.to_set().contains(*k));
        }
        best =
        match best {
            Some(p) => if *k < p {
                Some(*k)
            } else {
                Some(p)
            },
            None => Some(*k),
        };
        proof {
            let keys = it.seq().unref();
            let p = best->0;
            assert forall|x: u64|
                it.index() + 1 == it.seq().len() && side@.contains_key(x) implies p <= x by {
                assert(keys.to_set().contains(x));
                let j = choose|j: int| 0 <= j < keys.len() && keys[j] == x;
                assert(p <= *it.seq()[j]);
            }
            assert(it.index() + 1 == it.seq().len() ==> is_lowest(side@, p));
            if is_lowest(side@, p) {
                lemma_lowest_is(side@, p);
            }
        }
    }
    best
}

impl OrderBook {
    /// The highest bid: the best price that a buyer pays. `None` when
    /// nobody bids.
    pub fn best_bid(&self) -> (r: Option<u64>)
        ensures
            r == self@.best_bid(),
    {
        highest_key(&self.bids)
    }

    /// The lowest ask: the best price that a seller accepts. `None` when
    /// nobody asks.
    pub fn best_ask(&self) -> (r: Option<u64>)
        ensures
            r == self@.best_ask(),
    {
        lowest_key(&self.asks)
    }

    /// The best ask less the best bid, in units. `None` when a side is
    /// empty.
    pub fn spread(&self) -> (r: Option<i128>)
        ensures
            match r {
                Some(d) => self@.spread() == Some(d as int),
                None => self@.spread() is None,
            },
    {
        match (self.best_ask(), self.best_bid()) {
            (Some(ask), Some(bid)) => Some(ask as i128 - bid as i128),
            _ => None,
        }
    }
}

} // verus!
