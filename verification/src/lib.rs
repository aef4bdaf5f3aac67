//! Order-book monitoring core: the latest book of each venue and pair, and
//! the ranked spread opportunities derived from them.
//!
//! Venue adapters turn what a venue sends into an [`orderbook::OrderBook`]
//! and write it to the [`orderbook::OrderBookStore`], where it replaces the
//! book that the venue had for that pair. The [`scoring::ScoringEngine`]
//! reads the store and ranks the books by the tightness of their spread. The
//! functions in [`api`] answer the queries of a reader from that ranking.
//!
//! Connections, clocks and tasks are not in this library. It takes what was
//! received, already decoded, and says what follows from it: which book a
//! message describes, whether the reader of a stream goes on, what the store
//! holds after a write, which list answers a query.
//!
//! # Numbers
//!
//! Prices, quantities and rates are counts of units of one hundred-millionth
//! (see [`decimal`]), so that they are compared and subtracted exactly. The
//! derived figures, the spread in percent and the score, are fractions of
//! integers; in contracts they are real numbers, and the contracts state the
//! formulas as they are written on paper.
//!
//! # What is proved
//!
//! The functions have contracts that Verus checks against their bodies, and
//! none of them panics. What ties several functions together is stated in
//! proof functions whose names begin with `law_`: a book that was written is
//! the book that is read, writing a book twice is writing it once, books of
//! different names never replace each other, a store has exactly one
//! ranking, the ranking is sorted by score, and a pair is found under every
//! spelling of its case.
//!
//! A few items are believed, not proved: the calls into `dashmap` in
//! [`orderbook::store`], and four calls into the standard library in
//! [`text`]. Each says in its comment what it takes on trust.

pub mod api;
pub mod config;
pub mod decimal;
pub mod errors;
pub mod exchanges;
pub mod models;
pub mod orderbook;
pub mod scoring;
pub mod text;
