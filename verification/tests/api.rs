use arbiter::api::handlers::get_all_scores;
use arbiter::api::handlers::get_pair_scores;
use arbiter::api::handlers::health;
use arbiter::api::handlers::select_pair;
use arbiter::api::handlers::QueryError;
use arbiter::orderbook::OrderBook;
use arbiter::orderbook::OrderBookStore;
use arbiter::scoring::ExchangeScore;
use arbiter::scoring::ScoringEngine;
use std::collections::BTreeMap;

fn book(exchange: &'static str, pair: &str, bid: u64, ask: u64) -> OrderBook {
    let mut bids: BTreeMap<u64, u64> = BTreeMap::new();
    bids.insert(bid, 1);
    let mut asks: BTreeMap<u64, u64> = BTreeMap::new();
    asks.insert(ask, 1);
    OrderBook { exchange: exchange, pair: pair.to_string(), bids: bids, asks: asks, updated_ms: 0 }
}

fn filled() -> OrderBookStore {
    let mut store = OrderBookStore::new();
    store.update(book("binance", "BTCUSDT", 100, 103));
    store.update(book("bybit", "BTCUSDT", 100, 101));
    store.update(book("binance", "ETHUSDT", 100, 102));
    store
}

fn names(scores: &Vec<ExchangeScore>) -> Vec<(String, String)> {
    scores.iter().map(|s| (s.exchange.clone(), s.pair.clone())).collect()
}

fn name(exchange: &str, pair: &str) -> (String, String) {
    (exchange.to_string(), pair.to_string())
}

#[test]
fn health_is_ok() {
    assert_eq!(health(), "OK");
}

#[test]
fn get_all_scores_of_an_empty_store_is_an_empty_list() {
    let store = OrderBookStore::new();
    let engine = ScoringEngine::new(&store);
    assert!(get_all_scores(&engine).scores.is_empty());
}

#[test]
fn get_all_scores_is_the_ranking() {
    let store = filled();
    let engine = ScoringEngine::new(&store);
    assert_eq!(
        names(&get_all_scores(&engine).scores),
        vec![name("bybit", "BTCUSDT"), name("binance", "ETHUSDT"), name("binance", "BTCUSDT")]
    );
}

#[test]
fn get_pair_scores_keeps_the_order_of_the_ranking() {
    let store = filled();
    let engine = ScoringEngine::new(&store);
    let answer = get_pair_scores(&engine, "BTCUSDT").expect("the pair is ranked");
    assert_eq!(answer.pair, "BTCUSDT");
    assert_eq!(names(&answer.scores), vec![name("bybit", "BTCUSDT"), name("binance", "BTCUSDT")]);
}

#[test]
fn get_pair_scores_finds_a_pair_in_any_case() {
    let store = filled();
    let engine = ScoringEngine::new(&store);
    let upper = get_pair_scores(&engine, "BTCUSDT").expect("the pair is ranked");
    let lower = get_pair_scores(&engine, "btcusdt").expect("the pair is ranked");
    let mixed = get_pair_scores(&engine, "BtcUsdt").expect("the pair is ranked");
    assert_eq!(lower.pair, "BTCUSDT");
    assert_eq!(mixed.pair, "BTCUSDT");
    assert_eq!(names(&lower.scores), names(&upper.scores));
    assert_eq!(names(&mixed.scores), names(&upper.scores));
    assert_eq!(upper.scores.len(), 2);
}

#[test]
fn get_pair_scores_of_an_unknown_pair_is_not_found() {
    let store = filled();
    let engine = ScoringEngine::new(&store);
    assert!(matches!(get_pair_scores(&engine, "DOGEUSDT"), Err(QueryError::NotFound)));
    assert!(matches!(get_pair_scores(&engine, ""), Err(QueryError::NotFound)));
    assert!(matches!(get_pair_scores(&engine, "BTCUSDT "), Err(QueryError::NotFound)));
}

#[test]
fn get_pair_scores_of_an_empty_store_is_not_found() {
    let store = OrderBookStore::new();
    let engine = ScoringEngine::new(&store);
    assert!(matches!(get_pair_scores(&engine, "BTCUSDT"), Err(QueryError::NotFound)));
}

#[test]
fn get_pair_scores_of_a_pair_that_is_stored_and_not_scored_is_not_found() {
    let mut store = OrderBookStore::new();
    store.update(book("binance", "BTCUSDT", 105, 100));
    let engine = ScoringEngine::new(&store);
    assert!(matches!(get_pair_scores(&engine, "BTCUSDT"), Err(QueryError::NotFound)));
}

#[test]
fn select_pair_matches_the_stored_pair_exactly() {
    let mut store = OrderBookStore::new();
    store.update(book("binance", "btcusdt", 100, 101));
    store.update(book("binance", "BTCUSDT", 100, 102));
    let scores = ScoringEngine::new(&store).compute_scores();
    let answer = select_pair(scores, "btcusdt").expect("the upper-case pair is ranked");
    assert_eq!(answer.pair, "BTCUSDT");
    assert_eq!(answer.scores.len(), 1);
    assert_eq!(answer.scores[0].best_ask, 102);
}

#[test]
fn select_pair_of_no_scores_is_not_found() {
    let scores: Vec<ExchangeScore> = vec![];
    assert!(matches!(select_pair(scores, "BTCUSDT"), Err(QueryError::NotFound)));
}
