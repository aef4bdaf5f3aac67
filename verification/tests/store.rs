use arbiter::orderbook::OrderBook;
use arbiter::orderbook::OrderBookStore;
use std::collections::BTreeMap;

fn book(exchange: &'static str, pair: &str, bid: u64, ask: u64, at: u64) -> OrderBook {
    let mut bids: BTreeMap<u64, u64> = BTreeMap::new();
    bids.insert(bid, 1);
    let mut asks: BTreeMap<u64, u64> = BTreeMap::new();
    asks.insert(ask, 2);
    OrderBook { exchange: exchange, pair: pair.to_string(), bids: bids, asks: asks, updated_ms: at }
}

fn same(a: &OrderBook, b: &OrderBook) -> bool {
    a.exchange == b.exchange && a.pair == b.pair && a.bids == b.bids && a.asks == b.asks
        && a.updated_ms == b.updated_ms
}

#[test]
fn a_new_store_is_empty() {
    let store = OrderBookStore::new();
    assert!(store.all().is_empty());
    assert!(store.get("binance", "BTCUSDT").is_none());
}

#[test]
fn get_returns_what_update_wrote() {
    let mut store = OrderBookStore::new();
    let b = book("binance", "BTCUSDT", 100, 101, 5);
    store.update(b.clone());
    let got = store.get("binance", "BTCUSDT").expect("the book was written");
    assert!(same(&got, &b));
}

#[test]
fn get_of_a_name_never_written_is_none() {
    let mut store = OrderBookStore::new();
    store.update(book("binance", "BTCUSDT", 100, 101, 5));
    assert!(store.get("binance", "ETHUSDT").is_none());
    assert!(store.get("bybit", "BTCUSDT").is_none());
    assert!(store.get("binance", "btcusdt").is_none());
    assert!(store.get("", "").is_none());
}

#[test]
fn the_last_write_wins() {
    let mut store = OrderBookStore::new();
    store.update(book("binance", "BTCUSDT", 100, 101, 5));
    let later = book("binance", "BTCUSDT", 200, 202, 6);
    store.update(later.clone());
    let got = store.get("binance", "BTCUSDT").expect("the book was written");
    assert!(same(&got, &later));
    assert_eq!(store.all().len(), 1);
}

#[test]
fn a_snapshot_replaces_the_book_whole() {
    let mut store = OrderBookStore::new();
    let mut first = book("binance", "BTCUSDT", 100, 101, 5);
    first.bids.insert(90, 9);
    first.asks.insert(110, 9);
    store.update(first);
    let second = book("binance", "BTCUSDT", 95, 105, 6);
    store.update(second.clone());
    let got = store.get("binance", "BTCUSDT").expect("the book was written");
    assert_eq!(got.bids.len(), 1);
    assert_eq!(got.asks.len(), 1);
    assert!(same(&got, &second));
}

#[test]
fn a_write_leaves_the_other_books() {
    let mut store = OrderBookStore::new();
    let a = book("binance", "BTCUSDT", 100, 101, 5);
    let b = book("bybit", "BTCUSDT", 102, 103, 6);
    store.update(a.clone());
    store.update(b.clone());
    assert!(same(&store.get("binance", "BTCUSDT").expect("written"), &a));
    assert!(same(&store.get("bybit", "BTCUSDT").expect("written"), &b));
}

#[test]
fn writing_the_same_book_again_changes_nothing() {
    let mut store = OrderBookStore::new();
    let a = book("binance", "BTCUSDT", 100, 101, 5);
    let b = book("bybit", "ETHUSDT", 102, 103, 6);
    store.update(a.clone());
    store.update(b.clone());
    store.update(a.clone());
    store.update(a.clone());
    assert_eq!(store.all().len(), 2);
    assert!(same(&store.get("binance", "BTCUSDT").expect("written"), &a));
    assert!(same(&store.get("bybit", "ETHUSDT").expect("written"), &b));
}

#[test]
fn writes_under_distinct_names_are_all_kept() {
    let mut store = OrderBookStore::new();
    let pairs: Vec<String> = (0..50).map(|i: u32| format!("PAIR{}", i)).collect();
    for (i, pair) in pairs.iter().enumerate() {
        store.update(book("binance", pair, 100 + i as u64, 200 + i as u64, i as u64));
    }
    let all = store.all();
    assert_eq!(all.len(), 50);
    for (i, pair) in pairs.iter().enumerate() {
        let got = store.get("binance", pair).expect("written");
        assert_eq!(got.best_bid(), Some(100 + i as u64));
        assert_eq!(got.best_ask(), Some(200 + i as u64));
        assert_eq!(got.updated_ms, i as u64);
        assert_eq!(all.iter().filter(|b| &b.pair == pair).count(), 1);
    }
}

#[test]
fn all_lists_each_book_once() {
    let mut store = OrderBookStore::new();
    store.update(book("binance", "BTCUSDT", 100, 101, 1));
    store.update(book("binance", "ETHUSDT", 100, 101, 2));
    store.update(book("bybit", "BTCUSDT", 100, 101, 3));
    store.update(book("bybit", "BTCUSDT", 100, 101, 4));
    let mut names: Vec<(String, String)> =
        store.all().iter().map(|b| (b.exchange.to_string(), b.pair.clone())).collect();
    names.sort();
    assert_eq!(
        names,
        vec![
            ("binance".to_string(), "BTCUSDT".to_string()),
            ("binance".to_string(), "ETHUSDT".to_string()),
            ("bybit".to_string(), "BTCUSDT".to_string()),
        ]
    );
}

#[test]
fn a_name_is_the_exchange_and_the_pair_apart() {
    let mut store = OrderBookStore::new();
    let a = book("a:b", "c", 1, 2, 1);
    let b = book("a", "b:c", 3, 4, 2);
    store.update(a.clone());
    store.update(b.clone());
    assert_eq!(store.all().len(), 2);
    assert!(same(&store.get("a:b", "c").expect("written"), &a));
    assert!(same(&store.get("a", "b:c").expect("written"), &b));
}
