use arbiter::orderbook::OrderBook;
use arbiter::orderbook::OrderBookStore;
use arbiter::orderbook::MAX_PRICE;
use arbiter::scoring::rank_books;
use arbiter::scoring::ratio::Ratio;
use arbiter::scoring::score_book;
use arbiter::scoring::ExchangeScore;
use arbiter::scoring::ScoringEngine;
use std::collections::BTreeMap;

fn book(exchange: &'static str, pair: &str, bids: Vec<u64>, asks: Vec<u64>) -> OrderBook {
    let mut b: BTreeMap<u64, u64> = BTreeMap::new();
    for p in bids {
        b.insert(p, 1);
    }
    let mut a: BTreeMap<u64, u64> = BTreeMap::new();
    for p in asks {
        a.insert(p, 1);
    }
    OrderBook { exchange: exchange, pair: pair.to_string(), bids: b, asks: a, updated_ms: 0 }
}

fn is(r: Ratio, num: i128, den: i128) -> bool {
    r.den > 0 && den > 0 && r.num * den == num * r.den
}

fn names(scores: &Vec<ExchangeScore>) -> Vec<(String, String)> {
    scores.iter().map(|s| (s.exchange.clone(), s.pair.clone())).collect()
}

fn name(exchange: &str, pair: &str) -> (String, String) {
    (exchange.to_string(), pair.to_string())
}

#[test]
fn score_book_gives_the_exact_figures() {
    let b = book("binance", "BTCUSDT", vec![10_000_000_000], vec![10_010_000_000]);
    let s = score_book(&b).expect("both sides have a price");
    assert_eq!(s.exchange, "binance");
    assert_eq!(s.pair, "BTCUSDT");
    assert_eq!(s.best_bid, 10_000_000_000);
    assert_eq!(s.best_ask, 10_010_000_000);
    assert!(is(s.spread_pct, 1, 10));
    assert!(is(s.score, 9_999, 10));
}

#[test]
fn score_book_at_a_spread_of_ten_percent_scores_zero() {
    let b = book("binance", "X", vec![100], vec![110]);
    let s = score_book(&b).expect("both sides have a price");
    assert!(is(s.spread_pct, 10, 1));
    assert!(is(s.score, 0, 1));
}

#[test]
fn score_book_of_a_wide_spread_is_negative() {
    let b = book("binance", "X", vec![100], vec![200]);
    let s = score_book(&b).expect("both sides have a price");
    assert!(is(s.spread_pct, 100, 1));
    assert!(is(s.score, -99, 1));
}

#[test]
fn score_book_uses_the_best_prices() {
    let b = book("binance", "X", vec![50, 80, 100], vec![125, 150, 300]);
    let s = score_book(&b).expect("both sides have a price");
    assert_eq!(s.best_bid, 100);
    assert_eq!(s.best_ask, 125);
    assert!(is(s.spread_pct, 25, 1));
    assert!(is(s.score, 4 - 25, 1));
}

#[test]
fn score_book_leaves_out_a_book_without_a_side() {
    assert!(score_book(&book("binance", "X", vec![], vec![110])).is_none());
    assert!(score_book(&book("binance", "X", vec![100], vec![])).is_none());
    assert!(score_book(&book("binance", "X", vec![], vec![])).is_none());
}

#[test]
fn score_book_leaves_out_a_crossed_or_locked_book() {
    assert!(score_book(&book("binance", "X", vec![110], vec![100])).is_none());
    assert!(score_book(&book("binance", "X", vec![100], vec![100])).is_none());
}

#[test]
fn score_book_leaves_out_a_bid_of_zero() {
    assert!(score_book(&book("binance", "X", vec![0], vec![100])).is_none());
}

#[test]
fn score_book_works_up_to_the_highest_price() {
    let top = book("binance", "X", vec![1], vec![MAX_PRICE]);
    let s = score_book(&top).expect("within the range");
    assert_eq!(s.spread_pct.num, 100 * (MAX_PRICE as i128 - 1));
    assert_eq!(s.spread_pct.den, 1);
    let d: i128 = MAX_PRICE as i128 - 1;
    assert_eq!(s.score.num, 1 - 100 * d * d);
    assert_eq!(s.score.den, d);
    let near = book("binance", "X", vec![MAX_PRICE - 1], vec![MAX_PRICE]);
    let t = score_book(&near).expect("within the range");
    assert!(is(t.spread_pct, 100, MAX_PRICE as i128 - 1));
    assert!(score_book(&book("binance", "X", vec![1], vec![MAX_PRICE + 1])).is_none());
}

#[test]
fn rank_books_puts_the_best_score_first() {
    let books = vec![
        book("a", "WIDE", vec![100], vec![150]),
        book("a", "TIGHT", vec![1000], vec![1001]),
        book("a", "MID", vec![100], vec![105]),
    ];
    let scores = rank_books(&books);
    assert_eq!(names(&scores), vec![name("a", "TIGHT"), name("a", "MID"), name("a", "WIDE")]);
}

#[test]
fn rank_books_is_sorted_by_score() {
    let books = vec![
        book("a", "P1", vec![100], vec![103]),
        book("a", "P2", vec![100], vec![101]),
        book("a", "P3", vec![100], vec![190]),
        book("a", "P4", vec![100], vec![102]),
        book("a", "P5", vec![100], vec![110]),
        book("a", "P6", vec![200], vec![202]),
    ];
    let scores = rank_books(&books);
    assert_eq!(scores.len(), 6);
    for w in scores.windows(2) {
        assert!(w[0].score.num * w[1].score.den >= w[1].score.num * w[0].score.den);
    }
}

#[test]
fn rank_books_breaks_ties_by_exchange_then_pair() {
    let books = vec![
        book("bybit", "ETHUSDT", vec![100], vec![101]),
        book("binance", "ETHUSDT", vec![200], vec![202]),
        book("bybit", "BTCUSDT", vec![300], vec![303]),
        book("binance", "BTCUSDT", vec![1000], vec![1010]),
    ];
    let expected = vec![
        name("binance", "BTCUSDT"),
        name("binance", "ETHUSDT"),
        name("bybit", "BTCUSDT"),
        name("bybit", "ETHUSDT"),
    ];
    assert_eq!(names(&rank_books(&books)), expected);
    let mut reversed = books.clone();
    reversed.reverse();
    assert_eq!(names(&rank_books(&reversed)), expected);
}

#[test]
fn rank_books_leaves_out_what_is_not_scored() {
    let books = vec![
        book("a", "NOBIDS", vec![], vec![101]),
        book("a", "OK", vec![100], vec![101]),
        book("a", "NOASKS", vec![100], vec![]),
        book("a", "CROSSED", vec![102], vec![101]),
        book("a", "EMPTY", vec![], vec![]),
    ];
    assert_eq!(names(&rank_books(&books)), vec![name("a", "OK")]);
}

#[test]
fn rank_books_of_nothing_is_empty() {
    let books: Vec<OrderBook> = vec![];
    assert!(rank_books(&books).is_empty());
}

#[test]
fn rank_books_keeps_equal_books() {
    let books = vec![
        book("a", "X", vec![100], vec![101]),
        book("a", "X", vec![100], vec![101]),
    ];
    assert_eq!(rank_books(&books).len(), 2);
}

#[test]
fn compute_scores_of_an_empty_store_is_empty() {
    let store = OrderBookStore::new();
    let engine = ScoringEngine::new(&store);
    assert!(engine.compute_scores().is_empty());
}

#[test]
fn compute_scores_ranks_the_store() {
    let mut store = OrderBookStore::new();
    store.update(book("binance", "BTCUSDT", vec![6_807_430_000_000], vec![6_807_440_000_000]));
    store.update(book("bybit", "BTCUSDT", vec![6_807_400_000_000], vec![6_807_500_000_000]));
    store.update(book("binance", "ETHUSDT", vec![], vec![350_000_000_000]));
    let engine = ScoringEngine::new(&store);
    let scores = engine.compute_scores();
    assert_eq!(names(&scores), vec![name("binance", "BTCUSDT"), name("bybit", "BTCUSDT")]);
    assert!(is(scores[0].spread_pct, 100 * 10_000_000, 6_807_430_000_000));
    assert!(is(scores[1].spread_pct, 100 * 100_000_000, 6_807_400_000_000));
}

#[test]
fn compute_scores_sees_the_latest_books() {
    let mut store = OrderBookStore::new();
    store.update(book("binance", "BTCUSDT", vec![100], vec![150]));
    store.update(book("bybit", "BTCUSDT", vec![100], vec![110]));
    assert_eq!(
        names(&ScoringEngine::new(&store).compute_scores()),
        vec![name("bybit", "BTCUSDT"), name("binance", "BTCUSDT")]
    );
    store.update(book("binance", "BTCUSDT", vec![100], vec![101]));
    assert_eq!(
        names(&ScoringEngine::new(&store).compute_scores()),
        vec![name("binance", "BTCUSDT"), name("bybit", "BTCUSDT")]
    );
    store.update(book("bybit", "BTCUSDT", vec![], vec![110]));
    assert_eq!(
        names(&ScoringEngine::new(&store).compute_scores()),
        vec![name("binance", "BTCUSDT")]
    );
}

#[test]
fn compute_scores_does_not_depend_on_the_order_of_arrival() {
    let books = vec![
        book("binance", "A", vec![100], vec![101]),
        book("bybit", "A", vec![200], vec![202]),
        book("binance", "B", vec![100], vec![102]),
        book("bybit", "B", vec![100], vec![103]),
        book("binance", "C", vec![300], vec![303]),
    ];
    let mut forward = OrderBookStore::new();
    for b in books.iter() {
        forward.update(b.clone());
    }
    let mut backward = OrderBookStore::new();
    for b in books.iter().rev() {
        backward.update(b.clone());
    }
    let one = names(&ScoringEngine::new(&forward).compute_scores());
    let two = names(&ScoringEngine::new(&backward).compute_scores());
    assert_eq!(one, two);
    assert_eq!(
        one,
        vec![
            name("binance", "A"),
            name("binance", "C"),
            name("bybit", "A"),
            name("binance", "B"),
            name("bybit", "B"),
        ]
    );
}

#[test]
fn format_price_shows_two_decimals_from_one_upward() {
    assert_eq!(ScoringEngine::format_price(6_807_430_000_000), "68074.30");
    assert_eq!(ScoringEngine::format_price(100_000_001), "1.00");
    assert_eq!(ScoringEngine::format_price(150_000_000), "1.50");
    assert_eq!(ScoringEngine::format_price(999_000_000), "9.99");
    assert_eq!(ScoringEngine::format_price(1_000_000_000), "10.00");
    assert_eq!(ScoringEngine::format_price(u64::MAX), "184467440737.10");
}

#[test]
fn format_price_shows_four_significant_digits_below_one() {
    assert_eq!(ScoringEngine::format_price(2_341), "0.00002341");
    assert_eq!(ScoringEngine::format_price(50_000_000), "0.5000");
    assert_eq!(ScoringEngine::format_price(12_345_678), "0.1235");
    assert_eq!(ScoringEngine::format_price(9_000_000), "0.09000");
    assert_eq!(ScoringEngine::format_price(1_234_567), "0.01235");
    assert_eq!(ScoringEngine::format_price(1), "0.000000010000");
    assert_eq!(ScoringEngine::format_price(99), "0.0000009900");
}

#[test]
fn format_price_of_zero() {
    assert_eq!(ScoringEngine::format_price(0), "0.00");
}

#[test]
fn format_price_at_the_powers_of_ten() {
    assert_eq!(ScoringEngine::format_price(100_000_000), "1.0000");
    assert_eq!(ScoringEngine::format_price(10_000_000), "0.10000");
    assert_eq!(ScoringEngine::format_price(1_000_000), "0.010000");
    assert_eq!(ScoringEngine::format_price(10), "0.00000010000");
}

#[test]
fn format_price_rounds_to_the_nearest_and_ties_to_even() {
    assert_eq!(ScoringEngine::format_price(6_807_430_499_999), "68074.30");
    assert_eq!(ScoringEngine::format_price(6_807_430_500_001), "68074.31");
    assert_eq!(ScoringEngine::format_price(6_807_430_500_000), "68074.30");
    assert_eq!(ScoringEngine::format_price(6_807_431_500_000), "68074.32");
    assert_eq!(ScoringEngine::format_price(99_995_000), "1.0000");
    assert_eq!(ScoringEngine::format_price(99_985_000), "0.9998");
    assert_eq!(ScoringEngine::format_price(99_994_999), "0.9999");
    assert_eq!(ScoringEngine::format_price(999_999_999), "10.00");
}
