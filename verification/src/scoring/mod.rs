//! The scoring engine: from the current books to the ranked list of spread
//! opportunities.
//!
//! A book is scored when both of its sides have a price and the best bid is
//! below the best ask. A book with an empty side, and a book that is crossed
//! or locked (best bid at or above best ask), is left out: its spread would
//! be zero or negative, where the score is not defined or changes sign.
//!
//! The figures are exact. The spread in percent and the score are held as
//! fractions of 128-bit integers, which have room for them as long as the
//! prices are at most `MAX_PRICE`; a book whose best ask is above it is left
//! out as well. In contracts the figures are real numbers.

pub mod price_text;
pub mod ratio;

use crate::decimal::units_value;
use crate::orderbook::BookView;
use crate::orderbook::OrderBook;
use crate::orderbook::store::is_listing;
use crate::orderbook::store::keyed_by_name;
use crate::orderbook::store::name_of;
use crate::orderbook::store::views;
use crate::orderbook::store::Name;
use crate::orderbook::OrderBookStore;
use crate::orderbook::MAX_PRICE;
use crate::scoring::ratio::Ratio;
use crate::text::lemma_lex_le_antisymmetric;
use crate::text::lemma_lex_le_total;
use crate::text::lemma_lex_le_transitive;
use crate::text::lex_le;
use crate::text::precedes;
use vstd::prelude::*;

verus! {

/// The figures derived from one book. It is made anew for every query and
/// never kept.
#[derive(Debug, Clone)]
pub struct ExchangeScore {
    /// The venue's identifier.
    pub exchange: String,
    /// The trading pair.
    pub pair: String,
    /// The highest bid, in units of one hundred-millionth.
    pub best_bid: u64,
    /// The lowest ask, in units of one hundred-millionth.
    pub best_ask: u64,
    /// The spread in percent of the best bid.
    pub spread_pct: Ratio,
    /// The opportunity score; higher is better.
    pub score: Ratio,
}

/// The mathematical content of an `ExchangeScore`.
pub struct ScoreView {
    pub exchange: Seq<char>,
    pub pair: Seq<char>,
    pub best_bid: u64,
    pub best_ask: u64,
    pub spread_pct: real,
    pub score: real,
}

impl View for ExchangeScore {
    type V = ScoreView;

    open spec fn view(&self) -> ScoreView {
        ScoreView {
            exchange: self.exchange@,
            pair: self.pair@,
            best_bid: self.best_bid,
            best_ask: self.best_ask,
            spread_pct: self.spread_pct@,
            score: self.score@,
        }
    }
}

impl ExchangeScore {
    /// Both fractions have a positive denominator.
    pub open spec fn wf(&self) -> bool {
        self.spread_pct.wf() && self.score.wf()
    }
}

/// Every entry of a list is well formed.
pub open spec fn all_wf(entries: Seq<ExchangeScore>) -> bool {
    forall|i: int| 0 <= i < entries.len() ==> (#[trigger] entries[i]).wf()
}

/// The spread between two prices, in percent of the bid.
pub open spec fn spread_pct_of(bid: u64, ask: u64) -> real {
    (ask - bid) as real / (bid as real) * 100real
}

/// The score of a spread: high for a tight spread.
pub open spec fn score_of(spread_pct: real) -> real {
    100real / spread_pct - spread_pct
}

/// Whether a book is scored: both sides have a price, the best bid is
/// positive and below the best ask, and the prices are at most `MAX_PRICE`.
pub open spec fn scorable(book: BookView) -> bool {
    match (book.best_bid(), book.best_ask()) {
        (Some(bid), Some(ask)) => 0 < bid < ask <= MAX_PRICE,
        _ => false,
    }
}

/// The figures derived from a book that is scored.
pub open spec fn score_view_of(book: BookView) -> ScoreView
    recommends
        scorable(book),
{
    let bid = book.best_bid()->0;
    let ask = book.best_ask()->0;
    ScoreView {
        exchange: book.exchange,
        pair: book.pair,
        best_bid: bid,
        best_ask: ask,
        spread_pct: spread_pct_of(bid, ask),
        score: score_of(spread_pct_of(bid, ask)),
    }
}

/// The spread in percent does not depend on the unit in which the prices are
/// counted: it is the spread of the prices that the counts stand for.
pub proof fn law_spread_is_scale_free(bid: u64, ask: u64)
    requires
        0 < bid,
    ensures
        spread_pct_of(bid, ask) == (units_value(ask as int) - units_value(bid as int))
            / units_value(bid as int) * 100real,
{
    let b = bid as real;
    let a = ask as real;
    let s = crate::decimal::SCALE as real;
    assert((ask - bid) as real == a - b);
    assert((a - b) / b * 100real == (a / s - b / s) / (b / s) * 100real) by (nonlinear_arith)
        requires
            b > 0real,
            s > 0real,
    ;
}

/// The two fractions of a pair of prices: the spread in percent and its
/// score.
fn score_parts(bid: u64, ask: u64) -> (r: (Ratio, Ratio))
    requires
        0 < bid < ask <= MAX_PRICE,
    ensures
        r.0.wf(),
        r.1.wf(),
        r.0@ == spread_pct_of(bid, ask),
        r.1@ == score_of(r.0@),
{
    let b: i128 = bid as i128;
    let d: i128 = (ask - bid) as i128;
    proof {
        // With both numbers at most `MAX_PRICE`, their products stay below
        // ten to the power 36, and a hundred times one of them within `i128`.
        let top: int = MAX_PRICE as int;
        assert(d * d <= top * top && b * b <= top * top && 0 < d * b <= top * top)
            by (nonlinear_arith)
            requires
                0 < b <= top,
                0 < d <= top,
        ;
    }
    let spread = Ratio { num: 100 * d, den: b };
    let score = Ratio { num: b * b - 100 * (d * d), den: d * b };
    proof {
        let dr = d as real;
        let br = b as real;
        assert(spread.num as real == 100real * dr);
        assert((100real * dr) / br == dr / br * 100real) by (nonlinear_arith)
            requires
                br > 0real,
        ;
        assert(score.num as real == br * br - 100real * (dr * dr)) by (nonlinear_arith)
            requires
                score.num == b * b - 100 * (d * d),
                dr == d as real,
                br == b as real,
        ;
        assert(score.den as real == dr * br) by (nonlinear_arith)
            requires
                score.den == d * b,
                dr == d as real,
                br == b as real,
        ;
        assert((br * br - 100real * (dr * dr)) / (dr * br) == 100real / (dr / br * 100real) - dr
            / br * 100real) by (nonlinear_arith)
            requires
                br > 0real,
                dr > 0real,
        ;
    }
    (spread, score)
}

/// Scores one book. `None` exactly when the book is not scored.
pub fn score_book(book: &OrderBook) -> (r: Option<ExchangeScore>)
    ensures
        match r {
            Some(entry) => scorable(book@) && entry@ == score_view_of(book@) && entry.wf(),
            None => !scorable(book@),
        },
{
    match (book.best_bid(), book.best_ask()) {
        (Some(bid), Some(ask)) => {
            if 0 < bid && bid < ask && ask <= MAX_PRICE {
                let parts = score_parts(bid, ask);
                Some(
                    ExchangeScore {
                        exchange: book.exchange.to_owned(),
                        pair: book.pair.clone(),
                        best_bid: bid,
                        best_ask: ask,
                        spread_pct: parts.0,
                        score: parts.1,
                    },
                )
            } else {
                None
            }
        },
        _ => None,
    }
}

/// The scores of the books of a list that are scored, in the order of the
/// list.
pub open spec fn scored(books: Seq<BookView>) -> Seq<ScoreView>
    decreases books.len(),
{
    if books.len() == 0 {
        Seq::<ScoreView>::empty()
    } else if scorable(books.last()) {
        scored(books.drop_last()).push(score_view_of(books.last()))
    } else {
        scored(books.drop_last())
    }
}

/// The order of two entries by name: by exchange, then by pair.
pub open spec fn name_le(a: ScoreView, b: ScoreView) -> bool {
    if a.exchange != b.exchange {
        lex_le(a.exchange, b.exchange)
    } else {
        lex_le(a.pair, b.pair)
    }
}

/// Whether `a` may stand before `b` in a ranking: its score is higher, or
/// the scores are equal and its name comes first.
pub open spec fn ranks_before(a: ScoreView, b: ScoreView) -> bool {
    a.score > b.score || (a.score == b.score && name_le(a, b))
}

/// A list is ranked when each entry may stand before all that follow it.
pub open spec fn ranked(entries: Seq<ScoreView>) -> bool {
    forall|i: int, j: int| 0 <= i < j < entries.len() ==> ranks_before(entries[i], entries[j])
}

/// The mathematical contents of a list of entries.
pub open spec fn score_views(entries: Seq<ExchangeScore>) -> Seq<ScoreView> {
    entries.map_values(|e: ExchangeScore| e@)
}

impl ScoreView {
    /// The derived figures follow from the two prices.
    pub open spec fn consistent(self) -> bool {
        &&& 0 < self.best_bid < self.best_ask
        &&& self.spread_pct == spread_pct_of(self.best_bid, self.best_ask)
        &&& self.score == score_of(self.spread_pct)
    }
}

/// Of two positive spreads the smaller has the higher score.
pub proof fn lemma_score_decreases(s1: real, s2: real)
    requires
        0real < s1 < s2,
    ensures
        score_of(s1) > score_of(s2),
{
    assert(100real / s1 > 100real / s2) by (nonlinear_arith)
        requires
            0real < s1 < s2,
    ;
}

/// Two spreads compare as the products of each difference with the other
/// bid do.
pub proof fn lemma_spread_order(bid_a: u64, ask_a: u64, bid_b: u64, ask_b: u64)
    requires
        0 < bid_a < ask_a,
        0 < bid_b < ask_b,
    ensures
        0real < spread_pct_of(bid_a, ask_a),
        spread_pct_of(bid_a, ask_a) < spread_pct_of(bid_b, ask_b) <==> (ask_a - bid_a) * bid_b < (
        ask_b - bid_b) * bid_a,
        spread_pct_of(bid_a, ask_a) == spread_pct_of(bid_b, ask_b) <==> (ask_a - bid_a) * bid_b == (
        ask_b - bid_b) * bid_a,
{
    let da = (ask_a - bid_a) as real;
    let db = (ask_b - bid_b) as real;
    let ba = bid_a as real;
    let bb = bid_b as real;
    assert(((ask_a - bid_a) * bid_b) as real == da * bb) by (nonlinear_arith)
        requires
            da == (ask_a - bid_a) as real,
            bb == bid_b as real,
    ;
    assert(((ask_b - bid_b) * bid_a) as real == db * ba) by (nonlinear_arith)
        requires
            db == (ask_b - bid_b) as real,
            ba == bid_a as real,
    ;
    assert((da / ba * 100real < db / bb * 100real) <==> (da * bb < db * ba)) by (nonlinear_arith)
        requires
            ba > 0real,
            bb > 0real,
    ;
    assert((da / ba * 100real == db / bb * 100real) <==> (da * bb == db * ba)) by (nonlinear_arith)
        requires
            ba > 0real,
            bb > 0real,
    ;
    assert(0real < da / ba * 100real) by (nonlinear_arith)
        requires
            ba > 0real,
            da > 0real,
    ;
}

/// Any two entries can be ranked.
pub proof fn lemma_ranks_total(a: ScoreView, b: ScoreView)
    ensures
        ranks_before(a, b) || ranks_before(b, a),
{
    lemma_lex_le_total(a.exchange, b.exchange);
    lemma_lex_le_total(a.pair, b.pair);
}

/// Ranking is transitive.
pub proof fn lemma_ranks_transitive(a: ScoreView, b: ScoreView, c: ScoreView)
    requires
        ranks_before(a, b),
        ranks_before(b, c),
    ensures
        ranks_before(a, c),
{
    if a.score == b.score && b.score == c.score {
        if a.exchange == b.exchange && b.exchange == c.exchange {
            lemma_lex_le_transitive(a.pair, b.pair, c.pair);
        } else if a.exchange == b.exchange {
        } else if b.exchange == c.exchange {
        } else {
            lemma_lex_le_transitive(a.exchange, b.exchange, c.exchange);
            if a.exchange == c.exchange {
                lemma_lex_le_antisymmetric(a.exchange, b.exchange);
            }
        }
    }
}

/// The product of two 64-bit numbers fits in 128 bits.
proof fn lemma_product_fits(x: u64, y: u64)
    ensures
        x * y <= u128::MAX,
{
    assert(x * y <= 0xffff_ffff_ffff_ffff * 0xffff_ffff_ffff_ffff) by (nonlinear_arith)
        requires
            0 <= x <= 0xffff_ffff_ffff_ffff,
            0 <= y <= 0xffff_ffff_ffff_ffff,
    ;
}

/// Whether `a` may stand before `b` in a ranking.
fn ranks_first(a: &ExchangeScore, b: &ExchangeScore) -> (r: bool)
    requires
        a@.consistent(),
        b@.consistent(),
    ensures
        r == ranks_before(a@, b@),
{
    proof {
        lemma_product_fits((a.best_ask - a.best_bid) as u64, b.best_bid);
        lemma_product_fits((b.best_ask - b.best_bid) as u64, a.best_bid);
    }
    let left: u128 = (a.best_ask - a.best_bid) as u128 * (b.best_bid as u128);
    let right: u128 = (b.best_ask - b.best_bid) as u128 * (a.best_bid as u128);
    proof {
        lemma_spread_order(a.best_bid, a.best_ask, b.best_bid, b.best_ask);
        lemma_spread_order(b.best_bid, b.best_ask, a.best_bid, a.best_ask);
        if a@.spread_pct < b@.spread_pct {
            lemma_score_decreases(a@.spread_pct, b@.spread_pct);
        }
        if b@.spread_pct < a@.spread_pct {
            lemma_score_decreases(b@.spread_pct, a@.spread_pct);
        }
    }
    if left < right {
        true
    } else if left > right {
        false
    } else if a.exchange != b.exchange {
        precedes(a.exchange.as_str(), b.exchange.as_str())
    } else {
        precedes(a.pair.as_str(), b.pair.as_str())
    }
}

/// Scores the books of a list and ranks the scores, best first. Books that
/// are not scored are left out. Entries of equal score stand in the order of
/// their names, by exchange and then by pair, so that the ranking does not
/// depend on the order of the list.
pub fn rank_books(books: &Vec<OrderBook>) -> (out: Vec<ExchangeScore>)
    ensures
        all_wf(out@),
        ranked(score_views(out@)),
        score_views(out@).to_multiset() == scored(views(books@)).to_multiset(),
{
    let ghost all = views(books@);
    let mut out: Vec<ExchangeScore> = Vec::new();
    let mut i: usize = 0;
    proof {
        assert(all.take(0) == Seq::<BookView>::empty());
        assert(score_views(out@) == Seq::<ScoreView>::empty());
    }
    while i < books.len()
        invariant
            i <= books.len(),
            all == views(books@),
            all_wf(out@),
            ranked(score_views(out@)),
            forall|k: int| 0 <= k < out@.len() ==> (#[trigger] out@[k])@.consistent(),
            score_views(out@).to_multiset() == scored(all.take(i as int)).to_multiset(),
        decreases books.len() - i,
    {
        proof {
            assert(all.take(i + 1).drop_last() == all.take(i as int));
            assert(all.take(i + 1).last() == books@[i as int]@);
        }
        match score_book(&books[i]) {
            Some(entry) => {
                proof {
                    lemma_spread_order(
                        entry.best_bid,
                        entry.best_ask,
                        entry.best_bid,
                        entry.best_ask,
                    );
                }
                let mut at: usize = 0;
                while at < out.len() && ranks_first(&out[at], &entry)
                    invariant
                        at <= out.len(),
                        entry@.consistent(),
                        forall|k: int| 0 <= k < out@.len() ==> (#[trigger] out@[k])@.consistent(),
                        forall|k: int| 0 <= k < at ==> ranks_before((#[trigger] out@[k])@, entry@),
                    decreases out.len() - at,
                {
                    at = at + 1;
                }
                let ghost before = out@;
                let ghost e = entry@;
                out.insert(at, entry);
                proof {
                    let old_views = score_views(before);
                    let new_views = score_views(out@);
                    assert(new_views =~= old_views.insert(at as int, e));
                    vstd::seq_lib::to_multiset_insert(old_views, at as int, e);
                    vstd::seq_lib::to_multiset_build(scored(all.take(i as int)), e);
                    assert forall|x: int, y: int| 0 <= x < y < new_views.len() implies ranks_before(
                        new_views[x],
                        new_views[y],
                    ) by {
                        if y < at {
                            assert(new_views[x] == old_views[x] && new_views[y] == old_views[y]);
                        } else if y == at {
                            assert(new_views[x] == before[x]@);
                        } else if x < at {
                            assert(new_views[x] == old_views[x] && new_views[y] == old_views[y - 1]);
                        } else if x == at {
                            assert(new_views[y] == old_views[y - 1]);
                            assert(!ranks_before(before[at as int]@, e));
                            lemma_ranks_total(before[at as int]@, e);
                            if y - 1 > at {
                                assert(ranks_before(old_views[at as int], old_views[y - 1]));
                                lemma_ranks_transitive(e, old_views[at as int], old_views[y - 1]);
                            }
                        } else {
                            assert(new_views[x] == old_views[x - 1] && new_views[y] == old_views[y
                                - 1]);
                        }
                    }
                }
            },
            None => {},
        }
        i = i + 1;
    }
    proof {
        assert(all.take(books.len() as int) == all);
    }
    out
}

/// `entry` is the score of a book of the store.
pub open spec fn scores_a_book(store: Map<Name, BookView>, entry: ScoreView) -> bool {
    exists|k: Name|
        #![trigger store[k]]
        store.contains_key(k) && scorable(store[k]) && entry == score_view_of(store[k])
}

/// `scores` is the ranking of a store: it holds the score of every book of
/// the store that is scored, once, and nothing else, and of any two entries
/// the one that ranks first stands first. Two books of a store differ in
/// their names, so no two entries rank alike and the store has one ranking.
pub open spec fn is_ranking(store: Map<Name, BookView>, scores: Seq<ScoreView>) -> bool {
    &&& forall|i: int| 0 <= i < scores.len() ==> scores_a_book(store, #[trigger] scores[i])
    &&& forall|k: Name|
        store.contains_key(k) && scorable(#[trigger] store[k]) ==> scores.contains(
            score_view_of(store[k]),
        )
    &&& forall|i: int, j: int|
        0 <= i < j < scores.len() ==> ranks_before(scores[i], scores[j]) && !ranks_before(
            scores[j],
            scores[i],
        )
}

/// The ranking of a store.
pub open spec fn ranking_of(store: Map<Name, BookView>) -> Seq<ScoreView> {
    choose|scores: Seq<ScoreView>| is_ranking(store, scores)
}

/// Two lists in which each entry ranks strictly before all that follow it,
/// and which hold the same entries, are the same list.
pub proof fn lemma_strict_rankings_equal(a: Seq<ScoreView>, b: Seq<ScoreView>)
    requires
        forall|i: int, j: int|
            0 <= i < j < a.len() ==> ranks_before(a[i], a[j]) && !ranks_before(a[j], a[i]),
        forall|i: int, j: int|
            0 <= i < j < b.len() ==> ranks_before(b[i], b[j]) && !ranks_before(b[j], b[i]),
        forall|x: ScoreView| a.contains(x) <==> b.contains(x),
    ensures
        a == b,
    decreases a.len(),
{
    if a.len() == 0 {
        if b.len() > 0 {
            assert(b.contains(b[0]));
        }
        assert(a =~= b);
    } else {
        assert(a.contains(a[0]));
        assert(b.contains(a[0]));
        let j = choose|j: int| 0 <= j < b.len() && b[j] == a[0];
        assert(b.contains(b[0]));
        let i = choose|i: int| 0 <= i < a.len() && a[i] == b[0];
        if i > 0 {
            assert(ranks_before(a[0], a[i]) && !ranks_before(a[i], a[0]));
            if j > 0 {
                assert(ranks_before(b[0], b[j]) && !ranks_before(b[j], b[0]));
            }
            assert(false);
        }
        assert(a[0] == b[0]);
        let ta = a.skip(1);
        let tb = b.skip(1);
        assert forall|x: ScoreView| ta.contains(x) <==> tb.contains(x) by {
            if ta.contains(x) {
                let k = choose|k: int| 0 <= k < ta.len() && ta[k] == x;
                assert(a[k + 1] == x);
                assert(ranks_before(a[0], a[k + 1]) && !ranks_before(a[k + 1], a[0]));
                assert(a.contains(x));
                let m = choose|m: int| 0 <= m < b.len() && b[m] == x;
                assert(m > 0);
                assert(tb[m - 1] == x);
            }
            if tb.contains(x) {
                let k = choose|k: int| 0 <= k < tb.len() && tb[k] == x;
                assert(b[k + 1] == x);
                assert(ranks_before(b[0], b[k + 1]) && !ranks_before(b[k + 1], b[0]));
                assert(b.contains(x));
                let m = choose|m: int| 0 <= m < a.len() && a[m] == x;
                assert(m > 0);
                assert(ta[m - 1] == x);
            }
        }
        assert forall|i: int, j: int| 0 <= i < j < ta.len() implies ranks_before(ta[i], ta[j])
            && !ranks_before(ta[j], ta[i]) by {
            assert(ta[i] == a[i + 1] && ta[j] == a[j + 1]);
        }
        assert forall|i: int, j: int| 0 <= i < j < tb.len() implies ranks_before(tb[i], tb[j])
            && !ranks_before(tb[j], tb[i]) by {
            assert(tb[i] == b[i + 1] && tb[j] == b[j + 1]);
        }
        lemma_strict_rankings_equal(ta, tb);
        assert(a =~= seq![a[0]] + ta);
        assert(b =~= seq![b[0]] + tb);
    }
}

/// A store has one ranking: any two rankings of it are the same list.
pub proof fn law_ranking_unique(store: Map<Name, BookView>, a: Seq<ScoreView>, b: Seq<ScoreView>)
    requires
        is_ranking(store, a),
        is_ranking(store, b),
    ensures
        a == b,
        a == ranking_of(store),
{
    assert forall|x: ScoreView| a.contains(x) <==> b.contains(x) by {
        if a.contains(x) {
            let i = choose|i: int| 0 <= i < a.len() && a[i] == x;
            assert(scores_a_book(store, a[i]));
        }
        if b.contains(x) {
            let i = choose|i: int| 0 <= i < b.len() && b[i] == x;
            assert(scores_a_book(store, b[i]));
        }
    }
    lemma_strict_rankings_equal(a, b);
    let c = ranking_of(store);
    assert(is_ranking(store, c));
    assert forall|x: ScoreView| a.contains(x) <==> c.contains(x) by {
        if a.contains(x) {
            let i = choose|i: int| 0 <= i < a.len() && a[i] == x;
            assert(scores_a_book(store, a[i]));
        }
        if c.contains(x) {
            let i = choose|i: int| 0 <= i < c.len() && c[i] == x;
            assert(scores_a_book(store, c[i]));
        }
    }
    lemma_strict_rankings_equal(a, c);
}

/// A ranking is sorted by score: no entry has a higher score than one that
/// stands before it.
pub proof fn law_ranking_sorted(store: Map<Name, BookView>, scores: Seq<ScoreView>, i: int, j: int)
    requires
        is_ranking(store, scores),
        0 <= i <= j < scores.len(),
    ensures
        scores[i].score >= scores[j].score,
{
    if i < j {
        assert(ranks_before(scores[i], scores[j]));
    }
}

/// A ranking holds no entry for a book that lacks a side: every entry is
/// derived from a book of the store that has a best bid and a best ask, and
/// its figures follow from these two prices.
pub proof fn law_ranking_entries(store: Map<Name, BookView>, scores: Seq<ScoreView>, i: int)
    requires
        is_ranking(store, scores),
        0 <= i < scores.len(),
    ensures
        exists|k: Name|
            #![trigger store[k]]
            {
                &&& store.contains_key(k)
                &&& store[k].exchange == scores[i].exchange
                &&& store[k].pair == scores[i].pair
                &&& store[k].best_bid() == Some(scores[i].best_bid)
                &&& store[k].best_ask() == Some(scores[i].best_ask)
            },
        0 < scores[i].best_bid < scores[i].best_ask,
        scores[i].spread_pct == spread_pct_of(scores[i].best_bid, scores[i].best_ask),
        scores[i].score == score_of(scores[i].spread_pct),
{
    assert(scores_a_book(store, scores[i]));
    let k = choose|k: Name|
        #![trigger store[k]]
        store.contains_key(k) && scorable(store[k]) && scores[i] == score_view_of(store[k]);
    assert(store[k].best_bid() == Some(scores[i].best_bid));
}

/// A ranking has one entry for each book of the store that is scored, so an
/// empty store, and a store without a scored book, has the empty ranking.
pub proof fn law_nothing_scored_nothing_ranked(store: Map<Name, BookView>, scores: Seq<ScoreView>)
    requires
        is_ranking(store, scores),
        forall|k: Name| store.contains_key(k) ==> !scorable(#[trigger] store[k]),
    ensures
        scores.len() == 0,
{
    if scores.len() > 0 {
        assert(scores_a_book(store, scores[0]));
    }
}

/// What `scored` holds: the scores of the scored books of the list.
pub proof fn lemma_scored_members(books: Seq<BookView>, x: ScoreView)
    ensures
        scored(books).contains(x) <==> exists|j: int|
            0 <= j < books.len() && scorable(#[trigger] books[j]) && x == score_view_of(books[j]),
    decreases books.len(),
{
    if books.len() > 0 {
        let front = books.drop_last();
        lemma_scored_members(front, x);
        if scored(books).contains(x) {
            let at = choose|at: int| 0 <= at < scored(books).len() && scored(books)[at] == x;
            if scorable(books.last()) && at == scored(front).len() {
                assert(scorable(books[books.len() - 1]));
            } else {
                assert(scored(front)[at] == x);
                assert(scored(front).contains(x));
                let j = choose|j: int|
                    0 <= j < front.len() && scorable(#[trigger] front[j]) && x == score_view_of(
                        front[j],
                    );
                assert(front[j] == books[j]);
            }
        }
        if exists|j: int|
            0 <= j < books.len() && scorable(#[trigger] books[j]) && x == score_view_of(books[j]) {
            let j = choose|j: int|
                0 <= j < books.len() && scorable(#[trigger] books[j]) && x == score_view_of(
                    books[j],
                );
            if j < front.len() {
                assert(front[j] == books[j]);
                assert(scored(front).contains(x));
                let at = choose|at: int| 0 <= at < scored(front).len() && scored(front)[at] == x;
                assert(scored(books)[at] == x);
            } else {
                assert(scored(books)[scored(front).len() as int] == x);
            }
        }
    }
}

/// Books of names that all differ have scores that all differ.
pub proof fn lemma_scored_distinct(books: Seq<BookView>)
    requires
        forall|i: int, j: int| 0 <= i < j < books.len() ==> name_of(books[i]) != name_of(books[j]),
    ensures
        scored(books).no_duplicates(),
    decreases books.len(),
{
    if books.len() > 0 {
        let front = books.drop_last();
        lemma_scored_distinct(front);
        if scorable(books.last()) {
            let x = score_view_of(books.last());
            lemma_scored_members(front, x);
            if scored(front).contains(x) {
                let j = choose|j: int|
                    0 <= j < front.len() && scorable(#[trigger] front[j]) && x == score_view_of(
                        front[j],
                    );
                assert(front[j] == books[j]);
                assert(name_of(books[j]) == name_of(books[books.len() - 1]));
            }
            assert forall|a: int, b: int|
                0 <= a < scored(books).len() && 0 <= b < scored(books).len() && a
                    != b implies scored(books)[a] != scored(books)[b] by {
                if a < scored(front).len() && b < scored(front).len() {
                    assert(scored(front)[a] != scored(front)[b]);
                } else if a < scored(front).len() {
                    assert(scored(front).contains(scored(front)[a]));
                } else {
                    assert(scored(front).contains(scored(front)[b]));
                }
            }
        }
    }
}

/// A ranked list with the scores of a listing of a store is the ranking of
/// that store, whatever the order of the listing.
pub proof fn lemma_ranking_of_listing(
    store: Map<Name, BookView>,
    listing: Seq<BookView>,
    scores: Seq<ScoreView>,
)
    requires
        keyed_by_name(store),
        is_listing(store, listing),
        ranked(scores),
        scores.to_multiset() == scored(listing).to_multiset(),
    ensures
        is_ranking(store, scores),
{
    broadcast use vstd::seq_lib::group_to_multiset_ensures;

    let source = scored(listing);
    assert forall|x: ScoreView| scores.contains(x) <==> source.contains(x) by {
        assert(scores.contains(x) <==> scores.to_multiset().count(x) > 0);
        assert(source.contains(x) <==> source.to_multiset().count(x) > 0);
    }
    assert forall|i: int| 0 <= i < scores.len() implies scores_a_book(
        store,
        #[trigger] scores[i],
    ) by {
        assert(scores.contains(scores[i]));
        lemma_scored_members(listing, scores[i]);
        let j = choose|j: int|
            0 <= j < listing.len() && scorable(#[trigger] listing[j]) && scores[i]
                == score_view_of(listing[j]);
        let k = name_of(listing[j]);
        assert(store.contains_key(k) && store[k] == listing[j]);
    }
    assert forall|k: Name|
        store.contains_key(k) && scorable(#[trigger] store[k]) implies scores.contains(
        score_view_of(store[k]),
    ) by {
        let j = choose|j: int| 0 <= j < listing.len() && name_of(#[trigger] listing[j]) == k;
        assert(store[name_of(listing[j])] == listing[j]);
        let x = score_view_of(store[k]);
        lemma_scored_members(listing, x);
        assert(scores.contains(x));
    }
    lemma_scored_distinct(listing);
    source.lemma_multiset_has_no_duplicates();
    scores.lemma_multiset_has_no_duplicates_conv();
    assert forall|i: int, j: int| 0 <= i < j < scores.len() implies !ranks_before(
        scores[j],
        scores[i],
    ) by {
        let a = scores[i];
        let b = scores[j];
        assert(ranks_before(a, b));
        if ranks_before(b, a) {
            if a.exchange != b.exchange {
                lemma_lex_le_antisymmetric(a.exchange, b.exchange);
            }
            lemma_lex_le_antisymmetric(a.pair, b.pair);
            let ka = choose|k: Name|
                #![trigger store[k]]
                store.contains_key(k) && scorable(store[k]) && a == score_view_of(store[k]);
            let kb = choose|k: Name|
                #![trigger store[k]]
                store.contains_key(k) && scorable(store[k]) && b == score_view_of(store[k]);
            assert(name_of(store[ka]) == ka);
            assert(name_of(store[kb]) == kb);
            assert(ka == kb);
            assert(a == b);
        }
    }
}

/// The scoring engine. It reads the books of a store whenever it is asked
/// and keeps nothing in between.
pub struct ScoringEngine<'a> {
    store: &'a OrderBookStore,
}

impl<'a> ScoringEngine<'a> {
    /// The books that the engine reads.
    pub closed spec fn books(&self) -> Map<Name, BookView> {
        self.store@
    }

    /// The engine's store is well formed.
    pub closed spec fn wf(&self) -> bool {
        self.store.wf()
    }

    /// An engine that reads `store`.
    pub fn new(store: &'a OrderBookStore) -> (engine: ScoringEngine<'a>)
        ensures
            engine.books() == store@,
            engine.wf() == store.wf(),
    {
        ScoringEngine { store: store }
    }

    /// The ranking of the store as it is now: the score of every book that
    /// is scored, best first. The list is empty when no book is scored.
    pub fn compute_scores(&self) -> (scores: Vec<ExchangeScore>)
        requires
            self.wf(),
        ensures
            all_wf(scores@),
            is_ranking(self.books(), score_views(scores@)),
            score_views(scores@) == ranking_of(self.books()),
    {
        let books = self.store.all();
        let scores = rank_books(&books);
        proof {
            lemma_ranking_of_listing(self.store@, views(books@), score_views(scores@));
            law_ranking_unique(self.store@, score_views(scores@), score_views(scores@));
        }
        scores
    }
}

} // verus!
