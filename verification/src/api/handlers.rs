//! The three questions that the query surface answers.

use crate::api::models::PairScoresResponse;
use crate::api::models::ScoresResponse;
use crate::scoring::all_wf;
use crate::scoring::ranking_of;
use crate::scoring::score_views;
use crate::scoring::ExchangeScore;
use crate::scoring::ScoreView;
use crate::scoring::ScoringEngine;
use crate::text::to_upper;
use crate::text::uppercase_of;
use vstd::prelude::*;

verus! {

/// Why a question has no answer.
#[derive(Debug, Clone, Copy, PartialEq, Eq)]
pub enum QueryError {
    /// No entry is ranked for the pair that was asked for.
    NotFound,
}

/// The entries of `scores` whose pair is `pair`, in the order of `scores`.
pub open spec fn with_pair(scores: Seq<ScoreView>, pair: Seq<char>) -> Seq<ScoreView>
    decreases scores.len(),
{
    if scores.len() == 0 {
        Seq::<ScoreView>::empty()
    } else if scores.last().pair == pair {
        with_pair(scores.drop_last(), pair).push(scores.last())
    } else {
        with_pair(scores.drop_last(), pair)
    }
}

/// What is answered to a question for `pair`, whatever its case: the
/// entries whose pair is the upper-case form of `pair`, or `None`, which
/// stands for "not found", when there is no such entry.
pub open spec fn pair_answer(scores: Seq<ScoreView>, pair: Seq<char>) -> Option<Seq<ScoreView>> {
    let found = with_pair(scores, uppercase_of(pair));
    if found.len() == 0 {
        None
    } else {
        Some(found)
    }
}

/// A pair is found under every spelling of its case: two questions whose
/// pairs have the same upper-case form have the same answer.
pub proof fn law_pair_case_insensitive(scores: Seq<ScoreView>, p: Seq<char>, q: Seq<char>)
    requires
        uppercase_of(p) == uppercase_of(q),
    ensures
        pair_answer(scores, p) == pair_answer(scores, q),
{
}

/// An answer that is found is never empty, and every entry of it is of the
/// pair that was asked for.
pub proof fn law_found_is_not_empty(scores: Seq<ScoreView>, pair: Seq<char>)
    ensures
        match pair_answer(scores, pair) {
            Some(found) => found.len() > 0 && forall|i: int|
                0 <= i < found.len() ==> (#[trigger] found[i]).pair == uppercase_of(pair),
            None => forall|i: int|
                0 <= i < scores.len() ==> (#[trigger] scores[i]).pair != uppercase_of(pair),
        },
{
    lemma_with_pair(scores, uppercase_of(pair));
}

/// `with_pair` keeps the entries of the pair and no others.
pub proof fn lemma_with_pair(scores: Seq<ScoreView>, pair: Seq<char>)
    ensures
        forall|i: int|
            0 <= i < with_pair(scores, pair).len() ==> (#[trigger] with_pair(scores, pair)[i]).pair
                == pair,
        forall|i: int|
            0 <= i < scores.len() && (#[trigger] scores[i]).pair == pair ==> with_pair(
                scores,
                pair,
            ).contains(scores[i]),
        with_pair(scores, pair).len() == 0 ==> forall|i: int|
            0 <= i < scores.len() ==> (#[trigger] scores[i]).pair != pair,
    decreases scores.len(),
{
    if scores.len() > 0 {
        let front = scores.drop_last();
        lemma_with_pair(front, pair);
        assert forall|i: int|
            0 <= i < scores.len() && (#[trigger] scores[i]).pair == pair implies with_pair(
            scores,
            pair,
        ).contains(scores[i]) by {
            if i < front.len() {
                assert(front[i] == scores[i]);
                let at = choose|at: int|
                    0 <= at < with_pair(front, pair).len() && with_pair(front, pair)[at]
                        == scores[i];
                assert(with_pair(scores, pair)[at] == scores[i]);
            } else {
                assert(with_pair(scores, pair)[with_pair(front, pair).len() as int] == scores[i]);
            }
        }
        assert forall|i: int| 0 <= i < scores.len() && with_pair(scores, pair).len()
            == 0 implies (#[trigger] scores[i]).pair != pair by {
            if i < front.len() {
                assert(front[i] == scores[i]);
            }
        }
    }
}

/// The liveness probe: a fixed text, whatever the state of the store.
pub fn health() -> (r: &'static str)
    ensures
        r@ == "OK"@,
{
    "OK"
}

/// All scores: the ranking of the store as it is now. It may be empty.
pub fn get_all_scores(engine: &ScoringEngine) -> (r: ScoresResponse)
    requires
        engine.wf(),
    ensures
        all_wf(r.scores@),
        score_views(r.scores@) == ranking_of(engine.books()),
{
    ScoresResponse { scores: engine.compute_scores() }
}

/// Picks the entries of one pair out of a ranking. The pair is matched in
/// upper case, so that it is found whatever the case it was asked in. When
/// no entry is of the pair the answer is `NotFound`, never an empty list.
pub fn select_pair(scores: Vec<ExchangeScore>, pair: &str) -> (r: Result<
    PairScoresResponse,
    QueryError,
>)
    ensures
        match r {
            Ok(answer) => answer.pair@ == uppercase_of(pair@) && pair_answer(
                score_views(scores@),
                pair@,
            ) == Some(score_views(answer.scores@)),
            Err(e) => e == QueryError::NotFound && pair_answer(score_views(scores@), pair@) is None,
        },
        all_wf(scores@) && r is Ok ==> all_wf(r->Ok_0.scores@),
{
    let target = to_upper(pair);
    let ghost all = score_views(scores@);
    let mut found: Vec<ExchangeScore> = Vec::new();
    proof {
        assert(all.take(0) == Seq::<ScoreView>::empty());
        assert(score_views(found@) == Seq::<ScoreView>::empty());
    }
    for entry in it: scores
        invariant
            it.seq() == scores@,
            all == score_views(scores@),
            score_views(found@) == with_pair(all.take(it.index()), target@),
            all_wf(scores@) ==> all_wf(found@),
    {
        proof {
            assert(all.take(it.index() + 1).drop_last() == all.take(it.index()));
            assert(all.take(it.index() + 1).last() == entry@);
        }
        if entry.pair == target {
            proof {
                assert(score_views(found@.push(entry)) == score_views(found@).push(entry@));
            }
            found.push(entry);
        }
    }
    proof {
        assert(all.take(all.len() as int) == all);
    }
    if found.len() == 0 {
        Err(QueryError::NotFound)
    } else {
        Ok(PairScoresResponse { pair: target, scores: found })
    }
}

/// The scores of one pair: the entries of that pair in the ranking of the
/// store as it is now, or `NotFound` when it has none.
pub fn get_pair_scores(engine: &ScoringEngine, pair: &str) -> (r: Result<
    PairScoresResponse,
    QueryError,
>)
    requires
        engine.wf(),
    ensures
        match r {
            Ok(answer) => all_wf(answer.scores@) && answer.pair@ == uppercase_of(pair@)
                && pair_answer(ranking_of(engine.books()), pair@) == Some(
                score_views(answer.scores@),
            ),
            Err(e) => e == QueryError::NotFound && pair_answer(ranking_of(engine.books()), pair@)
                is None,
        },
{
    select_pair(engine.compute_scores(), pair)
}

} // verus!
