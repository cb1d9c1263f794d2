//! The scoring engine, the stop predicates and the survivor selection.

use rand::seq::SliceRandom;
use vstd::prelude::*;
use vstd::arithmetic::div_mod::lemma_div_is_ordered;
use vstd::arithmetic::div_mod::lemma_fundamental_div_mod_converse;
use crate::config::ScoringWeights;
use crate::data::Idea;
use crate::data::IdeaStatus;
use crate::data::SCORE_MAX;
use crate::data::Scores;
use crate::data::StopReason;
use crate::ranking::arranged;
use crate::ranking::rank_candidates;
use crate::ranking::ranking;

verus! {

/// Why a score could not be computed.
#[derive(Debug, Clone, Copy, PartialEq, Eq, Structural)]
pub enum ScoringError {
    /// All eight weights are zero, so the weighted mean has no denominator.
    ZeroTotalWeight,
}

/// What the risk criterion contributes: ten points minus the raw value,
/// because a lower raw risk is better.
pub open spec fn inverted_risk(risk: i32) -> int {
    SCORE_MAX - risk
}

/// The weighted sum of the eight contributions. Risk enters inverted, every
/// other criterion as it is.
pub open spec fn weighted_sum(scores: Scores, weights: ScoringWeights) -> int {
    scores.feasibility * weights.feasibility + scores.speed_to_value * weights.speed_to_value
        + scores.differentiation * weights.differentiation + scores.market_size
        * weights.market_size + scores.distribution * weights.distribution + scores.moats
        * weights.moats + inverted_risk(scores.risk) * weights.risk + scores.clarity
        * weights.clarity
}

/// The overall score: the weighted mean of the contributions, rounded down to
/// a whole thousandth. Meaningful where the weights are not all zero.
pub open spec fn overall_score(scores: Scores, weights: ScoringWeights) -> int
    recommends
        weights.total() > 0,
{
    weighted_sum(scores, weights) / weights.total()
}

/// `hi` is at least as good as `lo` on every criterion: no benefit is lower
/// and the risk is no higher.
pub open spec fn dominates(hi: Scores, lo: Scores) -> bool {
    &&& lo.feasibility <= hi.feasibility
    &&& lo.speed_to_value <= hi.speed_to_value
    &&& lo.differentiation <= hi.differentiation
    &&& lo.market_size <= hi.market_size
    &&& lo.distribution <= hi.distribution
    &&& lo.moats <= hi.moats
    &&& lo.risk >= hi.risk
    &&& lo.clarity <= hi.clarity
}

/// A larger contribution weighs no less under the same weight.
proof fn lemma_term_ordered(a: int, b: int, w: int)
    requires
        a <= b,
        0 <= w,
    ensures
        a * w <= b * w,
{
    assert(a * w <= b * w) by (nonlinear_arith)
        requires
            a <= b,
            0 <= w,
    ;
}

/// A larger contribution weighs more under the same positive weight.
proof fn lemma_term_strictly_ordered(a: int, b: int, w: int)
    requires
        a < b,
        0 < w,
    ensures
        a * w < b * w,
{
    assert(a * w < b * w) by (nonlinear_arith)
        requires
            a < b,
            0 < w,
    ;
}

/// `hi` is strictly better than `lo` on a criterion that counts: one with a
/// positive weight on which `hi` has the higher benefit or the lower risk.
pub open spec fn better_where_it_counts(hi: Scores, lo: Scores, weights: ScoringWeights) -> bool {
    ||| lo.feasibility < hi.feasibility && weights.feasibility > 0
    ||| lo.speed_to_value < hi.speed_to_value && weights.speed_to_value > 0
    ||| lo.differentiation < hi.differentiation && weights.differentiation > 0
    ||| lo.market_size < hi.market_size && weights.market_size > 0
    ||| lo.distribution < hi.distribution && weights.distribution > 0
    ||| lo.moats < hi.moats && weights.moats > 0
    ||| lo.risk > hi.risk && weights.risk > 0
    ||| lo.clarity < hi.clarity && weights.clarity > 0
}

/// With weights that are not all zero, the overall score never falls when a
/// benefit criterion rises or the risk falls: raising any criterion other
/// than risk cannot lower the score, and raising risk cannot raise it.
pub proof fn lemma_overall_score_monotone(lo: Scores, hi: Scores, weights: ScoringWeights)
    requires
        weights.total() > 0,
        dominates(hi, lo),
    ensures
        weighted_sum(lo, weights) <= weighted_sum(hi, weights),
        overall_score(lo, weights) <= overall_score(hi, weights),
{
    lemma_term_ordered(lo.feasibility as int, hi.feasibility as int, weights.feasibility as int);
    lemma_term_ordered(lo.speed_to_value as int, hi.speed_to_value as int, weights.speed_to_value as int);
    lemma_term_ordered(lo.differentiation as int, hi.differentiation as int, weights.differentiation as int);
    lemma_term_ordered(lo.market_size as int, hi.market_size as int, weights.market_size as int);
    lemma_term_ordered(lo.distribution as int, hi.distribution as int, weights.distribution as int);
    lemma_term_ordered(lo.moats as int, hi.moats as int, weights.moats as int);
    lemma_term_ordered(inverted_risk(lo.risk), inverted_risk(hi.risk), weights.risk as int);
    lemma_term_ordered(lo.clarity as int, hi.clarity as int, weights.clarity as int);
    lemma_div_is_ordered(weighted_sum(lo, weights), weighted_sum(hi, weights), weights.total());
}

/// Before rounding the monotonicity is strict: where an idea is at least as
/// good on every criterion and better on one that has a positive weight, its
/// weighted sum, and with it its exact weighted mean, is strictly higher.
pub proof fn lemma_weighted_sum_strictly_monotone(lo: Scores, hi: Scores, weights: ScoringWeights)
    requires
        dominates(hi, lo),
        better_where_it_counts(hi, lo, weights),
    ensures
        weighted_sum(lo, weights) < weighted_sum(hi, weights),
{
    lemma_term_ordered(lo.feasibility as int, hi.feasibility as int, weights.feasibility as int);
    lemma_term_ordered(lo.speed_to_value as int, hi.speed_to_value as int, weights.speed_to_value as int);
    lemma_term_ordered(lo.differentiation as int, hi.differentiation as int, weights.differentiation as int);
    lemma_term_ordered(lo.market_size as int, hi.market_size as int, weights.market_size as int);
    lemma_term_ordered(lo.distribution as int, hi.distribution as int, weights.distribution as int);
    lemma_term_ordered(lo.moats as int, hi.moats as int, weights.moats as int);
    lemma_term_ordered(inverted_risk(lo.risk), inverted_risk(hi.risk), weights.risk as int);
    lemma_term_ordered(lo.clarity as int, hi.clarity as int, weights.clarity as int);
    if lo.feasibility < hi.feasibility && weights.feasibility > 0 {
        lemma_term_strictly_ordered(lo.feasibility as int, hi.feasibility as int, weights.feasibility as int);
    } else if lo.speed_to_value < hi.speed_to_value && weights.speed_to_value > 0 {
        lemma_term_strictly_ordered(lo.speed_to_value as int, hi.speed_to_value as int, weights.speed_to_value as int);
    } else if lo.differentiation < hi.differentiation && weights.differentiation > 0 {
        lemma_term_strictly_ordered(lo.differentiation as int, hi.differentiation as int, weights.differentiation as int);
    } else if lo.market_size < hi.market_size && weights.market_size > 0 {
        lemma_term_strictly_ordered(lo.market_size as int, hi.market_size as int, weights.market_size as int);
    } else if lo.distribution < hi.distribution && weights.distribution > 0 {
        lemma_term_strictly_ordered(lo.distribution as int, hi.distribution as int, weights.distribution as int);
    } else if lo.moats < hi.moats && weights.moats > 0 {
        lemma_term_strictly_ordered(lo.moats as int, hi.moats as int, weights.moats as int);
    } else if lo.risk > hi.risk && weights.risk > 0 {
        lemma_term_strictly_ordered(inverted_risk(lo.risk), inverted_risk(hi.risk), weights.risk as int);
    } else {
        lemma_term_strictly_ordered(lo.clarity as int, hi.clarity as int, weights.clarity as int);
    }
}

/// The product of a contribution and a weight.
fn weigh(value: i64, weight: u64) -> (term: i128)
    requires
        -0x1_0000_0000 <= value <= 0x1_0000_0000,
    ensures
        term == value * weight,
        -0x1_0000_0000_0000_0000_0000_0000 <= term <= 0x1_0000_0000_0000_0000_0000_0000,
{
    let v: i128 = value as i128;
    let w: i128 = weight as i128;
    assert(-0x1_0000_0000_0000_0000_0000_0000 <= v * w <= 0x1_0000_0000_0000_0000_0000_0000)
        by (nonlinear_arith)
        requires
            -0x1_0000_0000 <= v <= 0x1_0000_0000,
            0 <= w < 0x1_0000_0000_0000_0000,
    ;
    v * w
}

/// `sum / total` rounded down, for a positive `total`.
fn floor_div(sum: i128, total: i128) -> (q: i128)
    requires
        total > 0,
        -0x1_0000_0000_0000_0000_0000_0000_0000 <= sum <= 0x1_0000_0000_0000_0000_0000_0000_0000,
        total <= 0x1_0000_0000_0000_0000_0000,
    ensures
        q == sum / total,
{
    if sum >= 0 {
        sum / total
    } else {
        let n: i128 = -sum;
        let k: i128 = (n + total - 1) / total;
        proof {
            let r = (n + total - 1) % (total as int);
            assert(n + total - 1 == total * k + r && 0 <= r < total) by {
                vstd::arithmetic::div_mod::lemma_fundamental_div_mod(n + total - 1, total as int);
                vstd::arithmetic::div_mod::lemma_mod_bound(n + total - 1, total as int);
            }
            let rem = total - 1 - r;
            assert(sum == (-k) * total + rem) by (nonlinear_arith)
                requires
                    n + total - 1 == total * k + r,
                    rem == total - 1 - r,
                    sum == -n,
            ;
            lemma_fundamental_div_mod_converse(sum as int, total as int, -k as int, rem as int);
        }
        -k
    }
}

/// The overall score of `scores` under `weights`: the weighted mean of the
/// eight contributions, rounded down, or an error where the weights are all
/// zero.
pub fn calculate_overall_score(scores: &Scores, weights: &ScoringWeights) -> (result: Result<
    i64,
    ScoringError,
>)
    ensures
        weights.total() == 0 <==> result == Err::<i64, ScoringError>(ScoringError::ZeroTotalWeight),
        weights.total() > 0 <==> result == Ok::<i64, ScoringError>(
            overall_score(*scores, *weights) as i64,
        ),
        weights.total() > 0 ==> -0x1_0000_0000 <= overall_score(*scores, *weights) <= 0x1_0000_0000,
{
    let total: i128 = weights.feasibility as i128 + weights.speed_to_value as i128
        + weights.differentiation as i128 + weights.market_size as i128
        + weights.distribution as i128 + weights.moats as i128 + weights.risk as i128
        + weights.clarity as i128;
    if total == 0 {
        return Err(ScoringError::ZeroTotalWeight);
    }
    let risk: i64 = SCORE_MAX as i64 - scores.risk as i64;
    let sum: i128 = weigh(scores.feasibility as i64, weights.feasibility) + weigh(
        scores.speed_to_value as i64,
        weights.speed_to_value,
    ) + weigh(scores.differentiation as i64, weights.differentiation) + weigh(
        scores.market_size as i64,
        weights.market_size,
    ) + weigh(scores.distribution as i64, weights.distribution) + weigh(
        scores.moats as i64,
        weights.moats,
    ) + weigh(risk, weights.risk) + weigh(scores.clarity as i64, weights.clarity);
    let q = floor_div(sum, total);
    proof {
        let bound: int = 0x1_0000_0000;
        lemma_term_ordered(scores.feasibility as int, bound, weights.feasibility as int);
        lemma_term_ordered(scores.speed_to_value as int, bound, weights.speed_to_value as int);
        lemma_term_ordered(scores.differentiation as int, bound, weights.differentiation as int);
        lemma_term_ordered(scores.market_size as int, bound, weights.market_size as int);
        lemma_term_ordered(scores.distribution as int, bound, weights.distribution as int);
        lemma_term_ordered(scores.moats as int, bound, weights.moats as int);
        lemma_term_ordered(inverted_risk(scores.risk), bound, weights.risk as int);
        lemma_term_ordered(scores.clarity as int, bound, weights.clarity as int);
        lemma_term_ordered(-bound, scores.feasibility as int, weights.feasibility as int);
        lemma_term_ordered(-bound, scores.speed_to_value as int, weights.speed_to_value as int);
        lemma_term_ordered(-bound, scores.differentiation as int, weights.differentiation as int);
        lemma_term_ordered(-bound, scores.market_size as int, weights.market_size as int);
        lemma_term_ordered(-bound, scores.distribution as int, weights.distribution as int);
        lemma_term_ordered(-bound, scores.moats as int, weights.moats as int);
        lemma_term_ordered(-bound, inverted_risk(scores.risk), weights.risk as int);
        lemma_term_ordered(-bound, scores.clarity as int, weights.clarity as int);
        let t = total as int;
        let s = sum as int;
        assert(s == weighted_sum(*scores, *weights));
        assert(s <= 0x1_0000_0000 * t);
        assert(s >= (-0x1_0000_0000) * t);
        lemma_div_is_ordered(s, bound * t, t);
        lemma_div_is_ordered((-bound) * t, s, t);
        vstd::arithmetic::div_mod::lemma_div_multiples_vanish(bound, t);
        vstd::arithmetic::div_mod::lemma_div_multiples_vanish(-bound, t);
        assert(bound * t == t * bound && (-bound) * t == t * (-bound));
    }
    Ok(q as i64)
}

/// True when there is a best score and it has reached the threshold.
pub fn check_threshold_stop(best_score: Option<i64>, threshold: i64) -> (stop: bool)
    ensures
        stop == (best_score is Some && best_score->0 >= threshold),
{
    match best_score {
        Some(score) => score >= threshold,
        None => false,
    }
}

/// True when the stagnation counter has reached the configured patience.
pub fn check_stagnation_stop(stagnation_counter: u32, patience: u32) -> (stop: bool)
    ensures
        stop == (stagnation_counter >= patience),
{
    stagnation_counter >= patience
}

/// True when the round counter has reached the configured maximum.
pub fn check_max_rounds_stop(iteration: u32, max_rounds: u32) -> (stop: bool)
    ensures
        stop == (iteration >= max_rounds),
{
    iteration >= max_rounds
}

/// The best score has improved: there is a current best, and it is the first
/// one ever or strictly above the previous one.
pub open spec fn improved(current_best: Option<i64>, previous_best: Option<i64>) -> bool {
    current_best is Some && (previous_best is None || current_best->0 > previous_best->0)
}

/// The stagnation counter after a selection: back to 0 where the best score
/// has improved, one more otherwise.
pub open spec fn next_stagnation(
    current_best: Option<i64>,
    previous_best: Option<i64>,
    stagnation_counter: u32,
) -> int {
    if improved(current_best, previous_best) {
        0
    } else {
        stagnation_counter + 1
    }
}

/// The stagnation counter after a selection: 0 where the current best is
/// strictly above the previous best or is the first best, the old counter
/// plus one otherwise. Only where the counter is raised must there be room
/// to raise it.
pub fn update_stagnation(
    current_best: Option<i64>,
    previous_best: Option<i64>,
    stagnation_counter: u32,
) -> (counter: u32)
    requires
        !improved(current_best, previous_best) ==> stagnation_counter < u32::MAX,
    ensures
        counter == next_stagnation(current_best, previous_best, stagnation_counter),
        (current_best is Some && previous_best is Some && current_best->0 > previous_best->0)
            ==> counter == 0,
        (current_best is Some && previous_best is None) ==> counter == 0,
        !improved(current_best, previous_best) ==> counter == stagnation_counter + 1,
{
    match (current_best, previous_best) {
        (Some(current), Some(previous)) => {
            if current > previous {
                0
            } else {
                stagnation_counter + 1
            }
        },
        (Some(_), None) => 0,
        _ => stagnation_counter + 1,
    }
}

/// Which stop condition holds, by priority: the threshold first, then
/// stagnation, then the round limit; none where the loop goes on.
pub open spec fn stop_reason(
    best_score: Option<i64>,
    threshold: i64,
    stagnation_counter: u32,
    patience: u32,
    iteration: u32,
    max_rounds: u32,
) -> Option<StopReason> {
    if best_score is Some && best_score->0 >= threshold {
        Some(StopReason::Threshold)
    } else if stagnation_counter >= patience {
        Some(StopReason::Stagnation)
    } else if iteration >= max_rounds {
        Some(StopReason::MaxRounds)
    } else {
        None
    }
}

/// Evaluates the three stop conditions in their priority order and names the
/// first that holds.
pub fn evaluate_stop(
    best_score: Option<i64>,
    threshold: i64,
    stagnation_counter: u32,
    patience: u32,
    iteration: u32,
    max_rounds: u32,
) -> (reason: Option<StopReason>)
    ensures
        reason == stop_reason(
            best_score,
            threshold,
            stagnation_counter,
            patience,
            iteration,
            max_rounds,
        ),
{
    if check_threshold_stop(best_score, threshold) {
        Some(StopReason::Threshold)
    } else if check_stagnation_stop(stagnation_counter, patience) {
        Some(StopReason::Stagnation)
    } else if check_max_rounds_stop(iteration, max_rounds) {
        Some(StopReason::MaxRounds)
    } else {
        None
    }
}

/// The positions, among the first `n` ideas, of those that can be ranked: the
/// active ideas that have an overall score. In ascending order.
pub open spec fn ranked_positions(ideas: Seq<Idea>, n: nat) -> Seq<usize>
    decreases n,
{
    if n == 0 {
        Seq::empty()
    } else if ideas[n - 1].is_ranked() {
        ranked_positions(ideas, (n - 1) as nat).push((n - 1) as usize)
    } else {
        ranked_positions(ideas, (n - 1) as nat)
    }
}

/// The overall scores of the ideas at `positions`, as ranking keys.
pub open spec fn score_keys(ideas: Seq<Idea>, positions: Seq<usize>) -> Seq<i128> {
    Seq::new(positions.len(), |k: int| ideas[positions[k] as int].overall_score->0 as i128)
}

/// The positions of the rankable ideas, best overall score first; ideas with
/// equal scores keep their order.
pub open spec fn score_ranking(ideas: Seq<Idea>) -> Seq<usize> {
    let candidates = ranked_positions(ideas, ideas.len());
    arranged(candidates, ranking(score_keys(ideas, candidates)))
}

/// The identifiers of the ideas at `positions`.
pub open spec fn ids_at(ideas: Seq<Idea>, positions: Seq<usize>) -> Seq<u128> {
    Seq::new(positions.len(), |k: int| ideas[positions[k] as int].id)
}

/// The identifiers of the rankable ideas, best first.
pub open spec fn ranked_ids(ideas: Seq<Idea>) -> Seq<u128> {
    ids_at(ideas, score_ranking(ideas))
}

/// Every place listed is the place of an idea that can be ranked.
proof fn lemma_ranked_positions_valid(ideas: Seq<Idea>, n: nat)
    requires
        n <= ideas.len(),
        ideas.len() <= usize::MAX,
    ensures
        ranked_positions(ideas, n).len() <= n,
        forall|k: int|
            0 <= k < ranked_positions(ideas, n).len() ==> (#[trigger] ranked_positions(ideas, n)[k])
                < n && ideas[ranked_positions(ideas, n)[k] as int].is_ranked(),
    decreases n,
{
    if n > 0 {
        lemma_ranked_positions_valid(ideas, (n - 1) as nat);
        let prev = ranked_positions(ideas, (n - 1) as nat);
        let now = ranked_positions(ideas, n);
        assert forall|k: int| 0 <= k < now.len() implies (#[trigger] now[k]) < n
            && ideas[now[k] as int].is_ranked() by {
            if k < prev.len() {
                assert(now[k] == prev[k]);
            }
        }
    }
}

/// Every entry of the score ranking is the position of an active idea that
/// has an overall score, and the ranking has one entry for each such idea.
pub proof fn lemma_score_ranking_valid(ideas: Seq<Idea>)
    requires
        ideas.len() <= usize::MAX,
    ensures
        score_ranking(ideas).len() == ranked_positions(ideas, ideas.len()).len(),
        score_ranking(ideas).len() <= ideas.len(),
        forall|k: int|
            0 <= k < score_ranking(ideas).len() ==> (#[trigger] score_ranking(ideas)[k])
                < ideas.len() && ideas[score_ranking(ideas)[k] as int].is_ranked(),
{
    let candidates = ranked_positions(ideas, ideas.len());
    let keys = score_keys(ideas, candidates);
    lemma_ranked_positions_valid(ideas, ideas.len());
    crate::ranking::lemma_ranking_is_stable_descending(keys, keys.len());
    let order = ranking(keys);
    assert forall|k: int| 0 <= k < score_ranking(ideas).len() implies (#[trigger] score_ranking(
        ideas,
    )[k]) < ideas.len() && ideas[score_ranking(ideas)[k] as int].is_ranked() by {
        assert(order[k] < candidates.len());
        assert(score_ranking(ideas)[k] == candidates[order[k] as int]);
    }
}

/// In the score ranking a better idea never stands behind a worse one, and
/// of two ideas with the same overall score the one that comes first in the
/// population stands first.
pub proof fn lemma_score_ranking_descends(ideas: Seq<Idea>, a: int, b: int)
    requires
        ideas.len() <= usize::MAX,
        0 <= a < b < score_ranking(ideas).len(),
    ensures
        ideas[score_ranking(ideas)[a] as int].overall_score->0 >= ideas[score_ranking(
            ideas,
        )[b] as int].overall_score->0,
        ideas[score_ranking(ideas)[a] as int].overall_score->0 == ideas[score_ranking(
            ideas,
        )[b] as int].overall_score->0 ==> score_ranking(ideas)[a] < score_ranking(ideas)[b],
{
    let candidates = ranked_positions(ideas, ideas.len());
    let keys = score_keys(ideas, candidates);
    lemma_ranked_positions_valid(ideas, ideas.len());
    lemma_ranked_positions_ascend(ideas, ideas.len());
    crate::ranking::lemma_ranking_is_stable_descending(keys, keys.len());
    let order = ranking(keys);
    assert(crate::ranking::ranks_before(keys, order[a], order[b]));
    assert(order[a] < candidates.len() && order[b] < candidates.len());
}

/// The places of the rankable ideas are listed in ascending order, and none
/// is left out.
proof fn lemma_ranked_positions_ascend(ideas: Seq<Idea>, n: nat)
    requires
        n <= ideas.len(),
        ideas.len() <= usize::MAX,
    ensures
        forall|j: int, k: int|
            0 <= j < k < ranked_positions(ideas, n).len() ==> #[trigger] ranked_positions(ideas, n)[j]
                < #[trigger] ranked_positions(ideas, n)[k],
        forall|p: int|
            0 <= p < n && ideas[p].is_ranked() ==> exists|k: int|
                0 <= k < ranked_positions(ideas, n).len() && #[trigger] ranked_positions(ideas, n)[k]
                    == p,
    decreases n,
{
    if n > 0 {
        lemma_ranked_positions_ascend(ideas, (n - 1) as nat);
        lemma_ranked_positions_valid(ideas, (n - 1) as nat);
        let prev = ranked_positions(ideas, (n - 1) as nat);
        let now = ranked_positions(ideas, n);
        assert forall|j: int, k: int| 0 <= j < k < now.len() implies #[trigger] now[j]
            < #[trigger] now[k] by {
            if k < prev.len() {
                assert(now[j] == prev[j] && now[k] == prev[k]);
            } else {
                assert(now[j] == prev[j]);
            }
        }
        assert forall|p: int| 0 <= p < n && ideas[p].is_ranked() implies exists|k: int|
            0 <= k < now.len() && #[trigger] now[k] == p by {
            if p < n - 1 {
                let k = choose|k: int| 0 <= k < prev.len() && #[trigger] prev[k] == p;
                assert(now[k] == p);
            } else {
                assert(now[now.len() - 1] == p);
            }
        }
    }
}

/// Every active idea that has an overall score stands in the score ranking.
pub proof fn lemma_score_ranking_complete(ideas: Seq<Idea>, p: int)
    requires
        ideas.len() <= usize::MAX,
        0 <= p < ideas.len(),
        ideas[p].is_ranked(),
    ensures
        exists|k: int| 0 <= k < score_ranking(ideas).len() && #[trigger] score_ranking(ideas)[k] == p,
{
    let candidates = ranked_positions(ideas, ideas.len());
    let keys = score_keys(ideas, candidates);
    lemma_ranked_positions_valid(ideas, ideas.len());
    lemma_ranked_positions_ascend(ideas, ideas.len());
    crate::ranking::lemma_ranking_is_stable_descending(keys, keys.len());
    let order = ranking(keys);
    let c = choose|c: int| 0 <= c < candidates.len() && #[trigger] candidates[c] == p;
    assert(crate::ranking::occurs_in(order, c));
    let k = choose|k: int| 0 <= k < order.len() && #[trigger] order[k] == c;
    assert(score_ranking(ideas)[k] == p);
}

/// The positions of the active ideas that have an overall score, best score
/// first; ideas with equal scores keep their order.
pub fn rank_by_score(ideas: &Vec<Idea>) -> (ranked: Vec<usize>)
    ensures
        ranked@ == score_ranking(ideas@),
        ranked@.len() <= ideas@.len(),
        forall|k: int|
            0 <= k < ranked@.len() ==> (#[trigger] ranked@[k]) < ideas@.len()
                && ideas@[ranked@[k] as int].is_ranked(),
{
    let mut candidates: Vec<usize> = Vec::new();
    let mut keys: Vec<i128> = Vec::new();
    let mut i: usize = 0;
    while i < ideas.len()
        invariant
            i <= ideas.len(),
            candidates@ == ranked_positions(ideas@, i as nat),
            keys@ == score_keys(ideas@, candidates@),
        decreases ideas.len() - i,
    {
        let idea = &ideas[i];
        if idea.status == IdeaStatus::Active {
            if let Some(score) = idea.overall_score {
                candidates.push(i);
                keys.push(score as i128);
                proof {
                    assert(keys@ =~= score_keys(ideas@, candidates@));
                }
            }
        }
        i += 1;
    }
    proof {
        lemma_score_ranking_valid(ideas@);
    }
    rank_candidates(&candidates, &keys)
}

/// How many ideas are kept as elite: `elite_count`, or all `ranked` of them
/// where there are fewer.
pub open spec fn elite_size(elite_count: usize, ranked: nat) -> nat {
    if elite_count <= ranked {
        elite_count as nat
    } else {
        ranked
    }
}

/// The first rank of the mid band: three tenths of `n`, rounded up.
pub open spec fn band_start(n: nat) -> nat {
    (3 * n + 9) / 10
}

/// The rank behind the last of the mid band: seven tenths of `n`, rounded
/// down.
pub open spec fn band_end(n: nat) -> nat {
    (7 * n) / 10
}

/// The identifiers at the ranks `from..to` that are not among `elite`, in
/// rank order.
pub open spec fn band_between(ranked: Seq<u128>, elite: Seq<u128>, from: nat, to: nat) -> Seq<u128>
    decreases to,
{
    if to <= from {
        Seq::empty()
    } else if elite.contains(ranked[to - 1]) {
        band_between(ranked, elite, from, (to - 1) as nat)
    } else {
        band_between(ranked, elite, from, (to - 1) as nat).push(ranked[to - 1])
    }
}

/// The elite: the identifiers of the best `elite_count` ranked ideas.
pub open spec fn elite_of(ranked: Seq<u128>, elite_count: usize) -> Seq<u128> {
    ranked.take(elite_size(elite_count, ranked.len()) as int)
}

/// How many places are left for the diversity sample once the elite is
/// seated.
pub open spec fn diversity_slots(ranked: nat, elite_count: usize, population_size: usize) -> nat {
    let elite = elite_size(elite_count, ranked);
    if population_size > elite {
        (population_size - elite) as nat
    } else {
        0
    }
}

/// The identifiers that the diversity sample is drawn from: the mid band of
/// the ranking without the elite, or nothing where no place is left or no
/// idea is ranked behind the elite.
pub open spec fn diversity_band(ranked: Seq<u128>, elite_count: usize, population_size: usize) -> Seq<
    u128,
> {
    let n = ranked.len();
    if diversity_slots(n, elite_count, population_size) > 0 && n > elite_size(elite_count, n)
        && band_start(n) < band_end(n) {
        band_between(ranked, elite_of(ranked, elite_count), band_start(n), band_end(n))
    } else {
        Seq::empty()
    }
}

/// How many identifiers the diversity sample holds: one for each free place,
/// but no more than the band has.
pub open spec fn diversity_size(ranked: Seq<u128>, elite_count: usize, population_size: usize) -> nat {
    let slots = diversity_slots(ranked.len(), elite_count, population_size);
    let band = diversity_band(ranked, elite_count, population_size).len();
    if slots <= band {
        slots
    } else {
        band
    }
}

/// `picks` is a sample of `amount` places out of `length`, or of all of them
/// where there are fewer: each place is below `length` and none is drawn
/// twice.
pub open spec fn is_sample(picks: Seq<usize>, length: nat, amount: nat) -> bool {
    &&& picks.len() == if amount <= length { amount } else { length }
    &&& forall|k: int| 0 <= k < picks.len() ==> (#[trigger] picks[k]) < length
    &&& forall|j: int, k: int| 0 <= j < k < picks.len() ==> #[trigger] picks[j] != #[trigger] picks[k]
}

/// What a selection keeps, before the diversity sample is drawn.
pub struct SelectionPlan {
    /// The identifiers of the elite, best first. Always kept.
    pub elite: Vec<u128>,
    /// The identifiers the diversity sample is drawn from, in rank order.
    pub band: Vec<u128>,
    /// How many identifiers are to be drawn from the band.
    pub diversity_count: usize,
}

impl SelectionPlan {
    /// The plan is the one that the selection algorithm makes for `ideas`.
    pub open spec fn is_plan_for(self, ideas: Seq<Idea>, elite_count: usize, population_size: usize) -> bool {
        &&& self.elite@ == elite_of(ranked_ids(ideas), elite_count)
        &&& self.band@ == diversity_band(ranked_ids(ideas), elite_count, population_size)
        &&& self.diversity_count == diversity_size(ranked_ids(ideas), elite_count, population_size)
    }

    /// The survivors where the sample drew the places `picks` of the band: the
    /// elite, then the drawn identifiers in the order drawn.
    pub open spec fn completed(self, picks: Seq<usize>) -> Seq<u128> {
        self.elite@ + Seq::new(picks.len(), |k: int| self.band@[picks[k] as int])
    }

    /// The survivors, given the places of the band that the sample drew.
    pub fn complete(&self, picks: &Vec<usize>) -> (selected: Vec<u128>)
        requires
            forall|k: int| 0 <= k < picks@.len() ==> (#[trigger] picks@[k]) < self.band@.len(),
        ensures
            selected@ == self.completed(picks@),
    {
        let mut selected: Vec<u128> = Vec::new();
        let mut e: usize = 0;
        while e < self.elite.len()
            invariant
                e <= self.elite.len(),
                selected@ == self.elite@.take(e as int),
            decreases self.elite.len() - e,
        {
            selected.push(self.elite[e]);
            proof {
                assert(selected@ == self.elite@.take(e + 1));
            }
            e += 1;
        }
        proof {
            assert(self.elite@.take(e as int) == self.elite@);
        }
        let mut k: usize = 0;
        while k < picks.len()
            invariant
                k <= picks.len(),
                forall|j: int| 0 <= j < picks@.len() ==> (#[trigger] picks@[j]) < self.band@.len(),
                selected@ == self.elite@ + Seq::new(
                    picks@.len(),
                    |j: int| self.band@[picks@[j] as int],
                ).take(k as int),
            decreases picks.len() - k,
        {
            selected.push(self.band[picks[k]]);
            proof {
                let drawn = Seq::new(picks@.len(), |j: int| self.band@[picks@[j] as int]);
                assert(drawn.take(k + 1) == drawn.take(k as int).push(drawn[k as int]));
                assert(selected@ == self.elite@ + drawn.take(k + 1));
            }
            k += 1;
        }
        proof {
            let drawn = Seq::new(picks@.len(), |j: int| self.band@[picks@[j] as int]);
            assert(drawn.take(k as int) == drawn);
        }
        selected
    }
}

/// The band holds no rank of the elite, so it is no longer than the ranks
/// it spans behind the elite.
proof fn lemma_band_skips_elite(ranked: Seq<u128>, elite: nat, from: nat, to: nat)
    requires
        elite <= ranked.len(),
        to <= ranked.len(),
    ensures
        band_between(ranked, ranked.take(elite as int), from, to).len() <= (if to > elite && to
            > from {
            if from >= elite {
                to - from
            } else {
                to - elite
            }
        } else {
            0
        }),
    decreases to,
{
    if to > from {
        lemma_band_skips_elite(ranked, elite, from, (to - 1) as nat);
        if to - 1 < elite {
            assert(ranked.take(elite as int)[to - 1] == ranked[to - 1]);
        }
    }
}

/// True when `id` is one of `ids`.
pub fn contains_id(ids: &Vec<u128>, id: u128) -> (found: bool)
    ensures
        found == ids@.contains(id),
{
    let mut k: usize = 0;
    while k < ids.len()
        invariant
            k <= ids.len(),
            forall|j: int| 0 <= j < k ==> ids@[j] != id,
        decreases ids.len() - k,
    {
        if ids[k] == id {
            return true;
        }
        k += 1;
    }
    false
}

/// Plans a selection: ranks the active, scored ideas, seats the elite and
/// lays out the band that the diversity sample is drawn from.
pub fn plan_selection(ideas: &Vec<Idea>, elite_count: usize, population_size: usize) -> (plan:
    SelectionPlan)
    ensures
        plan.is_plan_for(ideas@, elite_count, population_size),
        plan.diversity_count <= plan.band@.len(),
        plan.elite@.len() + plan.diversity_count <= ideas@.len(),
        elite_count <= population_size ==> plan.elite@.len() + plan.diversity_count
            <= population_size,
{
    let order = rank_by_score(ideas);
    let n = order.len();
    let mut ranked: Vec<u128> = Vec::new();
    let mut r: usize = 0;
    while r < n
        invariant
            r <= n,
            n == order@.len(),
            forall|k: int| 0 <= k < order@.len() ==> (#[trigger] order@[k]) < ideas@.len(),
            ranked@ == ids_at(ideas@, order@).take(r as int),
        decreases n - r,
    {
        ranked.push(ideas[order[r]].id);
        proof {
            assert(ranked@ == ids_at(ideas@, order@).take(r + 1));
        }
        r += 1;
    }
    proof {
        assert(ids_at(ideas@, order@).take(r as int) == ids_at(ideas@, order@));
        assert(ranked@ == ranked_ids(ideas@));
    }
    let elite_taken = if elite_count <= n { elite_count } else { n };
    let mut elite: Vec<u128> = Vec::new();
    let mut e: usize = 0;
    while e < elite_taken
        invariant
            e <= elite_taken <= ranked.len(),
            elite@ == ranked@.take(e as int),
        decreases elite_taken - e,
    {
        elite.push(ranked[e]);
        proof {
            assert(elite@ == ranked@.take(e + 1));
        }
        e += 1;
    }
    let slots = if population_size > elite_taken { population_size - elite_taken } else { 0 };
    let start_wide: u128 = (3 * (n as u128) + 9) / 10;
    let end_wide: u128 = (7 * (n as u128)) / 10;
    let mut band: Vec<u128> = Vec::new();
    if slots > 0 && n > elite_taken && start_wide < end_wide {
        let start: usize = start_wide as usize;
        let end: usize = end_wide as usize;
        let mut t: usize = start;
        while t < end
            invariant
                start <= t <= end <= ranked.len(),
                band@ == band_between(ranked@, elite@, start as nat, t as nat),
                band@.len() <= t - start,
            decreases end - t,
        {
            let id = ranked[t];
            if !contains_id(&elite, id) {
                band.push(id);
            }
            t += 1;
        }
    }
    let diversity_count = if slots <= band.len() { slots } else { band.len() };
    proof {
        let nn = n as nat;
        assert(band_end(nn) <= nn);
        if slots > 0 && n > elite_taken && start_wide < end_wide {
            lemma_band_skips_elite(ranked@, elite_taken as nat, band_start(nn), band_end(nn));
        }
    }
    SelectionPlan { elite, band, diversity_count }
}

/// `chosen` holds the elements of `pool` at the places `places`: as many as
/// `amount`, or all of the pool where it is shorter, and no place twice.
pub open spec fn is_choice(pool: Seq<usize>, amount: usize, chosen: Seq<usize>, places: Seq<int>) -> bool {
    &&& chosen.len() == if amount <= pool.len() { amount as nat } else { pool.len() }
    &&& places.len() == chosen.len()
    &&& forall|k: int|
        0 <= k < places.len() ==> 0 <= #[trigger] places[k] < pool.len() && chosen[k]
            == pool[places[k]]
    &&& forall|j: int, k: int| 0 <= j < k < places.len() ==> #[trigger] places[j] != #[trigger] places[k]
}

/// `rand`'s `SliceRandom::choose_multiple` on a slice of numbers, drawn with
/// the thread-local generator (`rand::thread_rng`) and copied into a vector.
/// Which elements come back is random; claimed is what the crate documents of
/// every draw: `amount` elements, or the whole slice where it is shorter,
/// taken from distinct places of the slice.
#[verifier::external_body]
fn choose_multiple(pool: &Vec<usize>, amount: usize) -> (chosen: Vec<usize>)
    ensures
        exists|places: Seq<int>| #[trigger] is_choice(pool@, amount, chosen@, places),
{
    let mut rng = rand::thread_rng();
    pool.choose_multiple(&mut rng, amount).cloned().collect()
}

/// Draws `amount` distinct places out of `0..length` at random, or all of
/// them where there are fewer.
pub fn sample_places(length: usize, amount: usize) -> (picks: Vec<usize>)
    ensures
        is_sample(picks@, length as nat, amount as nat),
{
    let mut pool: Vec<usize> = Vec::new();
    let mut i: usize = 0;
    while i < length
        invariant
            i <= length,
            pool@.len() == i,
            forall|k: int| 0 <= k < i ==> pool@[k] == k,
        decreases length - i,
    {
        pool.push(i);
        i += 1;
    }
    let picks = choose_multiple(&pool, amount);
    proof {
        let places = choose|places: Seq<int>| #[trigger] is_choice(pool@, amount, picks@, places);
        assert forall|k: int| 0 <= k < picks@.len() implies (#[trigger] picks@[k]) < length by {
            assert(picks@[k] == pool@[places[k]]);
        }
        assert forall|j: int, k: int| 0 <= j < k < picks@.len() implies #[trigger] picks@[j]
            != #[trigger] picks@[k] by {
            assert(picks@[j] == pool@[places[j]]);
            assert(picks@[k] == pool@[places[k]]);
        }
    }
    picks
}

/// The survivors of `ideas` where the diversity sample drew the places
/// `picks` of the band: the elite, then the drawn identifiers.
pub open spec fn selection_with(
    ideas: Seq<Idea>,
    elite_count: usize,
    population_size: usize,
    picks: Seq<usize>,
) -> Seq<u128> {
    let ranked = ranked_ids(ideas);
    let band = diversity_band(ranked, elite_count, population_size);
    elite_of(ranked, elite_count) + Seq::new(picks.len(), |k: int| band[picks[k] as int])
}

/// `selected` is a possible outcome of the selection: the elite followed by
/// a sample, without repetition, of as many band members as there are free
/// places (all of the band where it is smaller).
pub open spec fn is_selection(
    ideas: Seq<Idea>,
    elite_count: usize,
    population_size: usize,
    selected: Seq<u128>,
) -> bool {
    let ranked = ranked_ids(ideas);
    exists|picks: Seq<usize>|
        #[trigger] is_sample(
            picks,
            diversity_band(ranked, elite_count, population_size).len(),
            diversity_slots(ranked.len(), elite_count, population_size),
        ) && selected == selection_with(ideas, elite_count, population_size, picks)
}

/// `id` is the identifier of an active idea that has an overall score.
pub open spec fn is_ranked_id(ideas: Seq<Idea>, id: u128) -> bool {
    exists|p: int| 0 <= p < ideas.len() && (#[trigger] ideas[p]).is_ranked() && ideas[p].id == id
}

/// Every member of the band stands at one of the ranks that the band spans.
proof fn lemma_band_members(ranked: Seq<u128>, elite: Seq<u128>, from: nat, to: nat, k: int)
    requires
        to <= ranked.len(),
        0 <= k < band_between(ranked, elite, from, to).len(),
    ensures
        exists|r: int| from <= r < to && #[trigger] ranked[r] == band_between(ranked, elite, from, to)[k],
    decreases to,
{
    if to > from {
        let before = band_between(ranked, elite, from, (to - 1) as nat);
        if k < before.len() {
            lemma_band_members(ranked, elite, from, (to - 1) as nat, k);
            let r = choose|r: int| from <= r < to - 1 && #[trigger] ranked[r] == before[k];
            assert(ranked[r] == band_between(ranked, elite, from, to)[k]);
        } else {
            assert(ranked[to - 1] == band_between(ranked, elite, from, to)[k]);
        }
    }
}

/// Every survivor of a selection is an active idea that has an overall
/// score.
pub proof fn lemma_survivors_are_ranked(
    ideas: Seq<Idea>,
    elite_count: usize,
    population_size: usize,
    selected: Seq<u128>,
    k: int,
)
    requires
        ideas.len() <= usize::MAX,
        is_selection(ideas, elite_count, population_size, selected),
        0 <= k < selected.len(),
    ensures
        is_ranked_id(ideas, selected[k]),
{
    let ranked = ranked_ids(ideas);
    let order = score_ranking(ideas);
    let band = diversity_band(ranked, elite_count, population_size);
    let elite = elite_of(ranked, elite_count);
    lemma_score_ranking_valid(ideas);
    let picks = choose|picks: Seq<usize>|
        #[trigger] is_sample(
            picks,
            band.len(),
            diversity_slots(ranked.len(), elite_count, population_size),
        ) && selected == selection_with(ideas, elite_count, population_size, picks);
    if k < elite.len() {
        assert(selected[k] == ranked[k]);
        assert(ideas[order[k] as int].is_ranked());
    } else {
        let at = picks[k - elite.len()] as int;
        assert(selected[k] == band[at]);
        lemma_band_members(
            ranked,
            elite,
            band_start(ranked.len()),
            band_end(ranked.len()),
            at,
        );
        let r = choose|r: int|
            band_start(ranked.len()) <= r < band_end(ranked.len()) && #[trigger] ranked[r]
                == band[at];
        assert(ideas[order[r] as int].is_ranked());
    }
}

/// Chooses the survivors: the `elite_count` best of the active, scored ideas,
/// and a random sample from the mid band of the ranking for the places that
/// `population_size` leaves free. The elite comes first, best first, and is
/// the same on every call; which band members follow is random.
pub fn select_ideas(ideas: &Vec<Idea>, elite_count: usize, population_size: usize) -> (selected:
    Vec<u128>)
    ensures
        is_selection(ideas@, elite_count, population_size, selected@),
        selected@.take(elite_size(elite_count, ranked_ids(ideas@).len()) as int) == elite_of(
            ranked_ids(ideas@),
            elite_count,
        ),
        selected@.len() == elite_size(elite_count, ranked_ids(ideas@).len()) + diversity_size(
            ranked_ids(ideas@),
            elite_count,
            population_size,
        ),
        selected@.len() <= ideas@.len(),
        elite_count <= population_size ==> selected@.len() <= population_size,
{
    let plan = plan_selection(ideas, elite_count, population_size);
    let picks = sample_places(plan.band.len(), plan.diversity_count);
    let selected = plan.complete(&picks);
    proof {
        let ranked = ranked_ids(ideas@);
        assert(is_sample(
            picks@,
            diversity_band(ranked, elite_count, population_size).len(),
            diversity_slots(ranked.len(), elite_count, population_size),
        ));
        assert(selected@ == selection_with(ideas@, elite_count, population_size, picks@));
        assert(selected@.take(plan.elite@.len() as int) == plan.elite@);
    }
    selected
}

} // verus!
